use spooky_go::board::Board;
use spooky_go::player::Player;
use spooky_go::position::Position;

#[test]
fn test_board_sizes() {
    // The fixed-capacity storage keeps a whole board, both colors,
    // within a small stack footprint for every supported size.
    let size = std::mem::size_of::<Board>();
    assert!(size <= 2 * 16 * 8 + 8, "Board too large: {}", size);

    let b9 = Board::new(9, 9);
    assert_eq!(b9.width(), 9);
    assert_eq!(b9.height(), 9);
    let b19 = Board::new(19, 19);
    assert_eq!(b19.width(), 19);
    assert_eq!(b19.height(), 19);
    let b32 = Board::new(32, 32);
    assert_eq!(b32.width(), 32);
    assert_eq!(b32.height(), 32);
}

#[test]
fn test_set_and_get_piece() {
    let mut b = Board::new(9, 9);
    let pos = Position::new(3, 4);
    assert_eq!(b.get_piece(&pos), None);
    b.set_piece(&pos, Some(Player::Black));
    assert_eq!(b.get_piece(&pos), Some(Player::Black));
    b.set_piece(&pos, Some(Player::White));
    assert_eq!(b.get_piece(&pos), Some(Player::White));
    b.set_piece(&pos, None);
    assert_eq!(b.get_piece(&pos), None);
}

#[test]
fn test_set_piece_off_board() {
    let mut b = Board::new(9, 9);
    let off = Position::new(9, 0);
    b.set_piece(&off, Some(Player::Black));
    assert_eq!(b.get_piece(&off), None);
}

#[test]
fn test_clear_board() {
    let mut b = Board::new(5, 5);
    b.set_piece(&Position::new(0, 0), Some(Player::Black));
    b.set_piece(&Position::new(1, 1), Some(Player::White));
    b.clear();
    assert_eq!(b.get_piece(&Position::new(0, 0)), None);
    assert_eq!(b.get_piece(&Position::new(1, 1)), None);
}

#[test]
fn test_stones_and_occupied() {
    let mut b = Board::new(5, 5);
    b.set_piece(&Position::new(0, 0), Some(Player::Black));
    b.set_piece(&Position::new(1, 0), Some(Player::White));
    assert!(b.black_stones().get(0));
    assert!(!b.black_stones().get(1));
    assert!(b.white_stones().get(1));
    assert!(b.occupied().get(0));
    assert!(b.occupied().get(1));
    assert!(!b.occupied().get(2));
    assert!(b.stones_for(Player::Black).get(0));
    assert!(b.stones_for(Player::White).get(1));
}

#[test]
fn test_default_board() {
    let b = Board::default();
    assert_eq!(b.width(), 19);
    assert_eq!(b.height(), 19);
    assert_eq!(b.occupied().count(), 0);
}
