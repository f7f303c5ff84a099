use spooky_go::moves::Move;
use spooky_go::outcome::GameOutcome;
use spooky_go::player::Player;
use spooky_go::position::Position;

#[test]
fn test_player_opposite() {
    assert_eq!(Player::Black.opposite(), Player::White);
    assert_eq!(Player::White.opposite(), Player::Black);
}

#[test]
fn test_player_chars() {
    assert_eq!(Player::Black.to_char(), 'B');
    assert_eq!(Player::White.to_char(), 'W');
    assert_eq!(Player::from_char('B'), Some(Player::Black));
    assert_eq!(Player::from_char('b'), Some(Player::Black));
    assert_eq!(Player::from_char('W'), Some(Player::White));
    assert_eq!(Player::from_char('w'), Some(Player::White));
    assert_eq!(Player::from_char('x'), None);
}

#[test]
fn test_player_ints() {
    assert_eq!(Player::Black.to_int(), 1);
    assert_eq!(Player::White.to_int(), -1);
    assert_eq!(Player::from_int(1), Some(Player::Black));
    assert_eq!(Player::from_int(-1), Some(Player::White));
    assert_eq!(Player::from_int(0), None);
    assert_eq!(Player::from_int(2), None);
}

#[test]
fn test_move_accessors() {
    let place = Move::place(3, 4);
    assert!(!place.is_pass());
    assert_eq!(place.col(), Some(3));
    assert_eq!(place.row(), Some(4));
    assert_eq!(place.position(), Some(Position::new(3, 4)));

    let pass = Move::pass();
    assert!(pass.is_pass());
    assert_eq!(pass.col(), None);
    assert_eq!(pass.row(), None);
    assert_eq!(pass.position(), None);
}

#[test]
fn test_outcome_winner_and_rewards() {
    assert_eq!(GameOutcome::BlackWin.winner(), Some(Player::Black));
    assert_eq!(GameOutcome::WhiteWin.winner(), Some(Player::White));
    assert_eq!(GameOutcome::Draw.winner(), None);

    assert!(!GameOutcome::BlackWin.is_draw());
    assert!(GameOutcome::Draw.is_draw());

    assert_eq!(GameOutcome::BlackWin.reward_absolute(), 1);
    assert_eq!(GameOutcome::WhiteWin.reward_absolute(), -1);
    assert_eq!(GameOutcome::Draw.reward_absolute(), 0);

    assert_eq!(GameOutcome::BlackWin.reward_from_perspective(Player::Black), 1);
    assert_eq!(GameOutcome::BlackWin.reward_from_perspective(Player::White), -1);
    assert_eq!(GameOutcome::WhiteWin.reward_from_perspective(Player::Black), -1);
    assert_eq!(GameOutcome::WhiteWin.reward_from_perspective(Player::White), 1);
    assert_eq!(GameOutcome::Draw.reward_from_perspective(Player::Black), 0);
    assert_eq!(GameOutcome::Draw.reward_from_perspective(Player::White), 0);
}

#[test]
fn test_position_index_round_trip() {
    for width in [2u8, 5, 9, 19, 32] {
        let height = 7u8.min(width);
        for row in 0..height {
            for col in 0..width {
                let pos = Position::new(col, row);
                let idx = pos.to_index(width);
                assert_eq!(idx, row as usize * width as usize + col as usize);
                assert_eq!(Position::from_index(idx, width), pos);
            }
        }
    }
}

#[test]
fn test_position_validity() {
    assert!(Position::new(0, 0).is_valid(5, 5));
    assert!(Position::new(4, 4).is_valid(5, 5));
    assert!(!Position::new(5, 0).is_valid(5, 5));
    assert!(!Position::new(0, 5).is_valid(5, 5));
}
