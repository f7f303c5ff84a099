use spooky_go::encode::{decode_move, encode_move, total_actions};
use spooky_go::moves::Move;

#[test]
fn test_encode_decode_move() {
    let width: u8 = 9;
    let height: u8 = 9;

    for row in 0..height {
        for col in 0..width {
            let move_ = Move::place(col, row);
            let encoded = encode_move(&move_, width, height);
            let decoded = decode_move(encoded, width, height).unwrap();

            assert_eq!(decoded, move_);
        }
    }

    let pass = Move::pass();
    let encoded_pass = encode_move(&pass, width, height);
    assert_eq!(encoded_pass, width as usize * height as usize);

    let decoded_pass = decode_move(encoded_pass, width, height).unwrap();
    assert_eq!(decoded_pass, pass);
}

#[test]
fn test_total_actions() {
    assert_eq!(total_actions(9, 9), 82);
    assert_eq!(total_actions(19, 19), 362);
    assert_eq!(total_actions(5, 5), 26);
}

#[test]
fn test_invalid_action_decoding() {
    let width: u8 = 9;
    let height: u8 = 9;
    let board_size = width as usize * height as usize;

    assert!(decode_move(board_size + 1, width, height).is_none());
    assert!(decode_move(board_size + 10, width, height).is_none());
    assert!(decode_move(1000, width, height).is_none());
}

#[test]
fn test_pass_move_encoding() {
    let pass = Move::pass();

    let encoded_9x9 = encode_move(&pass, 9, 9);
    assert_eq!(encoded_9x9, 81);

    let encoded_19x19 = encode_move(&pass, 19, 19);
    assert_eq!(encoded_19x19, 361);

    let decoded = decode_move(81, 9, 9).unwrap();
    assert!(decoded.is_pass());
}

#[test]
fn test_encode_move_on_non_square_board() {
    // 13x7: cell (12, 6) is the last cell; Pass is 91.
    let last = Move::place(12, 6);
    assert_eq!(encode_move(&last, 13, 7), 90);
    assert_eq!(encode_move(&Move::pass(), 13, 7), 91);
    assert_eq!(decode_move(90, 13, 7), Some(last));
    assert_eq!(decode_move(91, 13, 7), Some(Move::pass()));
    assert_eq!(decode_move(92, 13, 7), None);
}
