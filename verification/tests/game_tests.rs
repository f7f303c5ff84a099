use spooky_go::game::{Game, DEFAULT_KOMI};
use spooky_go::moves::Move;
use spooky_go::outcome::GameOutcome;
use spooky_go::player::Player;
use spooky_go::position::Position;

#[test]
fn test_new_game() {
    let game = Game::standard();
    assert_eq!(game.turn(), Player::Black);
    assert!(!game.is_over());
    assert!(game.outcome().is_none());
}

#[test]
fn test_legal_moves_initial() {
    let game = Game::new(9, 9);
    let moves = game.legal_moves();
    assert_eq!(moves.len(), 9 * 9 + 1);
}

#[test]
fn test_make_move() {
    let mut game = Game::new(9, 9);
    let move_ = Move::place(0, 0);

    assert!(game.is_legal_move(&move_));
    assert!(game.make_move(&move_));
    assert_eq!(game.turn(), Player::White);
}

#[test]
fn test_make_invalid_move() {
    let mut game = Game::new(9, 9);
    let move_ = Move::place(10, 0);

    assert!(!game.is_legal_move(&move_));
    assert!(!game.make_move(&move_));
}

#[test]
fn test_occupied_position() {
    let mut game = Game::new(9, 9);
    let move_ = Move::place(0, 0);

    game.make_move(&move_);

    let same_pos = Move::place(0, 0);
    assert!(!game.is_legal_move(&same_pos));
}

#[test]
fn test_unmake_move() {
    let mut game = Game::new(9, 9);
    let move_ = Move::place(0, 0);

    game.make_move(&move_);
    assert_eq!(game.turn(), Player::White);

    assert!(game.unmake_move());
    assert_eq!(game.turn(), Player::Black);
    assert_eq!(game.move_history().len(), 0);
    assert!(game.board().get_piece(&Position::new(0, 0)).is_none());
}

#[test]
fn test_pass_move() {
    // Use with_options to set min_moves to 0 so double-pass ends immediately
    let mut game = Game::with_options(9, 9, DEFAULT_KOMI, 0, 1000);

    assert!(game.make_move(&Move::pass()));
    assert_eq!(game.turn(), Player::White);
    assert!(!game.is_over());

    assert!(game.make_move(&Move::pass()));
    assert!(game.is_over());
    // Empty board with komi: White wins
    assert_eq!(game.outcome(), Some(GameOutcome::WhiteWin));
}

#[test]
fn test_pass_move_requires_min_moves() {
    // Default 9x9 game has min_moves = 40 (81/2)
    let mut game = Game::new(9, 9);
    assert_eq!(game.min_moves_before_pass_ends(), 40);

    // Double pass shouldn't end the game yet
    assert!(game.make_move(&Move::pass()));
    assert!(game.make_move(&Move::pass()));
    assert!(!game.is_over());

    // Game should continue with pass still being legal
    assert!(game.make_move(&Move::pass()));
    assert!(!game.is_over());
}

#[test]
fn test_pass_ends_game_after_min_moves() {
    // Create a game with min_moves = 4
    let mut game = Game::with_options(9, 9, DEFAULT_KOMI, 4, 1000);

    // Play 4 moves (2 passes won't end game yet)
    game.make_move(&Move::place(0, 0));
    game.make_move(&Move::place(1, 0));
    game.make_move(&Move::pass());
    game.make_move(&Move::pass());
    // At move 4, pass-pass at moves 3-4 reaches the minimum and ends it
    assert!(game.is_over());
}

#[test]
fn test_max_moves_ends_game() {
    // Create a game with max_moves = 5
    let mut game = Game::with_options(9, 9, DEFAULT_KOMI, 100, 5);

    game.make_move(&Move::place(0, 0));
    game.make_move(&Move::place(1, 0));
    game.make_move(&Move::place(2, 0));
    game.make_move(&Move::place(3, 0));
    assert!(!game.is_over());

    game.make_move(&Move::place(4, 0));
    assert!(game.is_over());
    // Game ends by max moves, outcome determined by scoring
    assert!(game.outcome().is_some());
}

#[test]
fn test_scoring_black_wins() {
    // Create a small board where Black controls most territory.
    // Komi is counted in half-points: 1 here stands for one half point.
    // Use min_moves=0 so double-pass ends game immediately
    let mut game = Game::with_options(5, 5, 1, 0, 1000);

    // Black plays in corner, White passes
    game.make_move(&Move::place(0, 0)); // Black
    game.make_move(&Move::pass()); // White
    game.make_move(&Move::place(1, 0)); // Black
    game.make_move(&Move::pass()); // White
    game.make_move(&Move::place(0, 1)); // Black
    game.make_move(&Move::pass()); // White
    game.make_move(&Move::place(1, 1)); // Black
    game.make_move(&Move::pass()); // White
    game.make_move(&Move::pass()); // Black - game ends

    assert!(game.is_over());
    // Black has 4 stones plus all the territory, White only the half-point komi
    let (black_score, white_score) = game.score();
    assert!(black_score > white_score);
    assert_eq!(game.outcome(), Some(GameOutcome::BlackWin));
}

#[test]
fn test_scoring_with_territory() {
    // Create a game where Black controls a clear territory
    // Use min_moves=0 so double-pass ends game immediately
    let mut game = Game::with_options(5, 5, 0, 0, 1000);

    // Black surrounds top-left corner
    // . . . . .
    // B . . . .
    // B B . . .
    // . . . . .
    // . . . . .
    game.make_move(&Move::place(0, 2)); // Black
    game.make_move(&Move::pass()); // White
    game.make_move(&Move::place(0, 3)); // Black
    game.make_move(&Move::pass()); // White
    game.make_move(&Move::place(1, 2)); // Black
    game.make_move(&Move::pass()); // White
    game.make_move(&Move::pass()); // Black - game ends

    let (black_score, white_score) = game.score();
    // Black: 3 stones + territory at (0,4) and the rest of the empties;
    // no White stone touches any region. Scores are doubled halves:
    // 2 * (3 + 22) against 0.
    assert!(black_score > white_score);
    assert_eq!(black_score, 50);
    assert_eq!(white_score, 0);
    assert_eq!(game.outcome(), Some(GameOutcome::BlackWin));
}

#[test]
fn test_simple_capture() {
    let mut game = Game::new(5, 5);

    game.make_move(&Move::place(1, 0));
    game.make_move(&Move::place(0, 0));
    game.make_move(&Move::place(0, 1));

    assert!(game.board().get_piece(&Position::new(0, 0)).is_none());
}

#[test]
fn test_capture_group() {
    let mut game = Game::new(5, 5);

    game.make_move(&Move::place(0, 0));
    game.make_move(&Move::place(1, 0));

    game.make_move(&Move::place(0, 1));
    game.make_move(&Move::place(1, 1));

    game.make_move(&Move::pass());
    game.make_move(&Move::place(0, 2));

    game.make_move(&Move::pass());
    game.make_move(&Move::place(2, 0));

    game.make_move(&Move::pass());
    game.make_move(&Move::place(2, 1));

    assert!(game.board().get_piece(&Position::new(0, 0)).is_none());
    assert!(game.board().get_piece(&Position::new(0, 1)).is_none());
    assert!(game.board().get_piece(&Position::new(1, 0)).is_some());
    assert!(game.board().get_piece(&Position::new(1, 1)).is_some());
}

#[test]
fn test_suicide_prevention() {
    let mut game = Game::new(5, 5);

    game.make_move(&Move::place(1, 0));
    game.make_move(&Move::pass());
    game.make_move(&Move::place(0, 1));
    game.make_move(&Move::pass());

    let suicide_move = Move::place(0, 0);
    assert!(game.is_legal_move(&suicide_move));
    game.make_move(&suicide_move);
    assert!(game.board().get_piece(&Position::new(0, 0)).is_some());
}

#[test]
fn test_actual_suicide_prevention() {
    // Use min_moves=0 so we can end the game with passes to test suicide on game-over board
    let mut game = Game::with_options(5, 5, DEFAULT_KOMI, 0, 1000);

    game.make_move(&Move::place(1, 0));
    game.make_move(&Move::pass());
    game.make_move(&Move::place(0, 1));
    game.make_move(&Move::pass());
    game.make_move(&Move::pass());

    let suicide_move = Move::place(0, 0);
    // Game is over, so no moves are legal
    assert!(!game.is_legal_move(&suicide_move));
}

#[test]
fn test_ko_rule() {
    let mut game = Game::new(5, 5);

    // Build a ko shape:
    //     0 1 2 3
    // Row2 . B W .
    // Row1 B W . W
    // Row0 . B W .

    game.make_move(&Move::place(1, 0)); // B
    game.make_move(&Move::place(2, 0)); // W

    game.make_move(&Move::place(0, 1)); // B
    game.make_move(&Move::place(1, 1)); // W - this stone will be captured

    game.make_move(&Move::place(1, 2)); // B
    game.make_move(&Move::place(2, 2)); // W

    game.make_move(&Move::pass()); // B pass
    game.make_move(&Move::place(3, 1)); // W

    // Now Black captures W at (1,1) by playing at (2,1)
    let ko_capture = Move::place(2, 1);
    assert!(game.is_legal_move(&ko_capture));
    game.make_move(&ko_capture);

    // W at (1,1) should be captured
    assert!(game.board().get_piece(&Position::new(1, 1)).is_none());

    // Ko point should be set to (1,1)
    assert_eq!(game.ko_point(), Some(Position::new(1, 1)));

    // White cannot immediately recapture at (1,1)
    let immediate_recapture = Move::place(1, 1);
    assert!(!game.is_legal_move(&immediate_recapture));
}

#[test]
fn test_ko_expires_after_intervening_move() {
    // Same ko shape as test_ko_rule, then the bar must lift after any
    // other move intervenes.
    let mut game = Game::new(5, 5);
    game.make_move(&Move::place(1, 0)); // B
    game.make_move(&Move::place(2, 0)); // W
    game.make_move(&Move::place(0, 1)); // B
    game.make_move(&Move::place(1, 1)); // W
    game.make_move(&Move::place(1, 2)); // B
    game.make_move(&Move::place(2, 2)); // W
    game.make_move(&Move::pass()); // B
    game.make_move(&Move::place(3, 1)); // W
    game.make_move(&Move::place(2, 1)); // B captures, ko at (1,1)

    assert!(!game.is_legal_move(&Move::place(1, 1)));

    game.make_move(&Move::place(4, 4)); // W elsewhere
    assert_eq!(game.ko_point(), None);
    game.make_move(&Move::place(4, 3)); // B elsewhere

    // The recapture at (1,1) is legal again (it captures B at (2,1)).
    assert!(game.is_legal_move(&Move::place(1, 1)));
    assert!(game.make_move(&Move::place(1, 1)));
    assert!(game.board().get_piece(&Position::new(2, 1)).is_none());
}

#[test]
fn test_unmake_restores_captures() {
    let mut game = Game::new(5, 5);

    game.make_move(&Move::place(1, 0));
    game.make_move(&Move::place(0, 0));
    game.make_move(&Move::place(0, 1));

    assert!(game.board().get_piece(&Position::new(0, 0)).is_none());

    game.unmake_move();

    assert_eq!(game.board().get_piece(&Position::new(0, 0)), Some(Player::White));
}

#[test]
fn test_clone() {
    let mut game = Game::new(9, 9);
    let move_ = Move::place(0, 0);
    game.make_move(&move_);

    let cloned = game.clone();
    assert_eq!(cloned.turn(), game.turn());
    assert_eq!(cloned.is_over(), game.is_over());
    assert_eq!(cloned.move_history().len(), game.move_history().len());
}

#[test]
fn test_move_history() {
    let mut game = Game::new(9, 9);

    assert_eq!(game.move_history().len(), 0);

    let move1 = Move::place(0, 0);
    game.make_move(&move1);
    assert_eq!(game.move_history().len(), 1);

    let move2 = Move::place(1, 0);
    game.make_move(&move2);
    assert_eq!(game.move_history().len(), 2);

    game.unmake_move();
    assert_eq!(game.move_history().len(), 1);
}

#[test]
fn test_unmake_when_empty() {
    let mut game = Game::new(9, 9);
    assert!(!game.unmake_move());
}

#[test]
fn test_legal_moves_when_game_over() {
    // Use min_moves=0 so double-pass ends game immediately
    let mut game = Game::with_options(9, 9, DEFAULT_KOMI, 0, 1000);

    game.make_move(&Move::pass());
    game.make_move(&Move::pass());

    assert!(game.is_over());
    assert_eq!(game.legal_moves().len(), 0);
}

#[test]
fn test_true_suicide_is_rejected() {
    // Black walls (1,0) and (0,1); White at (0,0) would have no liberty
    // and captures nothing: rejected.
    let mut game = Game::new(5, 5);
    game.make_move(&Move::place(1, 0)); // B
    game.make_move(&Move::place(4, 4)); // W elsewhere
    game.make_move(&Move::place(0, 1)); // B

    // White to move: (0,0) is suicide
    assert_eq!(game.turn(), Player::White);
    assert!(!game.is_legal_move(&Move::place(0, 0)));
    assert!(!game.make_move(&Move::place(0, 0)));
    assert!(game.board().get_piece(&Position::new(0, 0)).is_none());
}

#[test]
fn test_lone_stone_capture_and_undo() {
    // A lone White stone loses its last liberty to a Black placement:
    // it leaves the board with the move and returns with the undo.
    let mut game = Game::new(5, 5);
    game.make_move(&Move::place(1, 2)); // B
    game.make_move(&Move::place(2, 2)); // W - the lone stone
    game.make_move(&Move::place(3, 2)); // B
    game.make_move(&Move::place(0, 0)); // W elsewhere
    game.make_move(&Move::place(2, 1)); // B
    game.make_move(&Move::place(4, 4)); // W elsewhere
    assert!(game.board().get_piece(&Position::new(2, 2)).is_some());

    game.make_move(&Move::place(2, 3)); // B takes the last liberty
    assert!(game.board().get_piece(&Position::new(2, 2)).is_none());

    assert!(game.unmake_move());
    assert_eq!(game.board().get_piece(&Position::new(2, 2)), Some(Player::White));
}

#[test]
fn test_identically_built_games_agree() {
    // Two games built the same way and fed the same moves agree in
    // every observable field.
    let moves = [
        Move::place(2, 2),
        Move::place(3, 3),
        Move::pass(),
        Move::place(1, 1),
        Move::place(10, 10), // illegal: ignored by both
        Move::place(0, 4),
    ];
    let mut g1 = Game::with_options(5, 5, 13, 2, 60);
    let mut g2 = Game::with_options(5, 5, 13, 2, 60);
    for m in moves.iter() {
        let r1 = g1.make_move(m);
        let r2 = g2.make_move(m);
        assert_eq!(r1, r2);
    }
    assert_eq!(g1.turn(), g2.turn());
    assert_eq!(g1.is_over(), g2.is_over());
    assert_eq!(g1.outcome(), g2.outcome());
    assert_eq!(g1.ko_point(), g2.ko_point());
    assert_eq!(g1.move_count(), g2.move_count());
    assert_eq!(g1.move_history(), g2.move_history());
    assert_eq!(g1.score(), g2.score());
    for row in 0..5u8 {
        for col in 0..5u8 {
            let pos = Position::new(col, row);
            assert_eq!(g1.get_piece(&pos), g2.get_piece(&pos));
        }
    }
}

#[test]
fn test_make_unmake_round_trip_bit_exact() {
    // make_move then unmake_move restores board, turn, ko and history.
    let mut game = Game::new(5, 5);
    game.make_move(&Move::place(1, 0)); // B
    game.make_move(&Move::place(0, 0)); // W
    let turn_before = game.turn();
    let ko_before = game.ko_point();
    let history_before = game.move_history();
    let mut pieces_before = Vec::new();
    for row in 0..5u8 {
        for col in 0..5u8 {
            pieces_before.push(game.get_piece(&Position::new(col, row)));
        }
    }

    // This capture removes the White stone at (0,0)...
    assert!(game.make_move(&Move::place(0, 1)));
    assert!(game.unmake_move());

    // ... and the undo restores everything named above.
    assert_eq!(game.turn(), turn_before);
    assert_eq!(game.ko_point(), ko_before);
    assert_eq!(game.move_history(), history_before);
    let mut pieces_after = Vec::new();
    for row in 0..5u8 {
        for col in 0..5u8 {
            pieces_after.push(game.get_piece(&Position::new(col, row)));
        }
    }
    assert_eq!(pieces_after, pieces_before);
}

#[test]
fn test_game_options_and_defaults() {
    let game = Game::new(9, 9);
    assert_eq!(game.komi(), DEFAULT_KOMI);
    assert_eq!(game.komi(), 15); // seven and a half, in half-points
    assert_eq!(game.min_moves_before_pass_ends(), 40); // 81 / 2
    assert_eq!(game.max_moves(), 243); // 81 * 3
    assert_eq!(game.width(), 9);
    assert_eq!(game.height(), 9);
    assert_eq!(game.move_count(), 0);

    let custom = Game::with_options(13, 7, -3, 5, 99);
    assert_eq!(custom.komi(), -3);
    assert_eq!(custom.min_moves_before_pass_ends(), 5);
    assert_eq!(custom.max_moves(), 99);
    assert_eq!(custom.width(), 13);
    assert_eq!(custom.height(), 7);

    let default_game = Game::default();
    assert_eq!(default_game.width(), 19);
    assert_eq!(default_game.height(), 19);
}

#[test]
fn test_set_piece_direct_edit() {
    let mut game = Game::new(5, 5);
    game.set_piece(&Position::new(2, 2), Some(Player::White));
    assert_eq!(game.get_piece(&Position::new(2, 2)), Some(-1));
    game.set_piece(&Position::new(2, 2), Some(Player::Black));
    assert_eq!(game.get_piece(&Position::new(2, 2)), Some(1));
    game.set_piece(&Position::new(2, 2), None);
    assert_eq!(game.get_piece(&Position::new(2, 2)), None);
}

#[test]
fn test_draw_outcome() {
    // 2x2 board, komi 0: both pass immediately, nobody holds anything.
    let mut game = Game::with_options(2, 2, 0, 0, 100);
    game.make_move(&Move::pass());
    game.make_move(&Move::pass());
    assert!(game.is_over());
    assert_eq!(game.outcome(), Some(GameOutcome::Draw));
    assert_eq!(game.score(), (0, 0));
}

#[test]
fn test_deterministic_playout_with_undo() {
    // Drive the engine through a long alternating playout, always taking
    // the first legal placement, undoing and replaying every few moves.
    let mut game = Game::with_options(5, 5, DEFAULT_KOMI, 10, 40);
    let mut played = 0usize;
    while !game.is_over() && played < 40 {
        let moves = game.legal_moves();
        assert!(!moves.is_empty());
        let chosen = moves[0];
        assert!(game.is_legal_move(&chosen));
        assert!(game.make_move(&chosen));
        played += 1;

        if played % 5 == 0 {
            // Undo and replay: the board must accept the same move again.
            let count_before = game.move_count();
            assert!(game.unmake_move());
            assert_eq!(game.move_count(), count_before - 1);
            assert!(game.make_move(&chosen));
            assert_eq!(game.move_count(), count_before);
        }

        // The two colors never share a cell.
        for row in 0..5u8 {
            for col in 0..5u8 {
                let piece = game.get_piece(&Position::new(col, row));
                assert!(piece == None || piece == Some(1) || piece == Some(-1));
            }
        }
    }
    assert!(game.move_count() <= game.max_moves());
}
