//! The move codec for external consumers: an action index in
//! `0..=width*height`, where `width*height` denotes Pass and every other
//! value decodes to `row = action / width`, `col = action % width`.

use vstd::prelude::*;

use crate::geometry::lemma_cell_bounds;
use crate::moves::Move;

verus! {

/// Encode a move as an action index.
pub fn encode_move(move_: &Move, board_width: u8, board_height: u8) -> (r: usize)
    ensures
        (match *move_ {
            Move::Place { col, row } => r == row * board_width + col,
            Move::Pass => r == board_width * board_height,
        }),
{
    proof {
        assert(move_.spec_position() matches Some(p) ==> p.row as int * board_width as int <= 255
            * 255) by (nonlinear_arith)
            requires
                board_width <= 255,
        ;
        assert(board_width as int * board_height as int <= 255 * 255) by (nonlinear_arith)
            requires
                board_width <= 255,
                board_height <= 255,
        ;
    }
    match move_ {
        Move::Place { col, row } => *row as usize * board_width as usize + *col as usize,
        Move::Pass => board_width as usize * board_height as usize,
    }
}

/// Decode an action index: the board-size index is Pass, larger values
/// are invalid, all others give the cell at `(action % width,
/// action / width)`.
pub fn decode_move(action: usize, board_width: u8, board_height: u8) -> (r: Option<Move>)
    ensures
        action == board_width * board_height ==> r == Some(Move::Pass),
        action > board_width * board_height ==> r is None,
        action < board_width * board_height ==> (r matches Some(m) && m == (Move::Place {
            col: (action as int % board_width as int) as u8,
            row: (action as int / board_width as int) as u8,
        })),
{
    proof {
        assert(board_width as int * board_height as int <= 255 * 255) by (nonlinear_arith)
            requires
                board_width <= 255,
                board_height <= 255,
        ;
    }
    let w = board_width as usize;
    let board_size = w * board_height as usize;

    if action == board_size {
        return Some(Move::pass());
    }

    if action > board_size {
        return None;
    }

    proof {
        lemma_cell_bounds(action as int, board_width as int, board_height as int);
    }
    let col = (action % w) as u8;
    let row = (action / w) as u8;

    Some(Move::place(col, row))
}

/// The number of distinct actions: one per cell, plus Pass.
pub fn total_actions(board_width: u8, board_height: u8) -> (r: usize)
    ensures
        r == board_width * board_height + 1,
{
    proof {
        assert(board_width as int * board_height as int <= 255 * 255) by (nonlinear_arith)
            requires
                board_width <= 255,
                board_height <= 255,
        ;
    }
    board_width as usize * board_height as usize + 1
}

} // verus!
