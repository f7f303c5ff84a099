//! Moves: a stone placement or a pass.

use vstd::prelude::*;

use crate::position::Position;

verus! {

/// A move: place a stone at a coordinate, or pass.
#[derive(Clone, Copy, Debug, PartialEq, Eq, Hash, Structural)]
pub enum Move {
    Place { col: u8, row: u8 },
    Pass,
}

impl Move {
    /// The coordinate of a placement; passes have none.
    pub open spec fn spec_position(self) -> Option<Position> {
        match self {
            Move::Place { col, row } => Some(Position { col, row }),
            Move::Pass => None,
        }
    }

    pub fn place(col: u8, row: u8) -> (r: Self)
        ensures
            r == (Move::Place { col, row }),
    {
        Move::Place { col, row }
    }

    pub fn pass() -> (r: Self)
        ensures
            r == Move::Pass,
    {
        Move::Pass
    }

    pub fn is_pass(&self) -> (r: bool)
        ensures
            r == (self is Pass),
    {
        match self {
            Move::Pass => true,
            _ => false,
        }
    }

    pub fn position(&self) -> (r: Option<Position>)
        ensures
            r == self.spec_position(),
    {
        match self {
            Move::Place { col, row } => Some(Position::new(*col, *row)),
            Move::Pass => None,
        }
    }

    pub fn col(&self) -> (r: Option<u8>)
        ensures
            r == (match *self {
                Move::Place { col, row } => Some(col),
                Move::Pass => None::<u8>,
            }),
    {
        match self {
            Move::Place { col, .. } => Some(*col),
            Move::Pass => None,
        }
    }

    pub fn row(&self) -> (r: Option<u8>)
        ensures
            r == (match *self {
                Move::Place { col, row } => Some(row),
                Move::Pass => None::<u8>,
            }),
    {
        match self {
            Move::Place { row, .. } => Some(*row),
            Move::Pass => None,
        }
    }
}

} // verus!
