//! The two stone colors.

use vstd::prelude::*;

verus! {

/// A player: Black moves first.
#[derive(Clone, Copy, Debug, PartialEq, Eq, Hash, Structural)]
pub enum Player {
    Black,
    White,
}

impl Player {
    /// The other color.
    pub open spec fn spec_opposite(self) -> Player {
        match self {
            Player::Black => Player::White,
            Player::White => Player::Black,
        }
    }

    /// The other color.
    pub fn opposite(&self) -> (r: Player)
        ensures
            r == self.spec_opposite(),
    {
        match self {
            Player::Black => Player::White,
            Player::White => Player::Black,
        }
    }

    /// One-letter display form.
    pub fn to_char(&self) -> (r: char)
        ensures
            r == (match self {
                Player::Black => 'B',
                Player::White => 'W',
            }),
    {
        match self {
            Player::Black => 'B',
            Player::White => 'W',
        }
    }

    /// Parse the one-letter form, either case.
    pub fn from_char(c: char) -> (r: Option<Player>)
        ensures
            r == (if c == 'B' || c == 'b' {
                Some(Player::Black)
            } else if c == 'W' || c == 'w' {
                Some(Player::White)
            } else {
                None::<Player>
            }),
    {
        match c {
            'B' | 'b' => Some(Player::Black),
            'W' | 'w' => Some(Player::White),
            _ => None,
        }
    }

    /// Parse the signed encoding: Black is +1, White is -1.
    pub fn from_int(i: i8) -> (r: Option<Player>)
        ensures
            r == (if i == 1 {
                Some(Player::Black)
            } else if i == -1 {
                Some(Player::White)
            } else {
                None::<Player>
            }),
    {
        match i {
            1 => Some(Player::Black),
            -1 => Some(Player::White),
            _ => None,
        }
    }

    /// The signed encoding: Black is +1, White is -1.
    pub fn to_int(&self) -> (r: i8)
        ensures
            r == (match self {
                Player::Black => 1i8,
                Player::White => -1i8,
            }),
    {
        match self {
            Player::Black => 1,
            Player::White => -1,
        }
    }
}

} // verus!
