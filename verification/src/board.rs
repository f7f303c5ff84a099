//! Stone storage: one bitboard per color, plus the board dimensions.
//! No legality logic lives here.

use vstd::prelude::*;

use crate::bitboard::Bitboard;
use crate::player::Player;
use crate::position::lemma_index_in_area;
use crate::position::Position;

verus! {

broadcast use crate::bitboard::lemma_bitboard_len;

pub const STANDARD_COLS: u8 = 19;

pub const STANDARD_ROWS: u8 = 19;

/// The mathematical content of a board: two cell sets and the dimensions.
pub struct BoardV {
    pub black: Seq<bool>,
    pub white: Seq<bool>,
    pub width: u8,
    pub height: u8,
}

impl BoardV {
    /// Number of valid cells.
    pub open spec fn area(self) -> int {
        self.width * self.height
    }

    /// Dimensions are in range, the colors are disjoint, and all stones
    /// lie on the board.
    pub open spec fn wf(self) -> bool {
        &&& 2 <= self.width <= 32
        &&& 2 <= self.height <= 32
        &&& self.black.len() == 1024
        &&& self.white.len() == 1024
        &&& forall|i: int| 0 <= i < 1024 && self.black[i] ==> i < self.area()
        &&& forall|i: int| 0 <= i < 1024 && self.white[i] ==> i < self.area()
        &&& forall|i: int| 0 <= i < 1024 ==> !(self.black[i] && self.white[i])
    }

    /// The stone at a coordinate, if the coordinate is on the board and
    /// occupied.
    pub open spec fn piece_at(self, pos: Position) -> Option<Player> {
        if pos.spec_valid(self.width as int, self.height as int) {
            let idx = pos.spec_index(self.width as int);
            if self.black[idx] {
                Some(Player::Black)
            } else if self.white[idx] {
                Some(Player::White)
            } else {
                None
            }
        } else {
            None
        }
    }

    /// The stone set of one color.
    pub open spec fn stones_of(self, player: Player) -> Seq<bool> {
        match player {
            Player::Black => self.black,
            Player::White => self.white,
        }
    }

    /// The board after the rule-unchecked edit `set_piece(pos, player)`:
    /// off-board coordinates change nothing; otherwise the cell is
    /// cleared in both colors and then set for `player`, if any.
    pub open spec fn with_piece(self, pos: Position, player: Option<Player>) -> BoardV {
        if pos.spec_valid(self.width as int, self.height as int) {
            let idx = pos.spec_index(self.width as int);
            BoardV {
                black: self.black.update(idx, player == Some(Player::Black)),
                white: self.white.update(idx, player == Some(Player::White)),
                ..self
            }
        } else {
            self
        }
    }
}

/// Every board views as two sequences of exactly the bit capacity.
pub broadcast proof fn lemma_boardv_len(b: Board)
    ensures
        (#[trigger] b@).black.len() == 1024,
        b@.white.len() == 1024,
{
}

/// Stone storage for one game, mutated only through the owning game's
/// rule-checked operations (plus the explicitly rule-unchecked
/// `set_piece` for test and setup use).
#[derive(Clone, Copy, Debug, PartialEq, Eq, Hash)]
pub struct Board {
    black: Bitboard,
    white: Bitboard,
    width: u8,
    height: u8,
}

impl View for Board {
    type V = BoardV;

    closed spec fn view(&self) -> BoardV {
        BoardV { black: self.black@, white: self.white@, width: self.width, height: self.height }
    }
}

impl Board {
    /// An empty board of the given dimensions.
    pub fn new(width: u8, height: u8) -> (r: Self)
        requires
            2 <= width <= 32,
            2 <= height <= 32,
        ensures
            r@.wf(),
            r@.width == width,
            r@.height == height,
            forall|i: int| 0 <= i < 1024 ==> !r@.black[i] && !r@.white[i],
    {
        Board { black: Bitboard::empty(), white: Bitboard::empty(), width, height }
    }

    pub fn width(&self) -> (r: u8)
        ensures
            r == self@.width,
    {
        self.width
    }

    pub fn height(&self) -> (r: u8)
        ensures
            r == self@.height,
    {
        self.height
    }

    /// The stone at `pos`, or `None` off the board or on an empty cell.
    pub fn get_piece(&self, pos: &Position) -> (r: Option<Player>)
        requires
            self@.wf(),
        ensures
            r == self@.piece_at(*pos),
    {
        if pos.is_valid(self.width, self.height) {
            proof {
                lemma_index_in_area(*pos, self.width as int, self.height as int);
                assert(self@.area() <= 1024) by (nonlinear_arith)
                    requires
                        self@.area() == self@.width * self@.height,
                        self@.width <= 32,
                        self@.height <= 32,
                ;
            }
            let idx = pos.to_index(self.width);
            if self.black.get(idx) {
                Some(Player::Black)
            } else if self.white.get(idx) {
                Some(Player::White)
            } else {
                None
            }
        } else {
            None
        }
    }

    /// Rule-unchecked direct edit: clear the cell, then set it for
    /// `player`, if any. Off-board coordinates change nothing.
    pub fn set_piece(&mut self, pos: &Position, player: Option<Player>)
        requires
            old(self)@.wf(),
        ensures
            final(self)@.wf(),
            final(self)@ == old(self)@.with_piece(*pos, player),
    {
        if pos.is_valid(self.width, self.height) {
            proof {
                lemma_index_in_area(*pos, self.width as int, self.height as int);
                assert(self@.area() <= 1024) by (nonlinear_arith)
                    requires
                        self@.area() == self@.width * self@.height,
                        self@.width <= 32,
                        self@.height <= 32,
                ;
            }
            let idx = pos.to_index(self.width);
            self.black.clear(idx);
            self.white.clear(idx);
            match player {
                Some(Player::Black) => self.black.set(idx),
                Some(Player::White) => self.white.set(idx),
                None => (),
            }
            proof {
                assert(final(self)@.black =~= old(self)@.with_piece(*pos, player).black);
                assert(final(self)@.white =~= old(self)@.with_piece(*pos, player).white);
            }
        }
    }

    /// Remove every stone.
    pub fn clear(&mut self)
        ensures
            final(self)@.width == old(self)@.width,
            final(self)@.height == old(self)@.height,
            final(self)@.black == crate::geometry::all_false(),
            final(self)@.white == crate::geometry::all_false(),
    {
        self.black = Bitboard::empty();
        self.white = Bitboard::empty();
        proof {
            assert(final(self)@.black =~= crate::geometry::all_false());
            assert(final(self)@.white =~= crate::geometry::all_false());
        }
    }

    /// Black's stone set.
    pub fn black_stones(&self) -> (r: Bitboard)
        ensures
            r@ == self@.black,
    {
        self.black
    }

    /// White's stone set.
    pub fn white_stones(&self) -> (r: Bitboard)
        ensures
            r@ == self@.white,
    {
        self.white
    }

    /// All occupied cells.
    pub fn occupied(&self) -> (r: Bitboard)
        ensures
            forall|i: int| 0 <= i < 1024 ==> r@[i] == (self@.black[i] || self@.white[i]),
    {
        self.black.or(self.white)
    }

    /// The empty cells of the valid board.
    pub fn empty_squares(&self, board_mask: Bitboard) -> (r: Bitboard)
        ensures
            forall|i: int|
                0 <= i < 1024 ==> r@[i] == (board_mask@[i] && !self@.black[i] && !self@.white[i]),
    {
        board_mask.andnot(self.black.or(self.white))
    }

    /// Remove all stones indicated by `bb` from both colors.
    pub fn remove_stones(&mut self, bb: Bitboard)
        ensures
            final(self)@.width == old(self)@.width,
            final(self)@.height == old(self)@.height,
            final(self)@.black == crate::geometry::seq_andnot(old(self)@.black, bb@),
            final(self)@.white == crate::geometry::seq_andnot(old(self)@.white, bb@),
    {
        self.black = self.black.andnot(bb);
        self.white = self.white.andnot(bb);
        proof {
            assert(final(self)@.black =~= crate::geometry::seq_andnot(old(self)@.black, bb@));
            assert(final(self)@.white =~= crate::geometry::seq_andnot(old(self)@.white, bb@));
        }
    }

    /// Restore stones from a captured set for the given player.
    pub fn restore_stones(&mut self, bb: Bitboard, player: Player)
        ensures
            final(self)@.width == old(self)@.width,
            final(self)@.height == old(self)@.height,
            final(self)@.stones_of(player) == crate::geometry::seq_or(
                old(self)@.stones_of(player),
                bb@,
            ),
            final(self)@.stones_of(player.spec_opposite()) == old(self)@.stones_of(
                player.spec_opposite(),
            ),
    {
        match player {
            Player::Black => {
                self.black = self.black.or(bb);
            },
            Player::White => {
                self.white = self.white.or(bb);
            },
        }
        proof {
            assert(final(self)@.stones_of(player) =~= crate::geometry::seq_or(
                old(self)@.stones_of(player),
                bb@,
            ));
        }
    }

    /// The stone set of one color.
    pub fn stones_for(&self, player: Player) -> (r: Bitboard)
        ensures
            r@ == self@.stones_of(player),
    {
        match player {
            Player::Black => self.black,
            Player::White => self.white,
        }
    }

    /// Set a single bit for a player; no clearing, so the caller must
    /// ensure the cell is empty.
    pub fn set_bit(&mut self, idx: usize, player: Player)
        requires
            idx < 1024,
        ensures
            final(self)@.width == old(self)@.width,
            final(self)@.height == old(self)@.height,
            final(self)@.stones_of(player) == old(self)@.stones_of(player).update(
                idx as int,
                true,
            ),
            final(self)@.stones_of(player.spec_opposite()) == old(self)@.stones_of(
                player.spec_opposite(),
            ),
    {
        match player {
            Player::Black => self.black.set(idx),
            Player::White => self.white.set(idx),
        }
    }

    /// Clear a single bit from both colors.
    pub fn clear_bit(&mut self, idx: usize)
        requires
            idx < 1024,
        ensures
            final(self)@.width == old(self)@.width,
            final(self)@.height == old(self)@.height,
            final(self)@.black == old(self)@.black.update(idx as int, false),
            final(self)@.white == old(self)@.white.update(idx as int, false),
    {
        self.black.clear(idx);
        self.white.clear(idx);
    }
}

impl Default for Board {
    /// The standard 19x19 board, empty.
    fn default() -> (r: Self)
        ensures
            r@.wf(),
            r@.width == 19,
            r@.height == 19,
            forall|i: int| 0 <= i < 1024 ==> !r@.black[i] && !r@.white[i],
    {
        Self::new(STANDARD_COLS, STANDARD_ROWS)
    }
}

} // verus!
