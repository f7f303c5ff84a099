//! Board coordinates and their flat row-major index.

use vstd::prelude::*;

verus! {

/// A cell coordinate: valid on a `width x height` board iff
/// `col < width` and `row < height`.
#[derive(Clone, Copy, Debug, PartialEq, Eq, Hash, Structural)]
pub struct Position {
    pub col: u8,
    pub row: u8,
}

impl Position {
    /// The flat row-major index of this coordinate.
    pub open spec fn spec_index(self, width: int) -> int {
        self.row * width + self.col
    }

    /// Validity on a `width x height` board.
    pub open spec fn spec_valid(self, width: int, height: int) -> bool {
        self.col < width && self.row < height
    }

    pub fn new(col: u8, row: u8) -> (r: Self)
        ensures
            r.col == col,
            r.row == row,
    {
        Position { col, row }
    }

    /// The coordinate whose flat index is `index` on a board `width`
    /// cells wide. The row must fit in a byte.
    pub fn from_index(index: usize, width: u8) -> (r: Self)
        requires
            width >= 1,
            index < width * 256,
        ensures
            r.col == index as int % width as int,
            r.row == index as int / width as int,
    {
        let w = width as usize;
        proof {
            crate::geometry::lemma_cell_bounds(index as int, width as int, 256);
        }
        Position { col: (index % w) as u8, row: (index / w) as u8 }
    }

    /// The flat row-major index on a board `width` cells wide.
    pub fn to_index(&self, width: u8) -> (r: usize)
        ensures
            r == self.spec_index(width as int),
    {
        proof {
            assert(self.row as int * width as int <= 255 * 255) by (nonlinear_arith)
                requires
                    self.row <= 255,
                    width <= 255,
            ;
        }
        self.row as usize * width as usize + self.col as usize
    }

    /// Whether this coordinate lies on a `width x height` board.
    pub fn is_valid(&self, width: u8, height: u8) -> (r: bool)
        ensures
            r == self.spec_valid(width as int, height as int),
    {
        self.col < width && self.row < height
    }
}

/// A valid coordinate's flat index lies inside the board area.
pub proof fn lemma_index_in_area(pos: Position, width: int, height: int)
    requires
        0 < width,
        0 < height,
        pos.spec_valid(width, height),
    ensures
        0 <= pos.spec_index(width) < width * height,
        pos.spec_index(width) % width == pos.col,
        pos.spec_index(width) / width == pos.row,
{
    assert(pos.row * width + pos.col < width * height) by (nonlinear_arith)
        requires
            0 < width,
            pos.col < width,
            pos.row < height,
    ;
    crate::geometry::lemma_cell_compose(pos.row as int, pos.col as int, width);
}

/// Distinct valid coordinates have distinct flat indices.
pub proof fn lemma_index_injective(a: Position, b: Position, width: int, height: int)
    requires
        0 < width,
        0 < height,
        a.spec_valid(width, height),
        b.spec_valid(width, height),
        a.spec_index(width) == b.spec_index(width),
    ensures
        a == b,
{
    lemma_index_in_area(a, width, height);
    lemma_index_in_area(b, width, height);
}

} // verus!
