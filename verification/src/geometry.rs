//! Board geometry: per-dimension masks, orthogonal adjacency, and flood
//! fill, all over the flat row-major cell addressing `index = row * width
//! + col`.

use vstd::prelude::*;

use crate::bitboard::{popcount, Bitboard};
use crate::bitboard::{lemma_popcount_le_len, lemma_popcount_strict};

verus! {

broadcast use crate::bitboard::lemma_bitboard_len;

// ---------------------------------------------------------------------------
// Spec-level geometry: cells, adjacency, connectivity.
// ---------------------------------------------------------------------------

/// Column of cell `i` on a board `w` cells wide.
pub open spec fn col_of(i: int, w: int) -> int {
    i % w
}

/// Row of cell `i` on a board `w` cells wide.
pub open spec fn row_of(i: int, w: int) -> int {
    i / w
}

/// Two cells of a `w x h` board are orthogonally adjacent.
pub open spec fn adjacent(w: int, h: int, a: int, b: int) -> bool {
    0 <= a < w * h && 0 <= b < w * h && ((row_of(a, w) == row_of(b, w) && (a == b + 1 || b == a
        + 1)) || (col_of(a, w) == col_of(b, w) && (a == b + w || b == a + w)))
}

/// A nonempty walk through set cells of `mask`, each step orthogonal.
pub open spec fn is_path(w: int, h: int, mask: Seq<bool>, p: Seq<int>) -> bool {
    p.len() > 0 && (forall|k: int| 0 <= k < p.len() ==> 0 <= #[trigger] p[k] < 1024 && mask[p[k]])
        && (forall|k: int| 0 <= k < p.len() - 1 ==> adjacent(w, h, #[trigger] p[k], p[k + 1]))
}

/// Cell `b` is joined to some cell of `seed` by a walk inside `mask`.
pub open spec fn reaches(w: int, h: int, mask: Seq<bool>, seed: Seq<bool>, b: int) -> bool {
    exists|p: Seq<int>| is_path(w, h, mask, p) && seed[p[0]] && p.last() == b
}

/// The set holding exactly cell `idx`.
pub open spec fn single_seq(idx: int) -> Seq<bool> {
    Seq::new(1024, |i: int| i == idx)
}

/// Pointwise intersection of two cell sets.
pub open spec fn seq_and(a: Seq<bool>, b: Seq<bool>) -> Seq<bool> {
    Seq::new(1024, |i: int| a[i] && b[i])
}

/// Pointwise difference of two cell sets.
pub open spec fn seq_andnot(a: Seq<bool>, b: Seq<bool>) -> Seq<bool> {
    Seq::new(1024, |i: int| a[i] && !b[i])
}

/// Pointwise union of two cell sets.
pub open spec fn seq_or(a: Seq<bool>, b: Seq<bool>) -> Seq<bool> {
    Seq::new(1024, |i: int| a[i] || b[i])
}

/// The empty cell set.
pub open spec fn all_false() -> Seq<bool> {
    Seq::new(1024, |i: int| false)
}

/// Cells `a` and `b` lie in one connected component of `mask`.
pub open spec fn connected(w: int, h: int, mask: Seq<bool>, a: int, b: int) -> bool {
    reaches(w, h, mask, single_seq(a), b)
}

/// A set cell of `seed` that lies in `mask` reaches itself.
pub proof fn lemma_reaches_refl(w: int, h: int, mask: Seq<bool>, seed: Seq<bool>, b: int)
    requires
        0 <= b < 1024,
        mask[b],
        seed[b],
    ensures
        reaches(w, h, mask, seed, b),
{
    let p = seq![b];
    assert(is_path(w, h, mask, p) && seed[p[0]] && p.last() == b);
}

/// Reachability extends across one adjacency step inside the mask.
pub proof fn lemma_reaches_step(
    w: int,
    h: int,
    mask: Seq<bool>,
    seed: Seq<bool>,
    a: int,
    b: int,
)
    requires
        reaches(w, h, mask, seed, a),
        adjacent(w, h, a, b),
        0 <= b < 1024,
        mask[b],
    ensures
        reaches(w, h, mask, seed, b),
{
    let p = choose|p: Seq<int>| is_path(w, h, mask, p) && seed[p[0]] && p.last() == a;
    let q = p.push(b);
    assert(q.last() == b);
    assert(q[0] == p[0]);
    assert forall|k: int| 0 <= k < q.len() - 1 implies adjacent(w, h, #[trigger] q[k], q[k + 1]) by {
        if k < p.len() - 1 {
            assert(q[k] == p[k] && q[k + 1] == p[k + 1]);
        } else {
            assert(q[k] == p.last() && q[k + 1] == b);
        }
    }
    assert(is_path(w, h, mask, q) && seed[q[0]] && q.last() == b);
}

/// Every set closed under adjacency inside `mask` and holding `seed`
/// holds everything reachable; shown by walking the path.
proof fn lemma_path_in_closed(
    w: int,
    h: int,
    mask: Seq<bool>,
    seed: Seq<bool>,
    s: Seq<bool>,
    p: Seq<int>,
)
    requires
        s.len() == 1024,
        mask.len() == 1024,
        forall|b: int| 0 <= b < 1024 && seed[b] && mask[b] ==> s[b],
        forall|a: int, b: int|
            0 <= a < 1024 && 0 <= b < 1024 && s[a] && adjacent(w, h, a, b) && mask[b] ==> s[b],
        is_path(w, h, mask, p),
        seed[p[0]],
    ensures
        s[p.last()],
    decreases p.len(),
{
    if p.len() == 1 {
        assert(p.last() == p[0]);
    } else {
        let q = p.drop_last();
        assert(q[0] == p[0]);
        assert(is_path(w, h, mask, q));
        lemma_path_in_closed(w, h, mask, seed, s, q);
        assert(adjacent(w, h, p[p.len() - 2], p[p.len() - 1]));
        assert(q.last() == p[p.len() - 2]);
    }
}

/// Reachability is the least fixed point: any adjacency-closed superset
/// of the seed contains the whole reachable set.
pub proof fn lemma_reaches_closed(
    w: int,
    h: int,
    mask: Seq<bool>,
    seed: Seq<bool>,
    s: Seq<bool>,
    x: int,
)
    requires
        s.len() == 1024,
        mask.len() == 1024,
        forall|b: int| 0 <= b < 1024 && seed[b] && mask[b] ==> s[b],
        forall|a: int, b: int|
            0 <= a < 1024 && 0 <= b < 1024 && s[a] && adjacent(w, h, a, b) && mask[b] ==> s[b],
        reaches(w, h, mask, seed, x),
    ensures
        0 <= x < 1024 && s[x] && mask[x],
{
    let p = choose|p: Seq<int>| is_path(w, h, mask, p) && seed[p[0]] && p.last() == x;
    lemma_path_in_closed(w, h, mask, seed, s, p);
    assert(p.last() == x && 0 <= x < 1024 && mask[x]);
}

/// Whatever is reachable lies inside the mask.
pub proof fn lemma_reaches_in_mask(w: int, h: int, mask: Seq<bool>, seed: Seq<bool>, x: int)
    requires
        reaches(w, h, mask, seed, x),
    ensures
        0 <= x < 1024 && mask[x],
{
    let p = choose|p: Seq<int>| is_path(w, h, mask, p) && seed[p[0]] && p.last() == x;
    assert(p.last() == p[p.len() - 1]);
}

/// Connectivity within a mask is symmetric: reverse the walk.
pub proof fn lemma_connected_sym(w: int, h: int, mask: Seq<bool>, a: int, b: int)
    requires
        connected(w, h, mask, a, b),
    ensures
        connected(w, h, mask, b, a),
{
    let p = choose|p: Seq<int>| is_path(w, h, mask, p) && single_seq(a)[p[0]] && p.last() == b;
    let n = p.len() as int;
    let q = Seq::new(p.len(), |k: int| p[n - 1 - k]);
    assert(q[0] == p.last());
    assert(q.last() == p[0]);
    assert(p[0] == a);
    assert forall|k: int| 0 <= k < q.len() - 1 implies adjacent(w, h, #[trigger] q[k], q[k + 1]) by {
        assert(adjacent(w, h, p[n - 2 - k], p[n - 1 - k]));
    }
    assert(is_path(w, h, mask, q) && single_seq(b)[q[0]] && q.last() == a);
}

/// Connectivity within a mask is transitive: join the walks.
pub proof fn lemma_connected_trans(w: int, h: int, mask: Seq<bool>, a: int, b: int, c: int)
    requires
        connected(w, h, mask, a, b),
        connected(w, h, mask, b, c),
    ensures
        connected(w, h, mask, a, c),
{
    let p1 = choose|p: Seq<int>| is_path(w, h, mask, p) && single_seq(a)[p[0]] && p.last() == b;
    let p2 = choose|p: Seq<int>| is_path(w, h, mask, p) && single_seq(b)[p[0]] && p.last() == c;
    if p2.len() == 1 {
        assert(p2.last() == p2[0]);
        assert(is_path(w, h, mask, p1) && single_seq(a)[p1[0]] && p1.last() == c);
    } else {
        let q = p1 + p2.subrange(1, p2.len() as int);
        let n1 = p1.len() as int;
        assert(q[0] == p1[0]);
        assert(q.last() == p2.last());
        assert forall|k: int| 0 <= k < q.len() implies 0 <= #[trigger] q[k] < 1024 && mask[q[k]] by {
            if k >= n1 {
                assert(q[k] == p2[k - n1 + 1]);
            }
        }
        assert forall|k: int| 0 <= k < q.len() - 1 implies adjacent(
            w,
            h,
            #[trigger] q[k],
            q[k + 1],
        ) by {
            if k < n1 - 1 {
                assert(q[k] == p1[k] && q[k + 1] == p1[k + 1]);
            } else if k == n1 - 1 {
                assert(q[k] == p1.last() && q[k + 1] == p2[1]);
                assert(adjacent(w, h, p2[0], p2[1]));
            } else {
                assert(q[k] == p2[k - n1 + 1] && q[k + 1] == p2[k - n1 + 2]);
                assert(adjacent(w, h, p2[k - n1 + 1], p2[k - n1 + 2]));
            }
        }
        assert(is_path(w, h, mask, q) && single_seq(a)[q[0]] && q.last() == c);
    }
}

// ---------------------------------------------------------------------------
// Decomposition of a cell index into row and column.
// ---------------------------------------------------------------------------

/// A cell index is its row times the width plus its column.
pub proof fn lemma_cell(g: int, w: int)
    requires
        w > 0,
    ensures
        g == w * (g / w) + g % w,
        0 <= g % w < w,
{
    vstd::arithmetic::div_mod::lemma_fundamental_div_mod(g, w);
}

/// `r * w + c` decomposes back into row `r` and column `c`.
pub proof fn lemma_cell_compose(r: int, c: int, w: int)
    requires
        w > 0,
        0 <= c < w,
    ensures
        (r * w + c) / w == r,
        (r * w + c) % w == c,
{
    vstd::arithmetic::div_mod::lemma_fundamental_div_mod_converse(r * w + c, w, r, c);
}

/// Row and column of an on-board cell are in range.
pub proof fn lemma_cell_bounds(k: int, w: int, h: int)
    requires
        0 <= k,
        k < w * h,
        0 < w,
        0 < h,
    ensures
        0 <= k / w < h,
        0 <= k % w < w,
        k == w * (k / w) + k % w,
{
    lemma_cell(k, w);
    if k / w < 0 {
        assert(w * (k / w) <= w * (-1)) by (nonlinear_arith)
            requires
                0 < w,
                k / w <= -1,
        ;
    }
    if k / w >= h {
        assert(w * (k / w) >= w * h) by (nonlinear_arith)
            requires
                0 < w,
                k / w >= h,
        ;
    }
}

// ---------------------------------------------------------------------------
// The neighbor formula of the shifted-mask implementation.
// ---------------------------------------------------------------------------

/// Cell `k` is an orthogonal neighbor of some set cell of `s`, written
/// out over the flat addressing: left and right neighbors exist only off
/// the column edges, vertical neighbors are one full row away.
#[verifier::opaque]
pub open spec fn nbr(w: int, h: int, s: Seq<bool>, k: int) -> bool {
    0 <= k < w * h && ((k % w != 0 && s[k - 1]) || (k % w != w - 1 && k + 1 < 1024 && s[k + 1]) || (
    k - w >= 0 && s[k - w]) || (k + w < 1024 && s[k + w]))
}

/// The flat neighbor formula coincides with orthogonal adjacency, for
/// cell sets confined to the board.
pub proof fn lemma_nbr_adjacent(w: int, h: int, s: Seq<bool>, k: int)
    requires
        2 <= w <= 32,
        2 <= h <= 32,
        s.len() == 1024,
        forall|i: int| 0 <= i < 1024 && s[i] ==> i < w * h,
        0 <= k < 1024,
    ensures
        nbr(w, h, s, k) == (exists|j: int| 0 <= j < 1024 && s[j] && adjacent(w, h, j, k)),
{
    reveal(nbr);
    assert(w * h <= 1024) by (nonlinear_arith)
        requires
            2 <= w <= 32,
            2 <= h <= 32,
    ;
    if nbr(w, h, s, k) {
        lemma_cell_bounds(k, w, h);
        let r = k / w;
        let c = k % w;
        assert(k == w * r + c);
        if c != 0 && s[k - 1] {
            lemma_cell_compose(r, c - 1, w);
            assert(k - 1 == r * w + (c - 1));
            assert(row_of(k - 1, w) == r);
            assert(adjacent(w, h, k - 1, k));
            assert(0 <= k - 1 < 1024 && s[k - 1] && adjacent(w, h, k - 1, k));
        } else if c != w - 1 && k + 1 < 1024 && s[k + 1] {
            lemma_cell_compose(r, c + 1, w);
            assert(k + 1 == r * w + (c + 1));
            assert(row_of(k + 1, w) == r);
            assert(adjacent(w, h, k + 1, k));
            assert(0 <= k + 1 < 1024 && s[k + 1] && adjacent(w, h, k + 1, k));
        } else if k - w >= 0 && s[k - w] {
            lemma_cell_compose(r - 1, c, w);
            assert(k - w == (r - 1) * w + c) by (nonlinear_arith)
                requires
                    k == w * r + c,
            ;
            assert(row_of(k - w, w) == r - 1 && col_of(k - w, w) == c);
            assert(adjacent(w, h, k - w, k));
            assert(0 <= k - w < 1024 && s[k - w] && adjacent(w, h, k - w, k));
        } else {
            assert(k + w < 1024 && s[k + w]);
            lemma_cell_compose(r + 1, c, w);
            assert(k + w == (r + 1) * w + c) by (nonlinear_arith)
                requires
                    k == w * r + c,
            ;
            assert(row_of(k + w, w) == r + 1 && col_of(k + w, w) == c);
            assert(adjacent(w, h, k + w, k));
            assert(0 <= k + w < 1024 && s[k + w] && adjacent(w, h, k + w, k));
        }
    }
    if exists|j: int| 0 <= j < 1024 && s[j] && adjacent(w, h, j, k) {
        let j = choose|j: int| 0 <= j < 1024 && s[j] && adjacent(w, h, j, k);
        lemma_cell_bounds(k, w, h);
        lemma_cell_bounds(j, w, h);
        let r = k / w;
        let c = k % w;
        if row_of(j, w) == row_of(k, w) && j == k - 1 {
            assert(c != 0) by {
                if c == 0 {
                    lemma_cell_compose(r - 1, w - 1, w);
                    assert(j == (r - 1) * w + (w - 1));
                    assert(row_of(j, w) == r - 1);
                }
            }
            assert(nbr(w, h, s, k));
        } else if row_of(j, w) == row_of(k, w) && j == k + 1 {
            assert(c != w - 1) by {
                if c == w - 1 {
                    lemma_cell_compose(r + 1, 0, w);
                    assert(j == (r + 1) * w + 0);
                    assert(row_of(j, w) == r + 1);
                }
            }
            assert(nbr(w, h, s, k));
        } else if j == k - w {
            assert(nbr(w, h, s, k));
        } else {
            assert(j == k + w);
            assert(nbr(w, h, s, k));
        }
    }
}

// ---------------------------------------------------------------------------
// Precomputed masks for a given board geometry. Created once per Game.
// ---------------------------------------------------------------------------

#[derive(Clone, Copy, Debug)]
pub struct BoardGeometry {
    pub width: u8,
    pub height: u8,
    /// Number of valid cells: `width * height`.
    pub area: usize,
    /// Number of active u64 words: `ceil(area / 64)`.
    pub nw: usize,
    /// Mask with 1s at all valid board positions (indices `0..area`).
    pub board_mask: Bitboard,
    /// `board_mask` minus column 0 (suppresses left-edge wraparound).
    pub not_col0: Bitboard,
    /// `board_mask` minus the last column (suppresses right-edge wraparound).
    pub not_col_last: Bitboard,
}

impl BoardGeometry {
    /// The masks agree with the dimensions.
    pub open spec fn wf(&self) -> bool {
        &&& 2 <= self.width <= 32
        &&& 2 <= self.height <= 32
        &&& self.area == self.width * self.height
        &&& self.nw == (self.area + 63) / 64
        &&& forall|i: int| 0 <= i < 1024 ==> self.board_mask@[i] == (i < self.area)
        &&& forall|i: int|
            0 <= i < 1024 ==> self.not_col0@[i] == (i < self.area && i % (self.width as int) != 0)
        &&& forall|i: int|
            0 <= i < 1024 ==> self.not_col_last@[i] == (i < self.area && i % (self.width as int)
                != self.width - 1)
    }

    /// Derived size facts of a well-formed geometry.
    pub proof fn lemma_bounds(&self)
        requires
            self.wf(),
        ensures
            4 <= self.area <= 1024,
            1 <= self.nw <= 16,
            self.area <= self.nw * 64,
            self.nw * 64 <= self.area + 63,
    {
        assert(4 <= self.width * self.height <= 1024) by (nonlinear_arith)
            requires
                2 <= self.width <= 32,
                2 <= self.height <= 32,
        ;
        let a = self.area as int;
        vstd::arithmetic::div_mod::lemma_fundamental_div_mod(a + 63, 64);
    }

    /// Build geometry for a `width x height` board.
    pub fn new(width: u8, height: u8) -> (r: Self)
        requires
            2 <= width <= 32,
            2 <= height <= 32,
        ensures
            r.wf(),
            r.width == width,
            r.height == height,
    {
        assert(4 <= (width as usize) * (height as usize) <= 1024) by (nonlinear_arith)
            requires
                2 <= width <= 32,
                2 <= height <= 32,
        ;
        let area = (width as usize) * (height as usize);
        let nw = (area + 63) / 64;

        let mut board_mask = Bitboard::empty();
        let mut i: usize = 0;
        while i < area
            invariant
                0 <= i <= area <= 1024,
                forall|g: int| 0 <= g < 1024 ==> board_mask@[g] == (g < i),
            decreases area - i,
        {
            board_mask.set(i);
            i = i + 1;
        }

        let w = width as usize;
        let mut not_col0 = board_mask;
        proof {
            assert forall|g: int|
                0 <= g < 1024 implies not_col0@[g] == (g < area && !(g % (w as int) == 0 && g / (
            w as int) < 0)) by {
                if 0 <= g < area {
                    lemma_cell_bounds(g, w as int, height as int);
                }
            }
        }
        let mut row: usize = 0;
        while row < height as usize
            invariant
                0 <= row <= height,
                2 <= width <= 32,
                2 <= height <= 32,
                area == width * height,
                area <= 1024,
                w == width,
                forall|g: int|
                    0 <= g < 1024 ==> not_col0@[g] == (g < area && !(g % (w as int) == 0 && g / (
                    w as int) < row)),
            decreases height - row,
        {
            assert(row * w + w <= area) by (nonlinear_arith)
                requires
                    row + 1 <= height,
                    area == width * height,
                    w == width,
                    0 < w,
            ;
            let ghost prev = not_col0@;
            not_col0.clear(row * w);
            proof {
                lemma_cell_compose(row as int, 0, w as int);
                assert forall|g: int|
                    0 <= g < 1024 implies not_col0@[g] == (g < area && !(g % (w as int) == 0 && g
                    / (w as int) < row + 1)) by {
                    if 0 <= g < area {
                        lemma_cell_bounds(g, w as int, height as int);
                        if g != row * w {
                            assert(not_col0@[g] == prev[g]);
                            if g % (w as int) == 0 && g / (w as int) == row {
                                assert(g == (w as int) * (g / (w as int)) + g % (w as int));
                                assert(g == (row as int) * (w as int)) by (nonlinear_arith)
                                    requires
                                        g == (w as int) * (row as int),
                                ;
                                assert(false);
                            }
                        }
                    }
                }
            }
            row = row + 1;
        }

        let mut not_col_last = board_mask;
        proof {
            assert forall|g: int|
                0 <= g < 1024 implies not_col_last@[g] == (g < area && !(g % (w as int) == w - 1
                && g / (w as int) < 0)) by {
                if 0 <= g < area {
                    lemma_cell_bounds(g, w as int, height as int);
                }
            }
        }
        let mut row2: usize = 0;
        while row2 < height as usize
            invariant
                0 <= row2 <= height,
                2 <= width <= 32,
                2 <= height <= 32,
                area == width * height,
                area <= 1024,
                w == width,
                forall|g: int|
                    0 <= g < 1024 ==> not_col_last@[g] == (g < area && !(g % (w as int) == w - 1
                        && g / (w as int) < row2)),
            decreases height - row2,
        {
            assert(row2 * w + w <= area) by (nonlinear_arith)
                requires
                    row2 + 1 <= height,
                    area == width * height,
                    w == width,
                    0 < w,
            ;
            let ghost prev = not_col_last@;
            not_col_last.clear(row2 * w + (w - 1));
            proof {
                lemma_cell_compose(row2 as int, w - 1, w as int);
                assert forall|g: int|
                    0 <= g < 1024 implies not_col_last@[g] == (g < area && !(g % (w as int) == w
                    - 1 && g / (w as int) < row2 + 1)) by {
                    if 0 <= g < area {
                        lemma_cell_bounds(g, w as int, height as int);
                        if g != row2 * w + (w - 1) {
                            assert(not_col_last@[g] == prev[g]);
                            if g % (w as int) == w - 1 && g / (w as int) == row2 {
                                assert(g == (w as int) * (g / (w as int)) + g % (w as int));
                                assert(g == (row2 as int) * (w as int) + (w - 1))
                                    by (nonlinear_arith)
                                    requires
                                        g == (w as int) * (row2 as int) + (w - 1),
                                ;
                                assert(false);
                            }
                        }
                    }
                }
            }
            row2 = row2 + 1;
        }

        let r = BoardGeometry { width, height, area, nw, board_mask, not_col0, not_col_last };
        proof {
            assert forall|g: int| 0 <= g < 1024 implies r.not_col0@[g] == (g < area && g % (
            width as int) != 0) by {
                if 0 <= g < area {
                    lemma_cell_bounds(g, w as int, height as int);
                }
            }
            assert forall|g: int| 0 <= g < 1024 implies r.not_col_last@[g] == (g < area && g % (
            width as int) != width - 1) by {
                if 0 <= g < area {
                    lemma_cell_bounds(g, w as int, height as int);
                }
            }
        }
        r
    }

    /// The set of all orthogonal neighbors of every set bit of `bb`,
    /// masked to the valid board.
    pub fn neighbors(&self, bb: &Bitboard) -> (r: Bitboard)
        requires
            self.wf(),
            forall|i: int| 0 <= i < 1024 && bb@[i] ==> i < self.area,
        ensures
            forall|k: int|
                0 <= k < 1024 ==> r@[k] == nbr(self.width as int, self.height as int, bb@, k),
    {
        proof {
            self.lemma_bounds();
        }
        let nw = self.nw;
        let nw1 = if nw + 1 < 16 {
            nw + 1
        } else {
            16
        };

        // right: col+1 = shift left by 1, mask off column-0 wraps
        let right = bb.shift_left_w(1, nw1).and_w(self.not_col0, nw1);
        // left: col-1 = shift right by 1, mask off last-column wraps
        let left = bb.shift_right_w(1, nw).and_w(self.not_col_last, nw);
        // down: row+1 = shift left by width
        let down = bb.shift_left_w(self.width as usize, nw1);
        // up: row-1 = shift right by width
        let up = bb.shift_right_w(self.width as usize, nw);

        let r = right.or_w(left, nw1).or_w(down, nw1).or_w(up, nw1).and_w(self.board_mask, nw);
        proof {
            reveal(nbr);
            let w = self.width as int;
            let h = self.height as int;
            assert forall|k: int| 0 <= k < 1024 implies r@[k] == nbr(w, h, bb@, k) by {
                if k < self.area {
                    lemma_cell_bounds(k, w, h);
                }
            }
        }
        r
    }

    /// The maximal connected component of `seed` confined to `mask`,
    /// using orthogonal adjacency: repeatedly grow by neighbors until a
    /// fixpoint.
    #[verifier::rlimit(100)]
    pub fn flood_fill(&self, seed: Bitboard, mask: Bitboard) -> (r: Bitboard)
        requires
            self.wf(),
            forall|i: int| 0 <= i < 1024 && mask@[i] ==> i < self.area,
        ensures
            forall|b: int|
                0 <= b < 1024 ==> r@[b] == reaches(
                    self.width as int,
                    self.height as int,
                    mask@,
                    seq_and(seed@, mask@),
                    b,
                ),
    {
        proof {
            self.lemma_bounds();
        }
        let ghost w = self.width as int;
        let ghost h = self.height as int;
        let ghost start = seq_and(seed@, mask@);
        let nw = self.nw;
        let mut filled = seed.and_w(mask, nw);
        proof {
            assert forall|b: int| 0 <= b < 1024 && start[b] implies filled@[b] by {}
            assert forall|b: int| 0 <= b < 1024 && filled@[b] implies reaches(
                w,
                h,
                mask@,
                start,
                b,
            ) by {
                lemma_reaches_refl(w, h, mask@, start, b);
            }
        }
        loop
            invariant
                self.wf(),
                self.nw == nw,
                w == self.width,
                h == self.height,
                start == seq_and(seed@, mask@),
                forall|i: int| 0 <= i < 1024 && mask@[i] ==> i < self.area,
                forall|b: int| 0 <= b < 1024 && filled@[b] ==> mask@[b],
                forall|b: int| 0 <= b < 1024 && start[b] ==> filled@[b],
                forall|b: int| 0 <= b < 1024 && filled@[b] ==> reaches(w, h, mask@, start, b),
            decreases 1024 - popcount(filled@),
        {
            proof {
                lemma_popcount_le_len(filled@);
                self.lemma_bounds();
            }
            let nbrs = self.neighbors(&filled);
            let expanded = filled.or_w(nbrs, nw).and_w(mask, nw);
            proof {
                assert forall|b: int| 0 <= b < 1024 && filled@[b] implies expanded@[b] by {}
                lemma_flood_step(w, h, mask@, start, filled@, expanded@);
            }
            if expanded.eq_w(&filled, nw) {
                proof {
                    assert(expanded@ =~= filled@);
                    assert forall|b: int|
                        0 <= b < 1024 && nbr(w, h, filled@, b) && mask@[b] implies filled@[b] by {
                        assert(nbrs@[b]);
                        assert(expanded@[b]);
                    }
                    lemma_flood_done(w, h, mask@, start, filled@);
                }
                return filled;
            }
            proof {
                assert(exists|b: int| 0 <= b < nw * 64 && expanded@[b] != filled@[b]);
                let d = choose|b: int| 0 <= b < nw * 64 && expanded@[b] != filled@[b];
                assert(expanded@[d] && !filled@[d]);
                lemma_popcount_strict(filled@, expanded@, d);
                lemma_popcount_le_len(expanded@);
            }
            filled = expanded;
        }
    }
}

/// Everything added by one round of neighbor growth is still reachable.
proof fn lemma_flood_step(
    w: int,
    h: int,
    mask: Seq<bool>,
    start: Seq<bool>,
    filled: Seq<bool>,
    expanded: Seq<bool>,
)
    requires
        2 <= w <= 32,
        2 <= h <= 32,
        mask.len() == 1024,
        filled.len() == 1024,
        expanded.len() == 1024,
        forall|i: int| 0 <= i < 1024 && mask[i] ==> i < w * h,
        forall|b: int| 0 <= b < 1024 && filled[b] ==> mask[b],
        forall|b: int|
            0 <= b < 1024 && expanded[b] ==> (filled[b] || nbr(w, h, filled, b)) && mask[b],
        forall|b: int| 0 <= b < 1024 && filled[b] ==> reaches(w, h, mask, start, b),
    ensures
        forall|b: int| 0 <= b < 1024 && expanded[b] ==> reaches(w, h, mask, start, b),
{
    assert forall|b: int| 0 <= b < 1024 && expanded[b] implies reaches(w, h, mask, start, b) by {
        if !filled[b] {
            assert(nbr(w, h, filled, b));
            lemma_nbr_adjacent(w, h, filled, b);
            let j = choose|j: int| 0 <= j < 1024 && filled[j] && adjacent(w, h, j, b);
            lemma_reaches_step(w, h, mask, start, j, b);
        }
    }
}

/// At a fixpoint of neighbor growth, the filled set is exactly the
/// reachable set.
proof fn lemma_flood_done(w: int, h: int, mask: Seq<bool>, start: Seq<bool>, filled: Seq<bool>)
    requires
        2 <= w <= 32,
        2 <= h <= 32,
        mask.len() == 1024,
        filled.len() == 1024,
        start.len() == 1024,
        forall|i: int| 0 <= i < 1024 && mask[i] ==> i < w * h,
        forall|b: int| 0 <= b < 1024 && filled[b] ==> mask[b],
        forall|b: int| 0 <= b < 1024 && start[b] ==> filled[b],
        forall|b: int| 0 <= b < 1024 && filled[b] ==> reaches(w, h, mask, start, b),
        forall|b: int| 0 <= b < 1024 && nbr(w, h, filled, b) && mask[b] ==> filled[b],
    ensures
        forall|b: int| 0 <= b < 1024 ==> filled[b] == reaches(w, h, mask, start, b),
{
    assert forall|a: int, b: int|
        0 <= a < 1024 && 0 <= b < 1024 && filled[a] && adjacent(w, h, a, b) && mask[b]
        implies filled[b] by {
        lemma_nbr_adjacent(w, h, filled, b);
        assert(nbr(w, h, filled, b));
    }
    assert forall|b: int| 0 <= b < 1024 implies filled[b] == reaches(w, h, mask, start, b) by {
        if reaches(w, h, mask, start, b) {
            lemma_reaches_closed(w, h, mask, start, filled, b);
        }
    }
}

} // verus!
