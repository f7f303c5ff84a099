//! The game state machine: move legality, capture resolution, suicide
//! and ko detection, reversible move application, and territory scoring.

use vstd::prelude::*;

use crate::bitboard::{
    lemma_popcount_le_len, lemma_popcount_member, lemma_popcount_take_step, lemma_popcount_unique,
    popcount, Bitboard,
};
use crate::board::{Board, BoardV, STANDARD_COLS, STANDARD_ROWS};
use crate::geometry::{
    adjacent, all_false, connected, lemma_cell_bounds, lemma_cell_compose, lemma_connected_sym,
    lemma_connected_trans, lemma_nbr_adjacent, lemma_reaches_in_mask, lemma_reaches_refl, nbr,
    reaches, seq_and, seq_andnot, single_seq, BoardGeometry,
};
use crate::moves::Move;
use crate::outcome::GameOutcome;
use crate::player::Player;
use crate::position::{lemma_index_in_area, Position};

verus! {

broadcast use crate::bitboard::lemma_bitboard_len, crate::board::lemma_boardv_len;

/// The default komi, in half-points: seven and a half.
pub const DEFAULT_KOMI: i32 = 15;

// ---------------------------------------------------------------------------
// The mathematical model of a game.
// ---------------------------------------------------------------------------

/// The content of one undo record.
#[verifier::ext_equal]
pub struct EntryV {
    pub mv: Move,
    pub captured: Seq<bool>,
    pub prev_ko: Option<Position>,
}

/// The full observable state of a game.
#[verifier::ext_equal]
pub struct GameV {
    pub width: u8,
    pub height: u8,
    pub black: Seq<bool>,
    pub white: Seq<bool>,
    pub turn: Player,
    pub history: Seq<EntryV>,
    pub is_over: bool,
    pub outcome: Option<GameOutcome>,
    pub passes: int,
    pub ko: Option<Position>,
    /// Komi in half-points, added to White's score.
    pub komi: int,
    pub min_moves: int,
    pub max_moves: int,
}

impl GameV {
    /// Number of valid cells.
    pub open spec fn area(self) -> int {
        self.width * self.height
    }

    /// The stone set of one color.
    pub open spec fn stones_of(self, p: Player) -> Seq<bool> {
        match p {
            Player::Black => self.black,
            Player::White => self.white,
        }
    }

    /// The empty cells of the valid board.
    pub open spec fn empty_cells(self) -> Seq<bool> {
        Seq::new(1024, |i: int| i < self.area() && !self.black[i] && !self.white[i])
    }

    /// The board fields alone.
    pub open spec fn board_v(self) -> BoardV {
        BoardV { black: self.black, white: self.white, width: self.width, height: self.height }
    }

    /// Dimensions in range, stones on the board and disjoint.
    pub open spec fn board_wf(self) -> bool {
        &&& 2 <= self.width <= 32
        &&& 2 <= self.height <= 32
        &&& self.black.len() == 1024
        &&& self.white.len() == 1024
        &&& forall|i: int| 0 <= i < 1024 && self.black[i] ==> i < self.area()
        &&& forall|i: int| 0 <= i < 1024 && self.white[i] ==> i < self.area()
        &&& forall|i: int| 0 <= i < 1024 ==> !(self.black[i] && self.white[i])
    }

    /// Well-formedness of the whole game state.
    pub open spec fn wf(self) -> bool {
        &&& self.board_wf()
        &&& 0 <= self.passes <= count_passes(self.history)
        &&& 0 <= self.min_moves
        &&& 0 <= self.max_moves
        &&& self.is_over == (self.outcome is Some)
        &&& self.is_over ==> self.history.len() <= self.max_moves + 1
        &&& !self.is_over ==> self.history.len() <= self.max_moves
        &&& forall|k: int|
            0 <= k < self.history.len() ==> (#[trigger] self.history[k]).captured.len() == 1024
        &&& forall|k: int, i: int|
            0 <= k < self.history.len() && 0 <= i < 1024
                && #[trigger] self.history[k].captured[i] ==> i < self.area()
        &&& forall|k: int|
            0 <= k < self.history.len() ==> ((#[trigger] self.history[k]).mv matches Move::Place {
                col,
                row,
            } ==> (Position { col, row }).spec_valid(self.width as int, self.height as int))
    }
}

/// The number of Pass entries in a history.
pub open spec fn count_passes(h: Seq<EntryV>) -> nat
    decreases h.len(),
{
    if h.len() == 0 {
        0
    } else {
        count_passes(h.drop_last()) + (if h.last().mv is Pass {
            1nat
        } else {
            0nat
        })
    }
}

/// There are no more Pass entries than entries.
pub proof fn lemma_count_passes_le_len(h: Seq<EntryV>)
    ensures
        count_passes(h) <= h.len(),
    decreases h.len(),
{
    if h.len() > 0 {
        lemma_count_passes_le_len(h.drop_last());
    }
}

/// Appending one entry adds its own contribution to the pass count.
pub proof fn lemma_count_passes_push(h: Seq<EntryV>, e: EntryV)
    ensures
        count_passes(h.push(e)) == count_passes(h) + (if e.mv is Pass {
            1nat
        } else {
            0nat
        }),
{
    assert(h.push(e).drop_last() =~= h);
    assert(h.push(e).last() == e);
}

/// The area of a well-formed board is at most the bit capacity.
pub proof fn lemma_area(gv: GameV)
    requires
        2 <= gv.width <= 32,
        2 <= gv.height <= 32,
    ensures
        4 <= gv.area() <= 1024,
{
    assert(4 <= gv.width * gv.height <= 1024) by (nonlinear_arith)
        requires
            2 <= gv.width <= 32,
            2 <= gv.height <= 32,
    ;
}

// ---------------------------------------------------------------------------
// Groups, liberties, capture, suicide.
// ---------------------------------------------------------------------------

/// The maximal connected group of `stones` containing `idx` (empty if
/// `idx` holds no stone).
pub open spec fn group_of(w: int, h: int, stones: Seq<bool>, idx: int) -> Seq<bool> {
    Seq::new(1024, |b: int| reaches(w, h, stones, seq_and(single_seq(idx), stones), b))
}

/// The liberty cells of a group: empty cells orthogonally adjacent to it.
pub open spec fn liberties_of(w: int, h: int, empty: Seq<bool>, g: Seq<bool>) -> Seq<bool> {
    Seq::new(
        1024,
        |c: int| empty[c] && (exists|b: int| 0 <= b < 1024 && g[b] && adjacent(w, h, b, c)),
    )
}

/// Whether a group has at least one liberty.
pub open spec fn has_liberty(w: int, h: int, empty: Seq<bool>, g: Seq<bool>) -> bool {
    exists|c: int| 0 <= c < 1024 && liberties_of(w, h, empty, g)[c]
}

/// The game with a stone of `p` placed at `idx` (nothing else changed).
pub open spec fn place_stone(gv: GameV, idx: int, p: Player) -> GameV {
    match p {
        Player::Black => GameV { black: gv.black.update(idx, true), ..gv },
        Player::White => GameV { white: gv.white.update(idx, true), ..gv },
    }
}

/// The cells captured by `p` placing at `idx`: every opponent group that
/// touches the new stone and has no liberty once the stone stands.
pub open spec fn spec_captured(gv: GameV, idx: int, p: Player) -> Seq<bool> {
    let w = gv.width as int;
    let h = gv.height as int;
    let pv = place_stone(gv, idx, p);
    let opp = pv.stones_of(p.spec_opposite());
    let empty1 = pv.empty_cells();
    Seq::new(
        1024,
        |b: int|
            opp[b] && (exists|n: int| 0 <= n < 1024 && adjacent(w, h, idx, n) && connected(
                w,
                h,
                opp,
                n,
                b,
            )) && !has_liberty(w, h, empty1, group_of(w, h, opp, b)),
    )
}

/// Suicide: the placed group would have no liberty, and no opponent
/// group adjacent to the placed group would be captured.
pub open spec fn spec_suicide(gv: GameV, idx: int, p: Player) -> bool {
    let w = gv.width as int;
    let h = gv.height as int;
    let pv = place_stone(gv, idx, p);
    let own = pv.stones_of(p);
    let opp = pv.stones_of(p.spec_opposite());
    let empty1 = pv.empty_cells();
    let g = group_of(w, h, own, idx);
    &&& !has_liberty(w, h, empty1, g)
    &&& !(exists|n: int|
        0 <= n < 1024 && opp[n] && (exists|a: int, b: int|
            0 <= a < 1024 && 0 <= b < 1024 && g[a] && group_of(w, h, opp, n)[b] && adjacent(
                w,
                h,
                a,
                b,
            )) && !has_liberty(w, h, empty1, group_of(w, h, opp, n)))
}

/// The two seed forms agree: seeding a flood fill with a single cell
/// intersected with the mask reaches exactly what the cell's component
/// holds.
pub proof fn lemma_seed_forms(w: int, h: int, mask: Seq<bool>, a: int, x: int)
    ensures
        reaches(w, h, mask, seq_and(single_seq(a), mask), x) == connected(w, h, mask, a, x),
{
    if reaches(w, h, mask, seq_and(single_seq(a), mask), x) {
        let p = choose|p: Seq<int>|
            crate::geometry::is_path(w, h, mask, p) && seq_and(single_seq(a), mask)[p[0]]
                && p.last() == x;
        assert(single_seq(a)[p[0]]);
        assert(crate::geometry::is_path(w, h, mask, p) && single_seq(a)[p[0]] && p.last() == x);
    }
    if connected(w, h, mask, a, x) {
        let p = choose|p: Seq<int>|
            crate::geometry::is_path(w, h, mask, p) && single_seq(a)[p[0]] && p.last() == x;
        assert(0 <= p[0] < 1024 && mask[p[0]]);
        assert(seq_and(single_seq(a), mask)[p[0]]);
        assert(crate::geometry::is_path(w, h, mask, p) && seq_and(single_seq(a), mask)[p[0]]
            && p.last() == x);
    }
}

/// Group membership is connectivity to the group's anchor cell.
pub proof fn lemma_group_connected(w: int, h: int, stones: Seq<bool>, i: int)
    ensures
        forall|x: int|
            0 <= x < 1024 ==> #[trigger] group_of(w, h, stones, i)[x] == connected(
                w,
                h,
                stones,
                i,
                x,
            ),
{
    assert forall|x: int|
        0 <= x < 1024 implies #[trigger] group_of(w, h, stones, i)[x] == connected(
        w,
        h,
        stones,
        i,
        x,
    ) by {
        lemma_seed_forms(w, h, stones, i, x);
    }
}

/// A group member carries a stone, and the anchor does too.
pub proof fn lemma_group_member(w: int, h: int, stones: Seq<bool>, i: int, b: int)
    requires
        stones.len() == 1024,
        0 <= b < 1024,
        group_of(w, h, stones, i)[b],
    ensures
        stones[b],
        0 <= i < 1024,
        stones[i],
        connected(w, h, stones, i, b),
{
    lemma_seed_forms(w, h, stones, i, b);
    lemma_reaches_in_mask(w, h, stones, single_seq(i), b);
    let p = choose|p: Seq<int>|
        crate::geometry::is_path(w, h, stones, p) && single_seq(i)[p[0]] && p.last() == b;
    assert(p[0] == i && 0 <= p[0] < 1024 && stones[p[0]]);
}

/// Connected cells have the same group.
pub proof fn lemma_group_same(w: int, h: int, stones: Seq<bool>, a: int, b: int)
    requires
        connected(w, h, stones, a, b),
    ensures
        group_of(w, h, stones, a) =~= group_of(w, h, stones, b),
{
    lemma_group_connected(w, h, stones, a);
    lemma_group_connected(w, h, stones, b);
    assert forall|x: int| 0 <= x < 1024 implies group_of(w, h, stones, a)[x] == group_of(
        w,
        h,
        stones,
        b,
    )[x] by {
        if connected(w, h, stones, a, x) {
            lemma_connected_sym(w, h, stones, a, b);
            lemma_connected_trans(w, h, stones, b, a, x);
        }
        if connected(w, h, stones, b, x) {
            lemma_connected_trans(w, h, stones, a, b, x);
        }
    }
}

/// A cell with a stone anchors its own group.
pub proof fn lemma_group_refl(w: int, h: int, stones: Seq<bool>, i: int)
    requires
        stones.len() == 1024,
        0 <= i < 1024,
        stones[i],
    ensures
        group_of(w, h, stones, i)[i],
{
    lemma_reaches_refl(w, h, stones, seq_and(single_seq(i), stones), i);
}

// ---------------------------------------------------------------------------
// Legality.
// ---------------------------------------------------------------------------

/// The coordinate of a flat cell index.
pub open spec fn pos_of(idx: int, w: int) -> Position {
    Position { col: (idx % w) as u8, row: (idx / w) as u8 }
}

/// Legality of a placement at cell `idx` while the game is running:
/// on the board, empty, not the ko point, not suicide.
pub open spec fn legal_at(gv: GameV, idx: int) -> bool {
    &&& 0 <= idx < gv.area()
    &&& gv.empty_cells()[idx]
    &&& gv.ko != Some(pos_of(idx, gv.width as int))
    &&& !spec_suicide(gv, idx, gv.turn)
}

/// The legal placements among the first `n` cells, in ascending cell
/// order.
pub open spec fn legal_places_upto(gv: GameV, n: int) -> Seq<Move>
    decreases n,
{
    if n <= 0 {
        Seq::empty()
    } else {
        let rest = legal_places_upto(gv, n - 1);
        if legal_at(gv, n - 1) {
            rest.push(
                Move::Place {
                    col: pos_of(n - 1, gv.width as int).col,
                    row: pos_of(n - 1, gv.width as int).row,
                },
            )
        } else {
            rest
        }
    }
}

/// Cell-index legality is placement legality at the cell's coordinate.
pub proof fn lemma_legal_at_move(gv: GameV, idx: int)
    requires
        gv.board_wf(),
        0 <= idx < gv.area(),
        !gv.is_over,
    ensures
        legal_at(gv, idx) == spec_move_legal(
            gv,
            Move::Place {
                col: pos_of(idx, gv.width as int).col,
                row: pos_of(idx, gv.width as int).row,
            },
        ),
{
    let w = gv.width as int;
    let h = gv.height as int;
    lemma_cell_bounds(idx, w, h);
    let pos = pos_of(idx, w);
    lemma_cell_compose(idx / w, idx % w, w);
    assert(pos.spec_valid(w, h));
    assert(pos.spec_index(w) == idx);
}

/// Legality of a move: nothing is legal once the game is over; Pass is
/// always legal while it runs; a placement must be on the board, on an
/// empty cell, off the ko point, and no suicide.
pub open spec fn spec_move_legal(gv: GameV, m: Move) -> bool {
    &&& !gv.is_over
    &&& (match m {
        Move::Pass => true,
        Move::Place { col, row } => {
            let pos = Position { col, row };
            &&& pos.spec_valid(gv.width as int, gv.height as int)
            &&& gv.empty_cells()[pos.spec_index(gv.width as int)]
            &&& gv.ko != Some(pos)
            &&& !spec_suicide(gv, pos.spec_index(gv.width as int), gv.turn)
        },
    })
}

// ---------------------------------------------------------------------------
// Scoring.
// ---------------------------------------------------------------------------

/// The territory of `p`: empty cells whose empty region touches a stone
/// of `p` and no stone of the opponent.
pub open spec fn territory_of(gv: GameV, p: Player) -> Seq<bool> {
    let w = gv.width as int;
    let h = gv.height as int;
    let e = gv.empty_cells();
    Seq::new(
        1024,
        |c: int|
            e[c] && region_touches(gv, group_of(w, h, e, c), p) && !region_touches(
                gv,
                group_of(w, h, e, c),
                p.spec_opposite(),
            ),
    )
}

/// Whether a region touches a stone of `p`.
pub open spec fn region_touches(gv: GameV, region: Seq<bool>, p: Player) -> bool {
    exists|b: int, n: int|
        0 <= b < 1024 && 0 <= n < 1024 && region[b] && adjacent(
            gv.width as int,
            gv.height as int,
            b,
            n,
        ) && gv.stones_of(p)[n]
}

/// Black's score, doubled: stones plus exclusive territory.
pub open spec fn spec_black2(gv: GameV) -> int {
    2 * (popcount(gv.black) + popcount(territory_of(gv, Player::Black)) as int)
}

/// White's score, doubled: stones plus exclusive territory, plus komi
/// (komi is counted in half-points, so it enters the doubled score as is).
pub open spec fn spec_white2(gv: GameV) -> int {
    gv.komi + 2 * (popcount(gv.white) + popcount(territory_of(gv, Player::White)) as int)
}

/// The outcome: strict comparison of the two scores.
pub open spec fn spec_outcome(gv: GameV) -> GameOutcome {
    if spec_black2(gv) > spec_white2(gv) {
        GameOutcome::BlackWin
    } else if spec_white2(gv) > spec_black2(gv) {
        GameOutcome::WhiteWin
    } else {
        GameOutcome::Draw
    }
}

/// Whether a region touches a stone depends only on the board fields.
proof fn lemma_touch_board_only(gv1: GameV, gv2: GameV, region: Seq<bool>, p: Player)
    requires
        gv1.black == gv2.black,
        gv1.white == gv2.white,
        gv1.width == gv2.width,
        gv1.height == gv2.height,
    ensures
        region_touches(gv1, region, p) == region_touches(gv2, region, p),
{
    assert(gv1.stones_of(p) == gv2.stones_of(p));
    if region_touches(gv1, region, p) {
        let (b, n) = choose|b: int, n: int|
            0 <= b < 1024 && 0 <= n < 1024 && region[b] && adjacent(
                gv1.width as int,
                gv1.height as int,
                b,
                n,
            ) && gv1.stones_of(p)[n];
        assert(region[b] && adjacent(gv2.width as int, gv2.height as int, b, n)
            && gv2.stones_of(p)[n]);
    }
    if region_touches(gv2, region, p) {
        let (b, n) = choose|b: int, n: int|
            0 <= b < 1024 && 0 <= n < 1024 && region[b] && adjacent(
                gv2.width as int,
                gv2.height as int,
                b,
                n,
            ) && gv2.stones_of(p)[n];
        assert(region[b] && adjacent(gv1.width as int, gv1.height as int, b, n)
            && gv1.stones_of(p)[n]);
    }
}

/// Scores and outcome depend only on the board fields and komi.
proof fn lemma_scores_board_only(gv1: GameV, gv2: GameV)
    requires
        gv1.black == gv2.black,
        gv1.white == gv2.white,
        gv1.width == gv2.width,
        gv1.height == gv2.height,
        gv1.komi == gv2.komi,
    ensures
        spec_black2(gv1) == spec_black2(gv2),
        spec_white2(gv1) == spec_white2(gv2),
        spec_outcome(gv1) == spec_outcome(gv2),
{
    let w = gv1.width as int;
    let h = gv1.height as int;
    assert(gv1.empty_cells() =~= gv2.empty_cells());
    assert forall|c: int| 0 <= c < 1024 implies territory_of(gv1, Player::Black)[c]
        == territory_of(gv2, Player::Black)[c] && territory_of(gv1, Player::White)[c]
        == territory_of(gv2, Player::White)[c] by {
        let g = group_of(w, h, gv1.empty_cells(), c);
        lemma_touch_board_only(gv1, gv2, g, Player::Black);
        lemma_touch_board_only(gv1, gv2, g, Player::White);
    }
    assert(territory_of(gv1, Player::Black) =~= territory_of(gv2, Player::Black));
    assert(territory_of(gv1, Player::White) =~= territory_of(gv2, Player::White));
}

// ---------------------------------------------------------------------------
// The transition and its inverse.
// ---------------------------------------------------------------------------

/// The ko point after a placement: set iff exactly one stone was
/// captured and the placed stone stands alone with exactly one liberty.
pub open spec fn spec_new_ko(gv: GameV, idx: int, p: Player) -> Option<Position> {
    let w = gv.width as int;
    let h = gv.height as int;
    let cap = spec_captured(gv, idx, p);
    let pv = place_stone(gv, idx, p);
    let own = pv.stones_of(p);
    let g = group_of(w, h, own, idx);
    let nblack = if p is Black {
        pv.black
    } else {
        seq_andnot(pv.black, cap)
    };
    let nwhite = if p is White {
        pv.white
    } else {
        seq_andnot(pv.white, cap)
    };
    let empty2 = Seq::new(1024, |i: int| i < gv.area() && !nblack[i] && !nwhite[i]);
    if popcount(cap) == 1 && popcount(g) == 1 && popcount(liberties_of(w, h, empty2, g)) == 1 {
        let b = choose|b: int| 0 <= b < 1024 && cap[b];
        Some(Position { col: (b % w) as u8, row: (b / w) as u8 })
    } else {
        None
    }
}

/// The state after an accepted move: captures resolved, turn flipped,
/// the undo record pushed, pass counter and ko point maintained, and
/// the game ended (with an outcome by scoring) where the rules say so.
pub open spec fn spec_step(gv: GameV, m: Move) -> GameV {
    match m {
        Move::Pass => {
            let len1 = gv.history.len() + 1;
            let over = (gv.passes + 1 >= 2 && len1 >= gv.min_moves) || len1 >= gv.max_moves;
            let mid = GameV {
                turn: gv.turn.spec_opposite(),
                history: gv.history.push(
                    EntryV { mv: m, captured: all_false(), prev_ko: gv.ko },
                ),
                passes: gv.passes + 1,
                ko: None,
                is_over: over,
                outcome: None,
                ..gv
            };
            GameV {
                outcome: if over {
                    Some(spec_outcome(mid))
                } else {
                    None
                },
                ..mid
            }
        },
        Move::Place { col, row } => {
            let w = gv.width as int;
            let idx = (Position { col, row }).spec_index(w);
            let p = gv.turn;
            let cap = spec_captured(gv, idx, p);
            let pv = place_stone(gv, idx, p);
            let nblack = if p is Black {
                pv.black
            } else {
                seq_andnot(pv.black, cap)
            };
            let nwhite = if p is White {
                pv.white
            } else {
                seq_andnot(pv.white, cap)
            };
            let len1 = gv.history.len() + 1;
            let over = len1 >= gv.max_moves;
            let mid = GameV {
                black: nblack,
                white: nwhite,
                turn: p.spec_opposite(),
                history: gv.history.push(EntryV { mv: m, captured: cap, prev_ko: gv.ko }),
                passes: 0,
                ko: spec_new_ko(gv, idx, p),
                is_over: over,
                outcome: None,
                ..gv
            };
            GameV {
                outcome: if over {
                    Some(spec_outcome(mid))
                } else {
                    None
                },
                ..mid
            }
        },
    }
}

/// The state after undoing the last move: the undo record popped, the
/// turn flipped back, the ko point restored; a placement is lifted and
/// its captives returned to the opponent; the over state is cleared.
pub open spec fn spec_unstep(gv: GameV) -> GameV {
    let e = gv.history.last();
    let hist = gv.history.drop_last();
    let turn = gv.turn.spec_opposite();
    match e.mv {
        Move::Pass => GameV {
            turn,
            history: hist,
            ko: e.prev_ko,
            passes: if gv.passes > 0 {
                gv.passes - 1
            } else {
                0
            },
            is_over: false,
            outcome: None,
            ..gv
        },
        Move::Place { col, row } => {
            let w = gv.width as int;
            let idx = (Position { col, row }).spec_index(w);
            let p = turn;
            let own = gv.stones_of(p);
            let opp = gv.stones_of(p.spec_opposite());
            let own1 = Seq::new(1024, |i: int| own[i] && i != idx && !e.captured[i]);
            let opp1 = Seq::new(1024, |i: int| (opp[i] && i != idx) || e.captured[i]);
            GameV {
                black: if p is Black {
                    own1
                } else {
                    opp1
                },
                white: if p is White {
                    own1
                } else {
                    opp1
                },
                turn,
                history: hist,
                ko: e.prev_ko,
                is_over: false,
                outcome: None,
                ..gv
            }
        },
    }
}

// ---------------------------------------------------------------------------
// The game itself.
// ---------------------------------------------------------------------------

/// One undo record: the move, what it captured, and the ko point it
/// replaced. Created exactly once per accepted move, consumed exactly
/// once by the matching unmake.
#[derive(Clone, Copy, Debug)]
struct MoveHistoryEntry {
    mv: Move,
    captured_stones: Bitboard,
    previous_ko_point: Option<Position>,
}

/// A running or finished game: a board, its geometry, and the turn, ko,
/// pass, history and termination state. Cloning gives a fully
/// independent copy.
#[derive(Clone, Debug)]
pub struct Game {
    board: Board,
    geo: BoardGeometry,
    current_player: Player,
    move_history: Vec<MoveHistoryEntry>,
    is_over: bool,
    outcome: Option<GameOutcome>,
    consecutive_passes: usize,
    ko_point: Option<Position>,
    komi: i32,
    min_moves_before_pass_ends: usize,
    max_moves: usize,
}

impl View for Game {
    type V = GameV;

    closed spec fn view(&self) -> GameV {
        GameV {
            width: self.board@.width,
            height: self.board@.height,
            black: self.board@.black,
            white: self.board@.white,
            turn: self.current_player,
            history: Seq::new(
                self.move_history@.len(),
                |k: int|
                    EntryV {
                        mv: self.move_history@[k].mv,
                        captured: self.move_history@[k].captured_stones@,
                        prev_ko: self.move_history@[k].previous_ko_point,
                    },
            ),
            is_over: self.is_over,
            outcome: self.outcome,
            passes: self.consecutive_passes as int,
            ko: self.ko_point,
            komi: self.komi as int,
            min_moves: self.min_moves_before_pass_ends as int,
            max_moves: self.max_moves as int,
        }
    }
}

impl Game {
    /// The geometry agrees with the board; established at construction
    /// and preserved by every operation.
    pub closed spec fn geo_ok(&self) -> bool {
        self.geo.wf() && self.geo.width == self.board@.width && self.geo.height
            == self.board@.height
    }

    /// The full invariant every public operation preserves.
    pub open spec fn inv(&self) -> bool {
        self.geo_ok() && self@.wf()
    }

    /// A game with the given dimensions and options. Komi is counted in
    /// half-points.
    pub fn with_options(
        width: u8,
        height: u8,
        komi: i32,
        min_moves_before_pass_ends: usize,
        max_moves: usize,
    ) -> (r: Self)
        requires
            2 <= width <= 32,
            2 <= height <= 32,
        ensures
            r.inv(),
            r@.width == width,
            r@.height == height,
            r@.komi == komi,
            r@.min_moves == min_moves_before_pass_ends,
            r@.max_moves == max_moves,
            r@.turn == Player::Black,
            r@.history.len() == 0,
            r@.passes == 0,
            r@.ko is None,
            !r@.is_over,
            r@.outcome is None,
            forall|i: int| 0 <= i < 1024 ==> !r@.black[i] && !r@.white[i],
    {
        Game {
            board: Board::new(width, height),
            geo: BoardGeometry::new(width, height),
            current_player: Player::Black,
            move_history: Vec::new(),
            is_over: false,
            outcome: None,
            consecutive_passes: 0,
            ko_point: None,
            komi,
            min_moves_before_pass_ends,
            max_moves,
        }
    }

    /// A game with the given komi (in half-points) and derived move
    /// limits: passes can end it after half the board in moves, and it
    /// ends at three times the board in moves.
    pub fn with_komi(width: u8, height: u8, komi: i32) -> (r: Self)
        requires
            2 <= width <= 32,
            2 <= height <= 32,
        ensures
            r.inv(),
            r@.width == width,
            r@.height == height,
            r@.komi == komi,
            r@.min_moves == (width * height) as int / 2,
            r@.max_moves == (width * height) as int * 3,
            r@.turn == Player::Black,
            r@.history.len() == 0,
            r@.passes == 0,
            r@.ko is None,
            !r@.is_over,
            forall|i: int| 0 <= i < 1024 ==> !r@.black[i] && !r@.white[i],
    {
        assert(width as usize * height as usize <= 1024) by (nonlinear_arith)
            requires
                width <= 32,
                height <= 32,
        ;
        let board_size = width as usize * height as usize;
        let min_moves = board_size / 2;
        let max_moves = board_size * 3;
        Self::with_options(width, height, komi, min_moves, max_moves)
    }

    /// A game with the default komi.
    pub fn new(width: u8, height: u8) -> (r: Self)
        requires
            2 <= width <= 32,
            2 <= height <= 32,
        ensures
            r.inv(),
            r@.width == width,
            r@.height == height,
            r@.komi == DEFAULT_KOMI as int,
            r@.turn == Player::Black,
            r@.history.len() == 0,
            !r@.is_over,
            forall|i: int| 0 <= i < 1024 ==> !r@.black[i] && !r@.white[i],
    {
        Self::with_komi(width, height, DEFAULT_KOMI)
    }

    /// The standard 19x19 game.
    pub fn standard() -> (r: Self)
        ensures
            r.inv(),
            r@.width == 19,
            r@.height == 19,
            r@.turn == Player::Black,
            r@.history.len() == 0,
            !r@.is_over,
    {
        Self::new(STANDARD_COLS, STANDARD_ROWS)
    }

    /// Komi, in half-points.
    pub fn komi(&self) -> (r: i32)
        ensures
            r == self@.komi,
    {
        self.komi
    }

    pub fn min_moves_before_pass_ends(&self) -> (r: usize)
        ensures
            r == self@.min_moves,
    {
        self.min_moves_before_pass_ends
    }

    pub fn max_moves(&self) -> (r: usize)
        ensures
            r == self@.max_moves,
    {
        self.max_moves
    }

    /// Number of moves currently applied.
    pub fn move_count(&self) -> (r: usize)
        ensures
            r == self@.history.len(),
    {
        self.move_history.len()
    }

    pub fn width(&self) -> (r: u8)
        ensures
            r == self@.width,
    {
        self.board.width()
    }

    pub fn height(&self) -> (r: u8)
        ensures
            r == self@.height,
    {
        self.board.height()
    }

    /// The stone at `pos` in the signed encoding: +1 Black, -1 White.
    pub fn get_piece(&self, pos: &Position) -> (r: Option<i8>)
        requires
            self.inv(),
        ensures
            r == (match self@.board_v().piece_at(*pos) {
                Some(p) => Some(
                    match p {
                        Player::Black => 1i8,
                        Player::White => -1i8,
                    },
                ),
                None => None::<i8>,
            }),
    {
        match self.board.get_piece(pos) {
            Some(Player::Black) => Some(1),
            Some(Player::White) => Some(-1),
            None => None,
        }
    }

    /// Rule-unchecked direct board edit, for setup only.
    pub fn set_piece(&mut self, pos: &Position, player: Option<Player>)
        requires
            old(self).inv(),
        ensures
            final(self).inv(),
            final(self)@ == (GameV {
                black: old(self)@.board_v().with_piece(*pos, player).black,
                white: old(self)@.board_v().with_piece(*pos, player).white,
                ..old(self)@
            }),
    {
        self.board.set_piece(pos, player);
        proof {
            assert(final(self)@ =~~= (GameV {
                black: old(self)@.board_v().with_piece(*pos, player).black,
                white: old(self)@.board_v().with_piece(*pos, player).white,
                ..old(self)@
            }));
        }
    }

    /// Read-only access to the board.
    pub fn board(&self) -> (r: &Board)
        ensures
            r@ == self@.board_v(),
    {
        &self.board
    }

    pub fn turn(&self) -> (r: Player)
        ensures
            r == self@.turn,
    {
        self.current_player
    }

    pub fn is_over(&self) -> (r: bool)
        ensures
            r == self@.is_over,
    {
        self.is_over
    }

    pub fn outcome(&self) -> (r: Option<GameOutcome>)
        ensures
            r == self@.outcome,
    {
        self.outcome
    }

    /// The moves applied so far, oldest first.
    pub fn move_history(&self) -> (r: Vec<Move>)
        ensures
            r@.len() == self@.history.len(),
            forall|k: int| 0 <= k < r@.len() ==> r@[k] == self@.history[k].mv,
    {
        let mut out: Vec<Move> = Vec::new();
        let mut i: usize = 0;
        while i < self.move_history.len()
            invariant
                0 <= i <= self.move_history@.len(),
                out@.len() == i,
                forall|k: int| 0 <= k < i ==> out@[k] == self@.history[k].mv,
            decreases self.move_history@.len() - i,
        {
            out.push(self.move_history[i].mv);
            i = i + 1;
        }
        out
    }

    pub fn ko_point(&self) -> (r: Option<Position>)
        ensures
            r == self@.ko,
    {
        self.ko_point
    }

    /// The group of `player` stones containing `idx`, by flood fill.
    fn group_at(&self, idx: usize, player: Player) -> (g: Bitboard)
        requires
            self.inv(),
            idx < self@.area(),
        ensures
            g@ == group_of(self@.width as int, self@.height as int, self@.stones_of(player), idx as int),
    {
        proof {
            lemma_area(self@);
        }
        let stones = self.board.stones_for(player);
        let seed = Bitboard::single(idx);
        let g = self.geo.flood_fill(seed, stones);
        proof {
            let w = self@.width as int;
            let h = self@.height as int;
            assert(seq_and(seed@, stones@) =~= seq_and(single_seq(idx as int), stones@));
            assert(g@ =~= group_of(w, h, self@.stones_of(player), idx as int));
        }
        g
    }

    /// The empty cells of the board, as a bitboard.
    fn empties(&self) -> (e: Bitboard)
        requires
            self.inv(),
        ensures
            e@ == self@.empty_cells(),
    {
        let e = self.board.empty_squares(self.geo.board_mask);
        proof {
            assert(e@ =~= self@.empty_cells());
        }
        e
    }

    /// Whether a move may be played now: nothing once the game is over;
    /// Pass always; a placement on a valid empty non-ko cell that is not
    /// suicide.
    pub fn is_legal_move(&self, move_: &Move) -> (r: bool)
        requires
            self.inv(),
        ensures
            r == spec_move_legal(self@, *move_),
    {
        if self.is_over {
            return false;
        }
        match move_ {
            Move::Pass => true,
            Move::Place { col, row } => {
                let pos = Position::new(*col, *row);
                if !pos.is_valid(self.board.width(), self.board.height()) {
                    return false;
                }
                proof {
                    lemma_area(self@);
                    lemma_index_in_area(pos, self@.width as int, self@.height as int);
                }
                let idx = pos.to_index(self.board.width());
                if self.board.get_piece(&pos).is_some() {
                    return false;
                }
                let ko_blocked = match self.ko_point {
                    Some(k) => k.col == *col && k.row == *row,
                    None => false,
                };
                if ko_blocked {
                    return false;
                }
                if self.would_be_suicide(idx, self.current_player) {
                    return false;
                }
                true
            },
        }
    }

    /// Every legal move: none once the game is over; otherwise each
    /// empty, non-ko, non-suicide cell in ascending cell order, then
    /// Pass.
    pub fn legal_moves(&self) -> (r: Vec<Move>)
        requires
            self.inv(),
        ensures
            self@.is_over ==> r@.len() == 0,
            !self@.is_over ==> r@ == legal_places_upto(self@, self@.area()).push(Move::Pass),
    {
        if self.is_over {
            return Vec::new();
        }
        proof {
            lemma_area(self@);
        }
        let mut out: Vec<Move> = Vec::new();
        let area = self.geo.area;
        let width = self.board.width();
        let mut idx: usize = 0;
        while idx < area
            invariant
                self.inv(),
                !self@.is_over,
                0 <= idx <= area == self@.area() <= 1024,
                width == self@.width,
                out@ == legal_places_upto(self@, idx as int),
            decreases area - idx,
        {
            proof {
                lemma_area(self@);
                lemma_cell_bounds(idx as int, self@.width as int, self@.height as int);
                assert(idx < width * 256) by (nonlinear_arith)
                    requires
                        idx < self@.area(),
                        self@.area() == width * self@.height,
                        self@.height < 256,
                        width >= 1,
                ;
            }
            let pos = Position::from_index(idx, width);
            proof {
                assert(pos == pos_of(idx as int, self@.width as int));
                lemma_index_in_area(pos, self@.width as int, self@.height as int);
                let wd = self@.width as int;
                assert((idx as int / wd) * wd + (idx as int % wd) == idx as int)
                    by (nonlinear_arith)
                    requires
                        idx as int == wd * (idx as int / wd) + (idx as int % wd),
                ;
                assert(pos.spec_index(self@.width as int) == idx as int);
            }
            let occupied = self.board.get_piece(&pos).is_some();
            let ko_blocked = match self.ko_point {
                Some(k) => k.col == pos.col && k.row == pos.row,
                None => false,
            };
            let mut allowed = !occupied && !ko_blocked;
            if allowed {
                if self.would_be_suicide(idx, self.current_player) {
                    allowed = false;
                }
            }
            if allowed {
                out.push(Move::place(pos.col, pos.row));
            }
            proof {
                assert(allowed == legal_at(self@, idx as int));
                assert(out@ =~= legal_places_upto(self@, idx as int + 1));
            }
            idx = idx + 1;
        }
        out.push(Move::pass());
        out
    }

    /// Both scores, doubled (so that half-point komi stays integral):
    /// each side's stone count plus its exclusive territory, komi added
    /// to White. An empty region counts for a color only if every stone
    /// it touches is that color.
    pub fn score(&self) -> (r: (i64, i64))
        requires
            self.geo_ok(),
            self@.board_wf(),
        ensures
            r.0 == spec_black2(self@),
            r.1 == spec_white2(self@),
    {
        let ghost gv = self@;
        let ghost w = gv.width as int;
        let ghost h = gv.height as int;
        let ghost terr_b = territory_of(gv, Player::Black);
        let ghost terr_w = territory_of(gv, Player::White);
        proof {
            lemma_area(gv);
        }
        let e = self.board.empty_squares(self.geo.board_mask);
        proof {
            assert(e@ =~= gv.empty_cells());
        }
        let blackbb = self.board.stones_for(Player::Black);
        let whitebb = self.board.stones_for(Player::White);
        let mut b2: i64 = 0;
        let mut w2: i64 = self.komi as i64;
        let mut visited = Bitboard::empty();
        proof {
            assert(gv.black.take(0) =~= Seq::<bool>::empty());
            assert(gv.white.take(0) =~= Seq::<bool>::empty());
            crate::bitboard::lemma_popcount_zero(seq_and(terr_b, visited@));
            crate::bitboard::lemma_popcount_zero(seq_and(terr_w, visited@));
        }
        let area = self.geo.area;
        let mut idx: usize = 0;
        while idx < area
            invariant
                self.geo_ok(),
                self@.board_wf(),
                gv == self@,
                w == gv.width as int,
                h == gv.height as int,
                terr_b == territory_of(gv, Player::Black),
                terr_w == territory_of(gv, Player::White),
                e@ == gv.empty_cells(),
                blackbb@ == gv.black,
                whitebb@ == gv.white,
                0 <= idx <= area,
                area == gv.area() <= 1024,
                forall|c: int| 0 <= c < 1024 && visited@[c] ==> e@[c],
                forall|c: int, y: int|
                    0 <= c < 1024 && 0 <= y < 1024 && visited@[c] && connected(w, h, e@, c, y)
                        ==> visited@[y],
                forall|c: int| 0 <= c < idx && e@[c] ==> visited@[c],
                b2 == 2 * (popcount(gv.black.take(idx as int)) + popcount(
                    seq_and(terr_b, visited@),
                ) as int),
                w2 == gv.komi + 2 * (popcount(gv.white.take(idx as int)) + popcount(
                    seq_and(terr_w, visited@),
                ) as int),
            decreases area - idx,
        {
            proof {
                lemma_popcount_take_step(gv.black, idx as int);
                lemma_popcount_take_step(gv.white, idx as int);
                lemma_popcount_le_len(gv.black.take(idx as int));
                lemma_popcount_le_len(gv.white.take(idx as int));
                lemma_popcount_le_len(seq_and(terr_b, visited@));
                lemma_popcount_le_len(seq_and(terr_w, visited@));
            }
            if blackbb.get(idx) {
                b2 = b2 + 2;
            } else if whitebb.get(idx) {
                w2 = w2 + 2;
            } else {
                if !visited.get(idx) {
                    proof {
                        assert(e@[idx as int]);
                    }
                    let region = self.geo.flood_fill(Bitboard::single(idx), e);
                    let ghost rg = group_of(w, h, e@, idx as int);
                    proof {
                        assert(seq_and(Seq::new(1024, |i: int| i == idx as int), e@) =~= seq_and(
                            single_seq(idx as int),
                            e@,
                        ));
                        assert(region@ =~= rg);
                        assert forall|i: int| 0 <= i < 1024 && region@[i] implies i < gv.area() by {
                            lemma_group_member(w, h, e@, idx as int, i);
                        }
                    }
                    let nbrs = self.geo.neighbors(&region);
                    let badj = nbrs.and(blackbb).is_nonzero();
                    let wadj = nbrs.and(whitebb).is_nonzero();
                    proof {
                        // Border tests match the spec-level touch relation.
                        if badj {
                            let n = choose|n: int|
                                0 <= n < 1024 && nbrs@[n] && gv.black[n];
                            lemma_nbr_adjacent(w, h, region@, n);
                        }
                        if region_touches(gv, rg, Player::Black) {
                            let (b, n) = choose|b: int, n: int|
                                0 <= b < 1024 && 0 <= n < 1024 && rg[b] && adjacent(w, h, b, n)
                                    && gv.stones_of(Player::Black)[n];
                            lemma_nbr_adjacent(w, h, region@, n);
                            assert(nbrs@[n] && gv.black[n]);
                        }
                        assert(badj == region_touches(gv, rg, Player::Black));
                        if wadj {
                            let n = choose|n: int|
                                0 <= n < 1024 && nbrs@[n] && gv.white[n];
                            lemma_nbr_adjacent(w, h, region@, n);
                        }
                        if region_touches(gv, rg, Player::White) {
                            let (b, n) = choose|b: int, n: int|
                                0 <= b < 1024 && 0 <= n < 1024 && rg[b] && adjacent(w, h, b, n)
                                    && gv.stones_of(Player::White)[n];
                            lemma_nbr_adjacent(w, h, region@, n);
                            assert(nbrs@[n] && gv.white[n]);
                        }
                        assert(wadj == region_touches(gv, rg, Player::White));
                    }
                    let cnt = region.count();
                    proof {
                        lemma_popcount_le_len(region@);
                        let ghost vnew = Seq::new(
                            1024,
                            |i: int| visited@[i] || region@[i],
                        );
                        // The region is disjoint from everything visited.
                        assert forall|y: int| 0 <= y < 1024 && region@[y] implies !visited@[y] by {
                            if visited@[y] {
                                lemma_group_member(w, h, e@, idx as int, y);
                                lemma_connected_sym(w, h, e@, idx as int, y);
                                assert(connected(w, h, e@, y, idx as int));
                                assert(visited@[idx as int]);
                            }
                        }
                        // Each region cell's territory status is the
                        // region's own.
                        assert forall|y: int| 0 <= y < 1024 && region@[y] implies terr_b[y] == (
                        badj && !wadj) && terr_w[y] == (wadj && !badj) by {
                            lemma_group_member(w, h, e@, idx as int, y);
                            lemma_group_same(w, h, e@, idx as int, y);
                            assert(group_of(w, h, e@, y) == rg);
                        }
                        let s1b = seq_and(terr_b, visited@);
                        let s2b = seq_and(terr_b, region@);
                        let s1w = seq_and(terr_w, visited@);
                        let s2w = seq_and(terr_w, region@);
                        crate::bitboard::lemma_popcount_disjoint_or(
                            s1b,
                            s2b,
                            seq_and(terr_b, vnew),
                        );
                        crate::bitboard::lemma_popcount_disjoint_or(
                            s1w,
                            s2w,
                            seq_and(terr_w, vnew),
                        );
                        if badj && !wadj {
                            assert(s2b =~= region@);
                            assert(s2w =~= all_false());
                        } else if wadj && !badj {
                            assert(s2w =~= region@);
                            assert(s2b =~= all_false());
                        } else {
                            assert(s2b =~= all_false());
                            assert(s2w =~= all_false());
                        }
                        crate::bitboard::lemma_popcount_zero(all_false());
                    }
                    if badj && !wadj {
                        b2 = b2 + 2 * (cnt as i64);
                    } else if wadj && !badj {
                        w2 = w2 + 2 * (cnt as i64);
                    }
                    let ghost vold = visited@;
                    visited = visited.or(region);
                    proof {
                        assert(visited@ =~= Seq::new(1024, |i: int| vold[i] || region@[i]));
                        // The union stays region-closed.
                        assert forall|c: int, y: int|
                            0 <= c < 1024 && 0 <= y < 1024 && visited@[c] && connected(
                                w,
                                h,
                                e@,
                                c,
                                y,
                            ) implies visited@[y] by {
                            if region@[c] {
                                lemma_group_member(w, h, e@, idx as int, c);
                                lemma_connected_trans(w, h, e@, idx as int, c, y);
                                lemma_group_connected(w, h, e@, idx as int);
                                assert(region@[y]);
                            }
                        }
                        lemma_group_refl(w, h, e@, idx as int);
                        assert(visited@[idx as int]);
                    }
                } else {
                    proof {
                        assert(seq_and(terr_b, visited@) == seq_and(terr_b, visited@));
                    }
                }
            }
            proof {
                assert(gv.black.take(idx as int + 1).drop_last() =~= gv.black.take(idx as int));
                assert(gv.white.take(idx as int + 1).drop_last() =~= gv.white.take(idx as int));
            }
            idx = idx + 1;
        }
        proof {
            crate::bitboard::lemma_popcount_confined(gv.black, area as int);
            crate::bitboard::lemma_popcount_confined(gv.white, area as int);
            assert forall|c: int| 0 <= c < 1024 && terr_b[c] implies visited@[c] by {
                assert(gv.empty_cells()[c]);
            }
            assert forall|c: int| 0 <= c < 1024 && terr_w[c] implies visited@[c] by {
                assert(gv.empty_cells()[c]);
            }
            assert(seq_and(terr_b, visited@) =~= terr_b);
            assert(seq_and(terr_w, visited@) =~= terr_w);
        }
        (b2, w2)
    }

    /// The outcome by strict score comparison.
    pub fn determine_outcome(&self) -> (r: GameOutcome)
        requires
            self.geo_ok(),
            self@.board_wf(),
        ensures
            r == spec_outcome(self@),
    {
        let (black_score, white_score) = self.score();
        if black_score > white_score {
            GameOutcome::BlackWin
        } else if white_score > black_score {
            GameOutcome::WhiteWin
        } else {
            GameOutcome::Draw
        }
    }

    /// Play a move. An illegal move changes nothing and returns false;
    /// a legal move is applied atomically: stone placed, captures
    /// removed, turn flipped, undo record pushed, ko and pass state
    /// maintained, and the game ended by scoring where the rules say so.
    /// Play a move. An illegal move changes nothing and returns false;
    /// a legal move is applied atomically: stone placed, captures
    /// removed, turn flipped, undo record pushed, ko and pass state
    /// maintained, and the game ended by scoring where the rules say so.
    pub fn make_move(&mut self, move_: &Move) -> (r: bool)
        requires
            old(self).inv(),
        ensures
            final(self).inv(),
            r == spec_move_legal(old(self)@, *move_),
            !spec_move_legal(old(self)@, *move_) ==> final(self)@ == old(self)@,
            spec_move_legal(old(self)@, *move_) ==> final(self)@ == spec_step(
                old(self)@,
                *move_,
            ),
    {
        if !self.is_legal_move(move_) {
            return false;
        }
        let ghost gv = old(self)@;
        let ghost w = gv.width as int;
        let ghost h = gv.height as int;
        proof {
            lemma_area(gv);
        }
        let previous_ko_point = self.ko_point;
        let mut captured_stones = Bitboard::empty();

        match move_ {
            Move::Pass => {
                self.ko_point = None;
            },
            Move::Place { col, row } => {
                let pos = Position::new(*col, *row);
                proof {
                    lemma_index_in_area(pos, w, h);
                }
                let idx = pos.to_index(self.board.width());
                captured_stones = self.resolve_placement(idx, self.current_player);
            },
        }

        self.move_history.push(
            MoveHistoryEntry { mv: *move_, captured_stones, previous_ko_point },
        );
        let n = self.move_history.len();
        let mut over = false;
        match move_ {
            Move::Pass => {
                proof {
                    lemma_count_passes_le_len(gv.history);
                    assert(gv.passes <= gv.history.len());
                    assert(n == gv.history.len() + 1);
                }
                self.consecutive_passes = self.consecutive_passes + 1;
                over = (self.consecutive_passes >= 2 && n >= self.min_moves_before_pass_ends) || n
                    >= self.max_moves;
            },
            Move::Place { .. } => {
                self.consecutive_passes = 0;
                over = n >= self.max_moves;
            },
        }
        self.current_player = self.current_player.opposite();
        let ghost target = spec_step(gv, *move_);
        let ghost smid = GameV { outcome: None, ..target };
        proof {
            assert(self@.black == target.black && self@.white == target.white);
            assert(self@.history =~~= target.history);
            assert(over == target.is_over);
        }
        if over {
            let oc = self.determine_outcome();
            proof {
                lemma_scores_board_only(self@, smid);
                assert(oc == spec_outcome(smid));
            }
            self.is_over = true;
            self.outcome = Some(oc);
        }
        proof {
            assert(final(self)@ =~~= target);
            match *move_ {
                Move::Pass => {
                    lemma_count_passes_push(
                        gv.history,
                        EntryV { mv: *move_, captured: all_false(), prev_ko: gv.ko },
                    );
                },
                Move::Place { col, row } => {
                    lemma_count_passes_push(
                        gv.history,
                        EntryV {
                            mv: *move_,
                            captured: spec_captured(
                                gv,
                                (Position { col, row }).spec_index(gv.width as int),
                                gv.turn,
                            ),
                            prev_ko: gv.ko,
                        },
                    );
                },
            }
            assert(final(self)@.wf());
        }
        true
    }

    /// Place a stone of `p` at the empty cell `idx` and resolve captures
    /// and the ko point; the rest of the game state is untouched. Returns
    /// the captured cells.
    fn resolve_placement(&mut self, idx: usize, p: Player) -> (cap: Bitboard)
        requires
            old(self).inv(),
            idx < old(self)@.area(),
            old(self)@.empty_cells()[idx as int],
            !old(self)@.is_over,
        ensures
            final(self).geo_ok(),
            final(self)@.board_wf(),
            cap@ == spec_captured(old(self)@, idx as int, p),
            final(self)@.black == (if p is Black {
                place_stone(old(self)@, idx as int, p).black
            } else {
                seq_andnot(
                    place_stone(old(self)@, idx as int, p).black,
                    spec_captured(old(self)@, idx as int, p),
                )
            }),
            final(self)@.white == (if p is White {
                place_stone(old(self)@, idx as int, p).white
            } else {
                seq_andnot(
                    place_stone(old(self)@, idx as int, p).white,
                    spec_captured(old(self)@, idx as int, p),
                )
            }),
            final(self)@.ko == spec_new_ko(old(self)@, idx as int, p),
            final(self)@ == (GameV {
                black: final(self)@.black,
                white: final(self)@.white,
                ko: final(self)@.ko,
                ..old(self)@
            }),
    {
        let ghost gv = old(self)@;
        let ghost w = gv.width as int;
        let ghost h = gv.height as int;
        proof {
            lemma_area(gv);
        }
        let mut captured_stones = Bitboard::empty();
        let ghost pv = place_stone(gv, idx as int, p);
        let ghost cap_spec = spec_captured(gv, idx as int, p);
        self.ko_point = None;
        self.board.set_bit(idx, p);
        proof {
            assert(self.board@.stones_of(p) =~= pv.stones_of(p));
            assert(self.board@.stones_of(p.spec_opposite()) =~= pv.stones_of(
                p.spec_opposite(),
            ));
        }
        let oppbb = self.board.stones_for(p.opposite());
        let e1 = self.board.empty_squares(self.geo.board_mask);
        proof {
            assert(e1@ =~= pv.empty_cells());
            assert(forall|i: int| 0 <= i < 1024 && oppbb@[i] ==> i < gv.area());
        }
        let single = Bitboard::single(idx);
        let mut adjset = self.geo.neighbors(&single).and(oppbb);
        let ghost adj0 = adjset@;
        proof {
            assert forall|b: int|
                0 <= b < 1024 && cap_spec[b] && !captured_stones@[b] implies (exists|
                n: int,
            |
                0 <= n < 1024 && adjset@[n] && connected(w, h, oppbb@, n, b)) by {
                let n = choose|n: int|
                    0 <= n < 1024 && adjacent(w, h, idx as int, n) && connected(
                        w,
                        h,
                        oppbb@,
                        n,
                        b,
                    );
                lemma_seed_forms(w, h, oppbb@, n, b);
                lemma_group_member(w, h, oppbb@, n, b);
                lemma_nbr_adjacent(w, h, single@, n);
                assert(single@[idx as int] && adjacent(w, h, idx as int, n));
                assert(nbr(w, h, single@, n));
                assert(adjset@[n]);
            }
        }
        loop
            invariant
                self.geo_ok(),
                self@.board_wf(),
                w == self@.width as int,
                h == self@.height as int,
                gv.width == self@.width,
                gv.height == self@.height,
                0 <= idx < gv.area() <= 1024,
                pv == place_stone(gv, idx as int, p),
                cap_spec == spec_captured(gv, idx as int, p),
                oppbb@ == pv.stones_of(p.spec_opposite()),
                oppbb@ == self@.stones_of(p.spec_opposite()),
                forall|i: int| 0 <= i < 1024 && oppbb@[i] ==> i < gv.area(),
                e1@ == pv.empty_cells(),
                forall|m: int|
                    0 <= m < 1024 ==> adj0[m] == (nbr(w, h, single@, m) && oppbb@[m]),
                forall|m: int| 0 <= m < 1024 ==> single@[m] == (m == idx),
                forall|m: int| 0 <= m < 1024 && adjset@[m] ==> adj0[m],
                forall|b: int| 0 <= b < 1024 && captured_stones@[b] ==> cap_spec[b],
                forall|b: int|
                    0 <= b < 1024 && cap_spec[b] && !captured_stones@[b] ==> (exists|
                        n: int,
                    |
                        0 <= n < 1024 && adjset@[n] && connected(w, h, oppbb@, n, b)),
            ensures
                forall|i: int| 0 <= i < 1024 ==> !adjset@[i],
                forall|b: int|
                    0 <= b < 1024 ==> captured_stones@[b] == cap_spec[b],
            decreases popcount(adjset@),
        {
            let low = adjset.lowest_bit_index();
            match low {
                None => {
                    proof {
                        assert forall|b: int|
                            0 <= b < 1024 implies captured_stones@[b] == cap_spec[b] by {}
                    }
                    break ;
                },
                Some(n) => {
                    proof {
                        assert(adjset@[n as int]);
                        assert(adj0[n as int]);
                        assert(nbr(w, h, single@, n as int) && oppbb@[n as int]);
                    }
                    let og = self.geo.flood_fill(Bitboard::single(n), oppbb);
                    proof {
                        assert(seq_and(
                            Seq::new(1024, |i: int| i == n as int),
                            oppbb@,
                        ) =~= seq_and(single_seq(n as int), oppbb@));
                        assert(og@ =~= group_of(w, h, oppbb@, n as int));
                        assert forall|i: int|
                            0 <= i < 1024 && og@[i] implies i < gv.area() by {
                            lemma_group_member(w, h, oppbb@, n as int, i);
                        }
                        lemma_nbr_adjacent(w, h, single@, n as int);
                        let j = choose|j: int|
                            0 <= j < 1024 && single@[j] && adjacent(w, h, j, n as int);
                        assert(adjacent(w, h, idx as int, n as int));
                    }
                    let oglibs = self.geo.neighbors(&og).and(e1);
                    let ghost prevadj = adjset@;
                    let captured_this = oglibs.is_empty();
                    if captured_this {
                        proof {
                            // The whole group is captured.
                            if has_liberty(
                                w,
                                h,
                                pv.empty_cells(),
                                group_of(w, h, oppbb@, n as int),
                            ) {
                                let c = choose|c: int|
                                    0 <= c < 1024 && liberties_of(
                                        w,
                                        h,
                                        pv.empty_cells(),
                                        group_of(w, h, oppbb@, n as int),
                                    )[c];
                                lemma_nbr_adjacent(w, h, og@, c);
                                assert(oglibs@[c]);
                            }
                        }
                        captured_stones = captured_stones.or(og);
                        proof {
                            assert forall|b: int|
                                0 <= b < 1024 && captured_stones@[b] implies cap_spec[b] by {
                                if og@[b] {
                                    lemma_group_member(w, h, oppbb@, n as int, b);
                                    lemma_group_same(w, h, oppbb@, n as int, b);
                                }
                            }
                        }
                    } else {
                        proof {
                            // The group keeps a liberty and is settled.
                            let c = choose|c: int| 0 <= c < 1024 && oglibs@[c];
                            lemma_nbr_adjacent(w, h, og@, c);
                            assert(liberties_of(
                                w,
                                h,
                                pv.empty_cells(),
                                group_of(w, h, oppbb@, n as int),
                            )[c]);
                            assert(has_liberty(
                                w,
                                h,
                                pv.empty_cells(),
                                group_of(w, h, oppbb@, n as int),
                            ));
                        }
                    }
                    adjset = adjset.andnot(og);
                    proof {
                        assert forall|b: int|
                            0 <= b < 1024 && cap_spec[b] && !captured_stones@[b] implies (
                        exists|n2: int|
                            0 <= n2 < 1024 && adjset@[n2] && connected(
                                w,
                                h,
                                oppbb@,
                                n2,
                                b,
                            )) by {
                            let n2 = choose|n2: int|
                                0 <= n2 < 1024 && prevadj[n2] && connected(
                                    w,
                                    h,
                                    oppbb@,
                                    n2,
                                    b,
                                );
                            if og@[n2] {
                                // The witness was settled with this
                                // group: the cell shares its fate.
                                lemma_group_connected(w, h, oppbb@, n2);
                                lemma_group_connected(w, h, oppbb@, n as int);
                                lemma_group_member(w, h, oppbb@, n as int, n2);
                                assert(connected(w, h, oppbb@, n as int, n2));
                                lemma_connected_trans(w, h, oppbb@, n as int, n2, b);
                                assert(og@[b]);
                                if captured_this {
                                    assert(captured_stones@[b]);
                                    assert(false);
                                } else {
                                    lemma_group_same(w, h, oppbb@, n as int, b);
                                    assert(has_liberty(
                                        w,
                                        h,
                                        pv.empty_cells(),
                                        group_of(w, h, oppbb@, b),
                                    ));
                                    assert(!cap_spec[b]);
                                    assert(false);
                                }
                            } else {
                                assert(adjset@[n2]);
                            }
                        }
                        lemma_group_refl(w, h, oppbb@, n as int);
                        assert(og@[n as int]);
                        crate::bitboard::lemma_popcount_strict(adjset@, prevadj, n as int);
                    }
                },
            }
        }
        self.board.remove_stones(captured_stones);
        proof {
            let nblack = if p is Black {
                pv.black
            } else {
                seq_andnot(pv.black, cap_spec)
            };
            let nwhite = if p is White {
                pv.white
            } else {
                seq_andnot(pv.white, cap_spec)
            };
            assert(gv.empty_cells()[idx as int]);
            assert forall|i: int|
                0 <= i < 1024 implies (self.board@.black[i] == nblack[i]
                && self.board@.white[i] == nwhite[i]) by {
                if captured_stones@[i] {
                    assert(cap_spec[i]);
                    assert(pv.stones_of(p.spec_opposite())[i]);
                    assert(!pv.stones_of(p.spec_opposite())[idx as int]);
                    assert(i != idx as int);
                    assert(!pv.stones_of(p)[i]);
                }
            }
            assert(self.board@.black =~= nblack);
            assert(self.board@.white =~= nwhite);
            assert(captured_stones@ =~= cap_spec);
            assert forall|i: int| 0 <= i < 1024 && captured_stones@[i] implies i < gv.area() by {
                assert(pv.stones_of(p.spec_opposite())[i]);
                assert(gv.stones_of(p.spec_opposite())[i]);
                if p is Black {
                    assert(gv.white[i]);
                } else {
                    assert(gv.black[i]);
                }
            }
            assert forall|i: int| 0 <= i < 1024 implies !(self@.black[i] && self@.white[i]) by {
                if nblack[i] && nwhite[i] {
                    if i == idx as int {
                        assert(gv.empty_cells()[i]);
                    } else {
                        assert(gv.black[i] && gv.white[i]);
                    }
                }
            }
            assert forall|i: int|
                0 <= i < 1024 && (self@.black[i] || self@.white[i]) implies i < gv.area() by {
                if i != idx as int {
                    assert(gv.black[i] || gv.white[i]);
                }
            }
            assert(self@.board_wf());
        }

        // Ko: a single stone captured by a lone stone that itself has
        // exactly one liberty.
        if captured_stones.count() == 1 {
            let lowcap = captured_stones.lowest_bit_index();
            match lowcap {
                None => {
                    proof {
                        crate::bitboard::lemma_popcount_zero(captured_stones@);
                        assert(false);
                    }
                },
                Some(c) => {
                    proof {
                        assert(captured_stones@[c as int]);
                        assert(c < gv.area());
                        assert(popcount(cap_spec) == 1);
                    }
                    let pg = self.group_at(idx, p);
                    let e2 = self.empties();
                    let pglibs = self.geo.neighbors(&pg).and(e2);
                    let ghost g2 = group_of(w, h, pv.stones_of(p), idx as int);
                    let ghost empty2 = Seq::new(
                        1024,
                        |i: int|
                            i < gv.area() && !(if p is Black {
                                pv.black
                            } else {
                                seq_andnot(pv.black, cap_spec)
                            })[i] && !(if p is White {
                                pv.white
                            } else {
                                seq_andnot(pv.white, cap_spec)
                            })[i],
                    );
                    proof {
                        assert(self@.stones_of(p) =~= pv.stones_of(p));
                        assert(pg@ == group_of(w, h, self@.stones_of(p), idx as int));
                        assert(pg@ =~= g2);
                        assert forall|i: int| 0 <= i < 1024 && pg@[i] implies i < gv.area() by {
                            lemma_group_member(w, h, self@.stones_of(p), idx as int, i);
                        }
                        assert(e2@ =~= empty2);
                        assert forall|x: int| 0 <= x < 1024 implies pglibs@[x] == liberties_of(
                            w,
                            h,
                            empty2,
                            g2,
                        )[x] by {
                            lemma_nbr_adjacent(w, h, pg@, x);
                        }
                        assert(pglibs@ =~= liberties_of(w, h, empty2, g2));
                    }
                    if pg.count() == 1 && pglibs.count() == 1 {
                        proof {
                            assert(c < self@.width as int * 256) by (nonlinear_arith)
                                requires
                                    0 <= c,
                                    (c as int) < gv.area(),
                                    gv.area() == gv.width * gv.height,
                                    gv.height < 256,
                                    gv.width == self@.width,
                            ;
                        }
                        let kopos = Position::from_index(c, self.board.width());
                        self.ko_point = Some(kopos);
                        proof {
                            assert(popcount(g2) == 1);
                            assert(popcount(liberties_of(w, h, empty2, g2)) == 1);
                            let b0 = choose|b: int| 0 <= b < 1024 && cap_spec[b];
                            lemma_popcount_unique(cap_spec, b0, c as int);
                            assert(b0 == c as int);
                            assert(kopos.col == c as int % w && kopos.row == c as int / w);
                            assert(self.ko_point == spec_new_ko(gv, idx as int, p));
                        }
                    } else {
                        proof {
                            assert(popcount(g2) != 1 || popcount(
                                liberties_of(w, h, empty2, g2),
                            ) != 1);
                            assert(self.ko_point == spec_new_ko(gv, idx as int, p));
                        }
                    }
                },
            }
        } else {
            proof {
                assert(popcount(cap_spec) != 1);
                assert(self.ko_point == spec_new_ko(gv, idx as int, p));
            }
        }
        proof {
            assert(final(self)@ == (GameV {
                black: final(self)@.black,
                white: final(self)@.white,
                ko: final(self)@.ko,
                ..old(self)@
            }));
        }
        captured_stones
    }

    /// Undo the last move, restoring board, turn and ko point; returns
    /// false (and changes nothing) when no move has been made.
    pub fn unmake_move(&mut self) -> (r: bool)
        requires
            old(self).inv(),
        ensures
            final(self).inv(),
            r == (old(self)@.history.len() > 0),
            old(self)@.history.len() == 0 ==> final(self)@ == old(self)@,
            old(self)@.history.len() > 0 ==> final(self)@ == spec_unstep(old(self)@),
    {
        let ghost gv = old(self)@;
        let ghost w = gv.width as int;
        let ghost h = gv.height as int;
        proof {
            lemma_area(gv);
        }
        let popped = self.move_history.pop();
        match popped {
            None => {
                proof {
                    assert(final(self)@ =~~= old(self)@);
                    assert(final(self)@.passes == old(self)@.passes);
                    assert(final(self)@.history.len() == old(self)@.history.len());
                    assert(old(self)@.passes <= old(self)@.history.len());
                    assert(final(self)@.passes <= final(self)@.history.len());
                    assert(final(self)@.wf());
                    assert(final(self).geo_ok());
                }
                false
            },
            Some(entry) => {
                self.current_player = self.current_player.opposite();
                self.ko_point = entry.previous_ko_point;
                match entry.mv {
                    Move::Pass => {
                        if self.consecutive_passes > 0 {
                            self.consecutive_passes = self.consecutive_passes - 1;
                        }
                        self.is_over = false;
                        self.outcome = None;
                        proof {
                            assert(gv.history.last().mv == entry.mv);
                            assert(count_passes(gv.history) == count_passes(
                                gv.history.drop_last(),
                            ) + 1);
                            assert(final(self)@ =~~= spec_unstep(gv));
                            assert(final(self)@.wf());
                        }
                    },
                    Move::Place { col, row } => {
                        let pos = Position::new(col, row);
                        proof {
                            assert(gv.history.last().mv == (Move::Place { col, row }));
                            assert(pos.spec_valid(w, h));
                            lemma_index_in_area(pos, w, h);
                        }
                        let idx = pos.to_index(self.board.width());
                        let ghost b0 = self.board@;
                        self.board.clear_bit(idx);
                        let ghost b1 = self.board@;
                        self.board.remove_stones(entry.captured_stones);
                        let ghost b2 = self.board@;
                        let opp = self.current_player.opposite();
                        self.board.restore_stones(entry.captured_stones, opp);
                        self.is_over = false;
                        self.outcome = None;
                        proof {
                            let p = gv.turn.spec_opposite();
                            assert(b0.black == gv.black && b0.white == gv.white);
                            assert(b1.black == b0.black.update(idx as int, false));
                            assert(b1.white == b0.white.update(idx as int, false));
                            assert(gv.history.last().captured == entry.captured_stones@);
                            assert(gv.history.last().prev_ko == entry.previous_ko_point);
                            let own = gv.stones_of(p);
                            let oppv = gv.stones_of(p.spec_opposite());
                            let own1 = Seq::new(
                                1024,
                                |i: int| own[i] && i != idx as int && !gv.history.last().captured[i],
                            );
                            let opp1 = Seq::new(
                                1024,
                                |i: int|
                                    (oppv[i] && i != idx as int) || gv.history.last().captured[i],
                            );
                            assert(self.current_player == p);
                            assert(opp == p.spec_opposite());
                            let cap = entry.captured_stones@;
                            if p is Black {
                                assert(opp == Player::White);
                                assert(self.board@.black == b2.black);
                                assert forall|i: int|
                                    0 <= i < 1024 implies self@.black[i] == own1[i]
                                    && self@.white[i] == opp1[i] by {
                                    assert(b2.black[i] == (b1.black[i] && !cap[i]));
                                    assert(b2.white[i] == (b1.white[i] && !cap[i]));
                                    assert(self.board@.white[i] == (b2.white[i] || cap[i]));
                                    assert(self@.black[i] == (gv.black[i] && i != idx as int
                                        && !cap[i]));
                                    assert(self@.white[i] == ((gv.white[i] && i != idx as int
                                        && !cap[i]) || cap[i]));
                                }
                                assert(self@.black =~= own1);
                                assert(self@.white =~= opp1);
                            } else {
                                assert(opp == Player::Black);
                                assert(self.board@.white == b2.white);
                                assert forall|i: int|
                                    0 <= i < 1024 implies self@.white[i] == own1[i]
                                    && self@.black[i] == opp1[i] by {
                                    assert(b2.black[i] == (b1.black[i] && !cap[i]));
                                    assert(b2.white[i] == (b1.white[i] && !cap[i]));
                                    assert(self.board@.black[i] == (b2.black[i] || cap[i]));
                                    assert(self@.white[i] == (gv.white[i] && i != idx as int
                                        && !cap[i]));
                                    assert(self@.black[i] == ((gv.black[i] && i != idx as int
                                        && !cap[i]) || cap[i]));
                                }
                                assert(self@.white =~= own1);
                                assert(self@.black =~= opp1);
                            }
                            assert(count_passes(gv.history) == count_passes(
                                gv.history.drop_last(),
                            ));
                            assert(final(self)@ =~~= spec_unstep(gv));
                            assert(final(self)@.wf());
                        }
                    },
                }
                true
            },
        }
    }

    /// Whether placing a stone of `player` at the empty cell `idx` would
    /// be suicide: the placed group would have no liberty and no adjacent
    /// opponent group would be captured.
    fn would_be_suicide(&self, idx: usize, player: Player) -> (r: bool)
        requires
            self.inv(),
            idx < self@.area(),
            self@.empty_cells()[idx as int],
        ensures
            r == spec_suicide(self@, idx as int, player),
    {
        let ghost gv = self@;
        let ghost w = gv.width as int;
        let ghost h = gv.height as int;
        let ghost pv = place_stone(gv, idx as int, player);
        proof {
            lemma_area(gv);
        }

        let mut own1 = self.board.stones_for(player);
        own1.set(idx);
        let opp = player.opposite();
        let oppbb = self.board.stones_for(opp);
        let mut e1 = self.empties();
        e1.clear(idx);
        proof {
            assert(own1@ =~= pv.stones_of(player));
            assert(oppbb@ =~= pv.stones_of(player.spec_opposite()));
            assert(e1@ =~= pv.empty_cells());
            assert(forall|i: int| 0 <= i < 1024 && own1@[i] ==> i < gv.area());
            assert(forall|i: int| 0 <= i < 1024 && oppbb@[i] ==> i < gv.area());
        }
        let ghost g_spec = group_of(w, h, pv.stones_of(player), idx as int);

        // Fast path: an empty orthogonal neighbor of the placed cell is a
        // liberty of the placed group.
        let single = Bitboard::single(idx);
        let quick = self.geo.neighbors(&single).and(e1);
        if quick.is_nonzero() {
            proof {
                let c = choose|c: int| 0 <= c < 1024 && quick@[c];
                lemma_nbr_adjacent(w, h, single@, c);
                let j = choose|j: int| 0 <= j < 1024 && single@[j] && adjacent(w, h, j, c);
                lemma_group_refl(w, h, pv.stones_of(player), idx as int);
                assert(g_spec[idx as int]);
                assert(liberties_of(w, h, pv.empty_cells(), g_spec)[c]);
                assert(has_liberty(w, h, pv.empty_cells(), g_spec));
            }
            return false;
        }

        let g = self.geo.flood_fill(single, own1);
        proof {
            assert(seq_and(single@, own1@) =~= seq_and(single_seq(idx as int), own1@));
            assert(g@ =~= g_spec);
            assert forall|i: int| 0 <= i < 1024 && g@[i] implies i < gv.area() by {
                lemma_group_member(w, h, pv.stones_of(player), idx as int, i);
            }
        }
        let glibs = self.geo.neighbors(&g).and(e1);
        if glibs.is_nonzero() {
            proof {
                let c = choose|c: int| 0 <= c < 1024 && glibs@[c];
                lemma_nbr_adjacent(w, h, g@, c);
                assert(liberties_of(w, h, pv.empty_cells(), g_spec)[c]);
                assert(has_liberty(w, h, pv.empty_cells(), g_spec));
            }
            return false;
        }
        proof {
            if has_liberty(w, h, pv.empty_cells(), g_spec) {
                let c = choose|c: int|
                    0 <= c < 1024 && liberties_of(w, h, pv.empty_cells(), g_spec)[c];
                lemma_nbr_adjacent(w, h, g@, c);
                assert(glibs@[c]);
            }
            assert(!has_liberty(w, h, pv.empty_cells(), g_spec));
        }

        // Examine each opponent group orthogonally adjacent to the placed
        // group, flood-filling each exactly once: if one has no liberty,
        // the move captures it and is not suicide.
        let mut adjopp = self.geo.neighbors(&g).and(oppbb);
        let ghost adj0 = adjopp@;
        proof {
            assert(forall|m: int| 0 <= m < 1024 ==> adj0[m] == (nbr(w, h, g@, m) && oppbb@[m]));
        }
        loop
            invariant
                self.inv(),
                w == self@.width as int,
                h == self@.height as int,
                gv == self@,
                pv == place_stone(gv, idx as int, player),
                0 <= idx < gv.area(),
                oppbb@ == pv.stones_of(player.spec_opposite()),
                g@ == g_spec,
                g_spec == group_of(w, h, pv.stones_of(player), idx as int),
                gv.area() <= 1024,
                forall|i: int| 0 <= i < 1024 && oppbb@[i] ==> i < gv.area(),
                forall|m: int| 0 <= m < 1024 ==> adj0[m] == (nbr(w, h, g@, m) && oppbb@[m]),
                forall|m: int| 0 <= m < 1024 && adjopp@[m] ==> adj0[m],
                forall|m: int|
                    0 <= m < 1024 && adj0[m] && !adjopp@[m] ==> has_liberty(
                        w,
                        h,
                        pv.empty_cells(),
                        group_of(w, h, oppbb@, m),
                    ),
                e1@ == pv.empty_cells(),
            ensures
                forall|i: int| 0 <= i < 1024 ==> !adjopp@[i],
            decreases popcount(adjopp@),
        {
            let low = adjopp.lowest_bit_index();
            match low {
                None => {
                    break ;
                },
                Some(n) => {
                    proof {
                        assert(adjopp@[n as int]);
                        assert(adj0[n as int]);
                        assert(nbr(w, h, g@, n as int) && oppbb@[n as int]);
                    }
                    let og = self.geo.flood_fill(Bitboard::single(n), oppbb);
                    proof {
                        assert(seq_and(Seq::new(1024, |i: int| i == n as int), oppbb@) =~= seq_and(
                            single_seq(n as int),
                            oppbb@,
                        ));
                        assert(og@ =~= group_of(w, h, oppbb@, n as int));
                        assert forall|i: int| 0 <= i < 1024 && og@[i] implies i < gv.area() by {
                            lemma_group_member(w, h, oppbb@, n as int, i);
                        }
                    }
                    let oglibs = self.geo.neighbors(&og).and(e1);
                    if oglibs.is_empty() {
                        proof {
                            // This group is adjacent to the placed group and
                            // has no liberty: the move captures it.
                            assert(oppbb@[n as int]);
                            lemma_nbr_adjacent(w, h, g@, n as int);
                            let a = choose|a: int|
                                0 <= a < 1024 && g@[a] && adjacent(w, h, a, n as int);
                            lemma_group_refl(w, h, oppbb@, n as int);
                            if has_liberty(w, h, pv.empty_cells(), group_of(w, h, oppbb@, n as int)) {
                                let c = choose|c: int|
                                    0 <= c < 1024 && liberties_of(
                                        w,
                                        h,
                                        pv.empty_cells(),
                                        group_of(w, h, oppbb@, n as int),
                                    )[c];
                                lemma_nbr_adjacent(w, h, og@, c);
                                assert(oglibs@[c]);
                            }
                            assert(!has_liberty(
                                w,
                                h,
                                pv.empty_cells(),
                                group_of(w, h, oppbb@, n as int),
                            ));
                            assert(exists|a2: int, b2: int|
                                0 <= a2 < 1024 && 0 <= b2 < 1024 && group_of(
                                    w,
                                    h,
                                    pv.stones_of(player),
                                    idx as int,
                                )[a2] && group_of(w, h, pv.stones_of(player.spec_opposite()), n as int)[b2]
                                    && adjacent(w, h, a2, b2)) by {
                                assert(g_spec[a] && group_of(w, h, oppbb@, n as int)[n as int]
                                    && adjacent(w, h, a, n as int));
                            }
                            assert(exists|n2: int|
                                0 <= n2 < 1024 && pv.stones_of(player.spec_opposite())[n2] && (
                                exists|a2: int, b2: int|
                                    0 <= a2 < 1024 && 0 <= b2 < 1024 && group_of(
                                        w,
                                        h,
                                        pv.stones_of(player),
                                        idx as int,
                                    )[a2] && group_of(
                                        w,
                                        h,
                                        pv.stones_of(player.spec_opposite()),
                                        n2,
                                    )[b2] && adjacent(w, h, a2, b2)) && !has_liberty(
                                    w,
                                    h,
                                    pv.empty_cells(),
                                    group_of(w, h, pv.stones_of(player.spec_opposite()), n2),
                                ));
                            assert(!spec_suicide(gv, idx as int, player));
                        }
                        return false;
                    }
                    let ghost prev = adjopp@;
                    adjopp = adjopp.andnot(og);
                    proof {
                        // The inspected group has a liberty; every cell of it
                        // leaves the adjacency set settled.
                        let c = choose|c: int| 0 <= c < 1024 && oglibs@[c];
                        lemma_nbr_adjacent(w, h, og@, c);
                        assert(liberties_of(w, h, pv.empty_cells(), group_of(w, h, oppbb@, n as int))[c]);
                        assert forall|m: int|
                            0 <= m < 1024 && adj0[m] && !adjopp@[m] implies has_liberty(
                            w,
                            h,
                            pv.empty_cells(),
                            group_of(w, h, oppbb@, m),
                        ) by {
                            if prev[m] {
                                assert(og@[m]);
                                lemma_group_member(w, h, oppbb@, n as int, m);
                                lemma_group_same(w, h, oppbb@, n as int, m);
                            }
                        }
                        lemma_group_refl(w, h, oppbb@, n as int);
                        assert(og@[n as int]);
                        crate::bitboard::lemma_popcount_strict(adjopp@, prev, n as int);
                    }
                },
            }
        }
        proof {
            // Every opponent group adjacent to the placed group was
            // inspected and had a liberty: the placement is suicide.
            assert forall|i: int| 0 <= i < 1024 implies !adjopp@[i] by {}
            if !spec_suicide(gv, idx as int, player) {
                let n0 = choose|n0: int|
                    0 <= n0 < 1024 && pv.stones_of(player.spec_opposite())[n0] && (exists|
                        a: int,
                        b: int,
                    |
                        0 <= a < 1024 && 0 <= b < 1024 && g_spec[a] && group_of(
                            w,
                            h,
                            pv.stones_of(player.spec_opposite()),
                            n0,
                        )[b] && adjacent(w, h, a, b)) && !has_liberty(
                        w,
                        h,
                        pv.empty_cells(),
                        group_of(w, h, pv.stones_of(player.spec_opposite()), n0),
                    );
                let (a, b) = choose|a: int, b: int|
                    0 <= a < 1024 && 0 <= b < 1024 && g_spec[a] && group_of(w, h, oppbb@, n0)[b]
                        && adjacent(w, h, a, b);
                lemma_group_member(w, h, oppbb@, n0, b);
                lemma_nbr_adjacent(w, h, g@, b);
                assert(nbr(w, h, g@, b));
                assert(adj0[b]);
                assert(has_liberty(w, h, pv.empty_cells(), group_of(w, h, oppbb@, b)));
                lemma_group_same(w, h, oppbb@, n0, b);
                assert(false);
            }
        }
        true
    }
}

impl Default for Game {
    /// The standard 19x19 game.
    fn default() -> (r: Self)
        ensures
            r.inv(),
            r@.width == 19,
            r@.height == 19,
            r@.turn == Player::Black,
            r@.history.len() == 0,
            !r@.is_over,
    {
        Self::standard()
    }
}

} // verus!
