//! Laws of the rules engine, stated over the spec-level game model and
//! proved from the transition functions that the executable contracts
//! pin down.

use vstd::prelude::*;

use crate::bitboard::{lemma_popcount_member, popcount};
use crate::game::{
    group_of, has_liberty, lemma_area, lemma_group_connected, lemma_group_member,
    lemma_group_refl, lemma_group_same, lemma_seed_forms, liberties_of, place_stone,
    region_touches, spec_captured, spec_move_legal, spec_new_ko, spec_step, spec_suicide,
    spec_unstep, territory_of, GameV,
};
use crate::geometry::{adjacent, connected, seq_andnot, single_seq};
use crate::moves::Move;
use crate::player::Player;
use crate::position::{lemma_index_in_area, Position};

verus! {

/// Every group of `q` on the board has at least one liberty. This holds
/// of every position reachable by legal moves from an empty board.
pub open spec fn color_alive(gv: GameV, q: Player) -> bool {
    forall|b: int|
        0 <= b < 1024 && gv.stones_of(q)[b] ==> has_liberty(
            gv.width as int,
            gv.height as int,
            gv.empty_cells(),
            group_of(gv.width as int, gv.height as int, gv.stones_of(q), b),
        )
}

/// The captured set of a placement carries opponent stones only, never
/// the placed cell, and never a stone of the mover.
pub proof fn lemma_captured_in_opponent(gv: GameV, col: u8, row: u8)
    requires
        gv.wf(),
        spec_move_legal(gv, Move::Place { col, row }),
    ensures
        forall|i: int|
            0 <= i < 1024 && #[trigger] spec_captured(
                gv,
                (Position { col, row }).spec_index(gv.width as int),
                gv.turn,
            )[i] ==> gv.stones_of(gv.turn.spec_opposite())[i] && !gv.stones_of(gv.turn)[i] && i
                != (Position { col, row }).spec_index(gv.width as int),
{
    let w = gv.width as int;
    let h = gv.height as int;
    let pos = Position { col, row };
    let idx = pos.spec_index(w);
    let p = gv.turn;
    let cap = spec_captured(gv, idx, p);
    let pv = place_stone(gv, idx, p);
    assert(gv.empty_cells()[idx]);
    assert forall|i: int| 0 <= i < 1024 && #[trigger] cap[i] implies gv.stones_of(
        p.spec_opposite(),
    )[i] && !gv.stones_of(p)[i] && i != idx by {
        assert(pv.stones_of(p.spec_opposite())[i]);
        assert(pv.stones_of(p.spec_opposite()) == gv.stones_of(p.spec_opposite()));
        assert(!gv.stones_of(p.spec_opposite())[idx]);
    }
}

/// Making a legal placement and then unmaking it restores the board
/// bit for bit, together with the turn, the ko point, and the whole
/// history.
pub proof fn lemma_make_then_unmake(gv: GameV, m: Move)
    requires
        gv.wf(),
        spec_move_legal(gv, m),
        m is Place,
    ensures
        spec_unstep(spec_step(gv, m)).black == gv.black,
        spec_unstep(spec_step(gv, m)).white == gv.white,
        spec_unstep(spec_step(gv, m)).turn == gv.turn,
        spec_unstep(spec_step(gv, m)).ko == gv.ko,
        spec_unstep(spec_step(gv, m)).history == gv.history,
        spec_unstep(spec_step(gv, m)).history.len() == gv.history.len(),
{
    let w = gv.width as int;
    let h = gv.height as int;
    let s = spec_step(gv, m);
    let u = spec_unstep(s);
    match m {
        Move::Pass => {
            assert(false);
        },
        Move::Place { col, row } => {
            let pos = Position { col, row };
            let idx = pos.spec_index(w);
            let p = gv.turn;
            let pv = place_stone(gv, idx, p);
            let cap = spec_captured(gv, idx, p);
            lemma_area(gv);
            lemma_index_in_area(pos, w, h);
            lemma_captured_in_opponent(gv, col, row);
            let e = crate::game::EntryV { mv: m, captured: cap, prev_ko: gv.ko };
            assert(s.history == gv.history.push(e));
            assert(s.history.last() == e);
            assert(s.history.drop_last() =~= gv.history);
            assert(s.turn == p.spec_opposite());
            assert(u.turn == p);
            assert(gv.empty_cells()[idx]);
            assert(!gv.black[idx] && !gv.white[idx]);
            if p is Black {
                assert(s.black == pv.black && s.white == seq_andnot(pv.white, cap));
                assert(u.black =~= gv.black) by {
                    assert forall|i: int| 0 <= i < 1024 implies u.black[i] == gv.black[i] by {
                        if cap[i] {
                            assert(!gv.black[i]);
                        }
                    }
                }
                assert(u.white =~= gv.white) by {
                    assert forall|i: int| 0 <= i < 1024 implies u.white[i] == gv.white[i] by {
                        if cap[i] {
                            assert(gv.white[i] && i != idx);
                        }
                    }
                }
            } else {
                assert(s.white == pv.white && s.black == seq_andnot(pv.black, cap));
                assert(u.white =~= gv.white) by {
                    assert forall|i: int| 0 <= i < 1024 implies u.white[i] == gv.white[i] by {
                        if cap[i] {
                            assert(!gv.white[i]);
                        }
                    }
                }
                assert(u.black =~= gv.black) by {
                    assert forall|i: int| 0 <= i < 1024 implies u.black[i] == gv.black[i] by {
                        if cap[i] {
                            assert(gv.black[i] && i != idx);
                        }
                    }
                }
            }
        },
    }
}

/// A legal placement never leaves the placing group dead without
/// compensation: either the placed group has a liberty the moment the
/// stone stands, or at least one opponent stone is captured. Positions
/// reachable by legal play keep every group alive, which the
/// `color_alive` premise captures.
pub proof fn lemma_no_suicide_allowed(gv: GameV, col: u8, row: u8)
    requires
        gv.wf(),
        color_alive(gv, gv.turn.spec_opposite()),
        spec_move_legal(gv, Move::Place { col, row }),
    ensures
        has_liberty(
            gv.width as int,
            gv.height as int,
            place_stone(gv, (Position { col, row }).spec_index(gv.width as int), gv.turn)
                .empty_cells(),
            group_of(
                gv.width as int,
                gv.height as int,
                place_stone(gv, (Position { col, row }).spec_index(gv.width as int), gv.turn)
                    .stones_of(gv.turn),
                (Position { col, row }).spec_index(gv.width as int),
            ),
        ) || popcount(
            spec_captured(gv, (Position { col, row }).spec_index(gv.width as int), gv.turn),
        ) >= 1,
{
    let w = gv.width as int;
    let h = gv.height as int;
    let pos = Position { col, row };
    let idx = pos.spec_index(w);
    let p = gv.turn;
    let pv = place_stone(gv, idx, p);
    let own = pv.stones_of(p);
    let opp = pv.stones_of(p.spec_opposite());
    let g = group_of(w, h, own, idx);
    let cap = spec_captured(gv, idx, p);
    lemma_area(gv);
    lemma_index_in_area(pos, w, h);
    assert(!spec_suicide(gv, idx, p));
    if !has_liberty(w, h, pv.empty_cells(), g) {
        // Legality then rests on a capture: some opponent group adjacent
        // to the placed group has no liberty left.
        let n = choose|n: int|
            0 <= n < 1024 && opp[n] && (exists|a: int, b: int|
                0 <= a < 1024 && 0 <= b < 1024 && g[a] && group_of(w, h, opp, n)[b] && adjacent(
                    w,
                    h,
                    a,
                    b,
                )) && !has_liberty(w, h, pv.empty_cells(), group_of(w, h, opp, n));
        let gn = group_of(w, h, opp, n);
        // Before the stone stood, that group was alive; its lost liberty
        // can only be the placed cell itself.
        assert(opp == gv.stones_of(p.spec_opposite()));
        assert(has_liberty(w, h, gv.empty_cells(), group_of(w, h, gv.stones_of(p.spec_opposite()), n)));
        let c0 = choose|c: int|
            0 <= c < 1024 && liberties_of(w, h, gv.empty_cells(), gn)[c];
        assert(gv.empty_cells()[c0]);
        if c0 != idx {
            assert(pv.empty_cells()[c0] == gv.empty_cells()[c0]);
            assert(liberties_of(w, h, pv.empty_cells(), gn)[c0]);
            assert(false);
        }
        // So some cell of the group borders the placed cell: the whole
        // group is captured.
        let b0 = choose|b: int| 0 <= b < 1024 && gn[b] && adjacent(w, h, b, c0);
        lemma_group_member(w, h, opp, n, b0);
        lemma_group_refl(w, h, opp, b0);
        lemma_group_same(w, h, opp, n, b0);
        assert(group_of(w, h, opp, b0) == gn);
        assert(adjacent(w, h, idx, b0));
        lemma_seed_forms(w, h, opp, b0, b0);
        assert(connected(w, h, opp, b0, b0)) by {
            crate::geometry::lemma_reaches_refl(w, h, opp, single_seq(b0), b0);
        }
        assert(cap[b0]);
        lemma_popcount_member(cap, b0);
    }
}

/// Setting the ko point bars exactly the immediate recapture: right
/// after a placement that sets a ko point, replaying that very cell is
/// illegal for the opponent.
pub proof fn lemma_ko_blocks_recapture(gv: GameV, m: Move, k: Position)
    requires
        gv.wf(),
        spec_move_legal(gv, m),
        spec_step(gv, m).ko == Some(k),
    ensures
        !spec_move_legal(spec_step(gv, m), Move::Place { col: k.col, row: k.row }),
{
    let s = spec_step(gv, m);
    assert(s.ko == Some(Position { col: k.col, row: k.row }));
}

/// A ko point set by a placement is a valid board cell and is empty in
/// the resulting position: it is the cell of the single captured stone.
/// This discharges the premises of `lemma_ko_cleared_by_any_move` for
/// the position right after a ko capture.
pub proof fn lemma_ko_cell_valid_and_empty(gv: GameV, col: u8, row: u8, k: Position)
    requires
        gv.wf(),
        spec_move_legal(gv, Move::Place { col, row }),
        spec_step(gv, Move::Place { col, row }).ko == Some(k),
    ensures
        k.spec_valid(gv.width as int, gv.height as int),
        spec_step(gv, Move::Place { col, row }).empty_cells()[k.spec_index(gv.width as int)],
{
    let w = gv.width as int;
    let h = gv.height as int;
    let m = Move::Place { col, row };
    let pos = Position { col, row };
    let idx = pos.spec_index(w);
    let p = gv.turn;
    let s = spec_step(gv, m);
    let cap = spec_captured(gv, idx, p);
    lemma_area(gv);
    lemma_index_in_area(pos, w, h);
    lemma_captured_in_opponent(gv, col, row);
    assert(spec_new_ko(gv, idx, p) == Some(k));
    assert(popcount(cap) == 1);
    if !(exists|b: int| 0 <= b < 1024 && cap[b]) {
        crate::bitboard::lemma_popcount_zero(cap);
    }
    let b = choose|b: int| 0 <= b < 1024 && cap[b];
    assert(cap[b]);
    assert(gv.stones_of(p.spec_opposite())[b] && !gv.stones_of(p)[b] && b != idx);
    assert(b < gv.area());
    crate::geometry::lemma_cell_bounds(b, w, h);
    assert(k == (Position { col: (b % w) as u8, row: (b / w) as u8 }));
    assert(k.spec_valid(w, h));
    assert(k.spec_index(w) == b) by {
        crate::geometry::lemma_cell_compose(b / w, b % w, w);
        assert((b / w) * w + (b % w) == b) by (nonlinear_arith)
            requires
                b == w * (b / w) + (b % w),
        ;
    }
    assert(!s.black[b] && !s.white[b]) by {
        if p is Black {
            assert(!gv.black[b]);
        } else {
            assert(!gv.white[b]);
        }
    }
    assert(s.empty_cells()[b]);
}

/// The ko bar lasts for one move only: whatever legal move intervenes,
/// the ko point afterwards is not the barred cell, so the ko rule no
/// longer rejects it. The premises hold of the position right after a
/// single-stone ko capture: the barred cell is a valid, empty cell.
pub proof fn lemma_ko_cleared_by_any_move(s: GameV, m2: Move, k: Position)
    requires
        s.wf(),
        s.ko == Some(k),
        k.spec_valid(s.width as int, s.height as int),
        s.empty_cells()[k.spec_index(s.width as int)],
        spec_move_legal(s, m2),
    ensures
        spec_step(s, m2).ko != Some(k),
{
    let w = s.width as int;
    let h = s.height as int;
    let kidx = k.spec_index(w);
    lemma_area(s);
    lemma_index_in_area(k, w, h);
    match m2 {
        Move::Pass => {},
        Move::Place { col, row } => {
            let pos = Position { col, row };
            let idx = pos.spec_index(w);
            let p = s.turn;
            lemma_index_in_area(pos, w, h);
            assert(pos != k);
            assert(idx != kidx) by {
                if idx == kidx {
                    crate::position::lemma_index_injective(pos, k, w, h);
                }
            }
            let cap = spec_captured(s, idx, p);
            if spec_step(s, m2).ko == Some(k) {
                assert(popcount(cap) == 1);
                if !(exists|b: int| 0 <= b < 1024 && cap[b]) {
                    crate::bitboard::lemma_popcount_zero(cap);
                }
                let b = choose|b: int| 0 <= b < 1024 && cap[b];
                assert(cap[b]);
                assert(place_stone(s, idx, p).stones_of(p.spec_opposite())[b]);
                assert(s.stones_of(p.spec_opposite())[b]);
                assert(b != kidx);
                let kb = Position { col: (b % w) as u8, row: (b / w) as u8 };
                assert(Some(kb) == Some(k));
                assert(0 <= b < s.area());
                crate::geometry::lemma_cell_bounds(b, w, h);
                assert(kb.spec_valid(w, h));
                assert(kb.spec_index(w) == b) by {
                    crate::geometry::lemma_cell_compose(b / w, b % w, w);
                    assert((b / w) * w + (b % w) == b) by (nonlinear_arith)
                        requires
                            b == w * (b / w) + (b % w),
                    ;
                }
                assert(false);
            }
        },
    }
}

/// An empty region bordered by one color alone is that color's
/// territory, every cell of it; a region that touches both colors is
/// territory for neither.
pub proof fn lemma_exclusive_territory(gv: GameV, c: int)
    requires
        gv.wf(),
        0 <= c < 1024,
        gv.empty_cells()[c],
    ensures
        (region_touches(gv, group_of(gv.width as int, gv.height as int, gv.empty_cells(), c), Player::Black)
            && !region_touches(
            gv,
            group_of(gv.width as int, gv.height as int, gv.empty_cells(), c),
            Player::White,
        )) ==> (forall|y: int|
            0 <= y < 1024 && #[trigger] group_of(
                gv.width as int,
                gv.height as int,
                gv.empty_cells(),
                c,
            )[y] ==> territory_of(gv, Player::Black)[y]),
        (region_touches(gv, group_of(gv.width as int, gv.height as int, gv.empty_cells(), c), Player::Black)
            && region_touches(
            gv,
            group_of(gv.width as int, gv.height as int, gv.empty_cells(), c),
            Player::White,
        )) ==> (forall|y: int|
            0 <= y < 1024 && #[trigger] group_of(
                gv.width as int,
                gv.height as int,
                gv.empty_cells(),
                c,
            )[y] ==> !territory_of(gv, Player::Black)[y] && !territory_of(gv, Player::White)[y]),
{
    let w = gv.width as int;
    let h = gv.height as int;
    let e = gv.empty_cells();
    let rg = group_of(w, h, e, c);
    assert forall|y: int| 0 <= y < 1024 && #[trigger] rg[y] implies group_of(w, h, e, y) == rg
        && e[y] by {
        lemma_group_member(w, h, e, c, y);
        lemma_group_same(w, h, e, c, y);
    }
}

/// Every cell of a walk is joined to the walk's start.
proof fn lemma_path_cells_connected(w: int, h: int, mask: Seq<bool>, p: Seq<int>, k: int)
    requires
        crate::geometry::is_path(w, h, mask, p),
        0 <= k < p.len(),
    ensures
        connected(w, h, mask, p[0], p[k]),
{
    let q = p.subrange(0, k + 1);
    assert(q[0] == p[0] && q.last() == p[k]);
    assert forall|j: int| 0 <= j < q.len() implies 0 <= #[trigger] q[j] < 1024 && mask[q[j]] by {
        assert(q[j] == p[j]);
    }
    assert forall|j: int| 0 <= j < q.len() - 1 implies adjacent(w, h, #[trigger] q[j], q[j + 1]) by {
        assert(q[j] == p[j] && q[j + 1] == p[j + 1]);
    }
    assert(crate::geometry::is_path(w, h, mask, q) && single_seq(p[0])[q[0]] && q.last() == p[k]);
}

/// Removing cells that lie wholly outside a group leaves that group
/// intact.
proof fn lemma_group_unaffected(
    w: int,
    h: int,
    stones: Seq<bool>,
    stones2: Seq<bool>,
    rem: Seq<bool>,
    b: int,
)
    requires
        stones.len() == 1024,
        stones2.len() == 1024,
        0 <= b < 1024,
        stones2[b],
        forall|i: int| 0 <= i < 1024 ==> stones2[i] == (stones[i] && !rem[i]),
        forall|x: int| 0 <= x < 1024 && #[trigger] group_of(w, h, stones, b)[x] ==> !rem[x],
    ensures
        group_of(w, h, stones2, b) == group_of(w, h, stones, b),
{
    lemma_group_connected(w, h, stones, b);
    lemma_group_connected(w, h, stones2, b);
    assert forall|x: int|
        0 <= x < 1024 implies group_of(w, h, stones2, b)[x] == group_of(w, h, stones, b)[x] by {
        if group_of(w, h, stones2, b)[x] {
            let p = choose|p: Seq<int>|
                crate::geometry::is_path(w, h, stones2, p) && single_seq(b)[p[0]] && p.last() == x;
            assert forall|j: int| 0 <= j < p.len() implies 0 <= #[trigger] p[j] < 1024
                && stones[p[j]] by {}
            assert(crate::geometry::is_path(w, h, stones, p) && single_seq(b)[p[0]] && p.last()
                == x);
            assert(connected(w, h, stones, b, x));
        }
        if group_of(w, h, stones, b)[x] {
            let p = choose|p: Seq<int>|
                crate::geometry::is_path(w, h, stones, p) && single_seq(b)[p[0]] && p.last() == x;
            assert forall|j: int| 0 <= j < p.len() implies 0 <= #[trigger] p[j] < 1024
                && stones2[p[j]] by {
                lemma_path_cells_connected(w, h, stones, p, j);
                assert(group_of(w, h, stones, b)[p[j]]);
            }
            assert(crate::geometry::is_path(w, h, stones2, p) && single_seq(b)[p[0]] && p.last()
                == x);
            assert(connected(w, h, stones2, b, x));
        }
    }
    assert(group_of(w, h, stones2, b) =~= group_of(w, h, stones, b));
}

/// After any accepted placement, no opponent group with zero liberties
/// remains on the board: every group that lost its last liberty to the
/// new stone has been captured, and the survivors keep a liberty.
pub proof fn lemma_capture_complete(gv: GameV, col: u8, row: u8)
    requires
        gv.wf(),
        color_alive(gv, gv.turn.spec_opposite()),
        spec_move_legal(gv, Move::Place { col, row }),
    ensures
        color_alive(spec_step(gv, Move::Place { col, row }), gv.turn.spec_opposite()),
{
    let w = gv.width as int;
    let h = gv.height as int;
    let m = Move::Place { col, row };
    let pos = Position { col, row };
    let idx = pos.spec_index(w);
    let p = gv.turn;
    let q = p.spec_opposite();
    let s = spec_step(gv, m);
    let pv = place_stone(gv, idx, p);
    let capv = spec_captured(gv, idx, p);
    let sq = gv.stones_of(q);
    let sq2 = s.stones_of(q);
    lemma_area(gv);
    lemma_index_in_area(pos, w, h);
    lemma_captured_in_opponent(gv, col, row);
    assert(pv.stones_of(q) == sq);
    assert(sq2 == seq_andnot(pv.stones_of(q), capv));
    assert(s.area() == gv.area());
    assert(s.width == gv.width && s.height == gv.height);
    assert(gv.empty_cells()[idx]);
    assert forall|b: int| 0 <= b < 1024 && sq2[b] implies has_liberty(
        w,
        h,
        s.empty_cells(),
        group_of(w, h, sq2, b),
    ) by {
        assert(sq[b] && !capv[b]);
        let g = group_of(w, h, sq, b);
        lemma_group_refl(w, h, sq, b);
        lemma_group_connected(w, h, sq, b);
        assert(has_liberty(w, h, gv.empty_cells(), g));
        // The group is untouched by the captures: were any of its cells
        // captured, the whole group would be, including `b`.
        assert forall|x: int| 0 <= x < 1024 && #[trigger] g[x] implies !capv[x] by {
            if capv[x] {
                let n = choose|n: int|
                    0 <= n < 1024 && adjacent(w, h, idx, n) && connected(w, h, sq, n, x);
                lemma_group_member(w, h, sq, b, x);
                lemma_group_same(w, h, sq, b, x);
                assert(group_of(w, h, sq, x) == g);
                assert(!has_liberty(w, h, pv.empty_cells(), g));
                crate::geometry::lemma_connected_sym(w, h, sq, b, x);
                crate::geometry::lemma_connected_trans(w, h, sq, n, x, b);
                assert(connected(w, h, sq, n, b));
                assert(capv[b]);
                assert(false);
            }
        }
        lemma_group_unaffected(w, h, sq, sq2, capv, b);
        assert(group_of(w, h, sq2, b) == g);
        // The group still has a liberty once the stone stands: had the
        // placement taken its last one, it would have been captured.
        assert(has_liberty(w, h, pv.empty_cells(), g)) by {
            if !has_liberty(w, h, pv.empty_cells(), g) {
                let c0 = choose|c: int|
                    0 <= c < 1024 && liberties_of(w, h, gv.empty_cells(), g)[c];
                assert(gv.empty_cells()[c0]);
                if c0 != idx {
                    assert(pv.empty_cells()[c0]);
                    assert(liberties_of(w, h, pv.empty_cells(), g)[c0]);
                    assert(false);
                }
                let b0 = choose|b0: int| 0 <= b0 < 1024 && g[b0] && adjacent(w, h, b0, c0);
                lemma_group_member(w, h, sq, b, b0);
                assert(adjacent(w, h, idx, b0));
                crate::geometry::lemma_connected_sym(w, h, sq, b, b0);
                assert(connected(w, h, sq, b0, b));
                lemma_group_same(w, h, sq, b, b0);
                assert(group_of(w, h, sq, b) == group_of(w, h, sq, b0));
                assert(capv[b]);
                assert(false);
            }
        }
        let c1 = choose|c: int| 0 <= c < 1024 && liberties_of(w, h, pv.empty_cells(), g)[c];
        assert(pv.empty_cells()[c1]);
        assert(s.empty_cells()[c1]) by {
            assert(!pv.stones_of(p)[c1] && !pv.stones_of(q)[c1]);
            if p is Black {
                assert(!s.black[c1] && !s.white[c1]);
            } else {
                assert(!s.black[c1] && !s.white[c1]);
            }
        }
        let b1 = choose|b1: int| 0 <= b1 < 1024 && g[b1] && adjacent(w, h, b1, c1);
        assert(liberties_of(w, h, s.empty_cells(), group_of(w, h, sq2, b))[c1]);
    }
}

/// After any accepted move, the two colors still share no cell.
pub proof fn lemma_step_keeps_colors_disjoint(gv: GameV, m: Move)
    requires
        gv.wf(),
        spec_move_legal(gv, m),
    ensures
        forall|i: int|
            0 <= i < 1024 ==> !(spec_step(gv, m).black[i] && spec_step(gv, m).white[i]),
{
    let s = spec_step(gv, m);
    match m {
        Move::Pass => {},
        Move::Place { col, row } => {
            let w = gv.width as int;
            let pos = Position { col, row };
            let idx = pos.spec_index(w);
            let p = gv.turn;
            lemma_area(gv);
            lemma_index_in_area(pos, w, gv.height as int);
            lemma_captured_in_opponent(gv, col, row);
            assert(gv.empty_cells()[idx]);
            assert forall|i: int| 0 <= i < 1024 implies !(s.black[i] && s.white[i]) by {
                if i != idx {
                    assert(!(gv.black[i] && gv.white[i]));
                }
            }
        },
    }
}

/// Applying a sequence of moves through the rules engine, skipping
/// illegal ones exactly as `make_move` does.
pub open spec fn run_moves(gv: GameV, ms: Seq<Move>) -> GameV
    decreases ms.len(),
{
    if ms.len() == 0 {
        gv
    } else {
        let next = if spec_move_legal(gv, ms[0]) {
            spec_step(gv, ms[0])
        } else {
            gv
        };
        run_moves(next, ms.subrange(1, ms.len() as int))
    }
}

/// The engine is deterministic: two games in the same observable state
/// fed the same move sequence stay observably equal in every field.
/// Together with the contracts of the constructors and of `make_move`
/// (whose outcome is a function of the observable state alone), two
/// games built identically and fed the same moves remain equal.
pub proof fn lemma_runs_agree(g1: GameV, g2: GameV, ms: Seq<Move>)
    requires
        g1 == g2,
    ensures
        run_moves(g1, ms) == run_moves(g2, ms),
    decreases ms.len(),
{
    if ms.len() > 0 {
        let n1 = if spec_move_legal(g1, ms[0]) {
            spec_step(g1, ms[0])
        } else {
            g1
        };
        let n2 = if spec_move_legal(g2, ms[0]) {
            spec_step(g2, ms[0])
        } else {
            g2
        };
        lemma_runs_agree(n1, n2, ms.subrange(1, ms.len() as int));
    }
}

} // verus!
