//! The global laws of the game core, proved once and for all: rotation
//! preserves the occupied-cell count, opposite rotations cancel, every
//! move or rotation attempt leaves board and piece mutually consistent,
//! and a translation attempt followed by its exact inverse restores
//! board and piece.

use vstd::prelude::*;

use vstd::relations::injective_on;
use vstd::set_lib::lemma_map_size;

use crate::cell::BlockColour;
use crate::engine::fits;
use crate::engine::lifted;
use crate::engine::move_result;
use crate::engine::place;
use crate::engine::reflects;
use crate::engine::rotate_ccw_result;
use crate::engine::rotate_cw_result;
use crate::engine::rotate_result;
use crate::grid::GridView;
use crate::piece::lemma_occ_cells_finite;
use crate::piece::PieceView;

verus! {

/// Rotating a piece either way permutes its occupied cells, so the
/// occupied-cell count is unchanged, and the result is well formed.
pub proof fn lemma_rotation_preserves_count(p: PieceView)
    requires
        p.wf(),
    ensures
        p.rotated_cw().wf(),
        p.rotated_ccw().wf(),
        p.rotated_cw().occupied_count() == p.occupied_count(),
        p.rotated_ccw().occupied_count() == p.occupied_count(),
{
    lemma_occ_cells_finite(p);
    let u = p.rotated_cw();
    let f = |q: (int, int)| (p.height - 1 - q.1, q.0);
    assert forall|q2: (int, int)| u.occ_cells().contains(q2) implies p.occ_cells().map(
        f,
    ).contains(q2) by {
        let q = (q2.1, p.height - 1 - q2.0);
        assert(p.occ_cells().contains(q));
        assert(f(q) == q2);
    }
    assert(p.occ_cells().map(f) =~= u.occ_cells());
    assert(injective_on(f, p.occ_cells()));
    lemma_map_size(p.occ_cells(), u.occ_cells(), f);

    let v = p.rotated_ccw();
    let h = |q: (int, int)| (q.1, p.width - 1 - q.0);
    assert forall|q2: (int, int)| v.occ_cells().contains(q2) implies p.occ_cells().map(
        h,
    ).contains(q2) by {
        let q = (p.width - 1 - q2.1, q2.0);
        assert(p.occ_cells().contains(q));
        assert(h(q) == q2);
    }
    assert(p.occ_cells().map(h) =~= v.occ_cells());
    assert(injective_on(h, p.occ_cells()));
    lemma_map_size(p.occ_cells(), v.occ_cells(), h);
}

/// A piece after a sequence of rotations, a quarter turn each: `true`
/// turns clockwise, `false` counterclockwise.
pub open spec fn rotated_by(p: PieceView, turns: Seq<bool>) -> PieceView
    decreases turns.len(),
{
    if turns.len() == 0 {
        p
    } else if turns[0] {
        rotated_by(p.rotated_cw(), turns.drop_first())
    } else {
        rotated_by(p.rotated_ccw(), turns.drop_first())
    }
}

/// The occupied-cell count is invariant under any sequence of rotations.
pub proof fn lemma_rotation_sequence_preserves_count(p: PieceView, turns: Seq<bool>)
    requires
        p.wf(),
    ensures
        rotated_by(p, turns).wf(),
        rotated_by(p, turns).occupied_count() == p.occupied_count(),
    decreases turns.len(),
{
    if turns.len() > 0 {
        lemma_rotation_preserves_count(p);
        if turns[0] {
            lemma_rotation_sequence_preserves_count(p.rotated_cw(), turns.drop_first());
        } else {
            lemma_rotation_sequence_preserves_count(p.rotated_ccw(), turns.drop_first());
        }
    }
}

/// A quarter turn one way followed by a quarter turn the other way
/// restores the original occupancy mask, bounding box, position and
/// colour.
pub proof fn lemma_rotation_round_trip(p: PieceView)
    requires
        p.wf(),
    ensures
        p.rotated_cw().rotated_ccw() == p,
        p.rotated_ccw().rotated_cw() == p,
{
    assert(p.rotated_cw().rotated_ccw().mask =~~= p.mask);
    assert(p.rotated_ccw().rotated_cw().mask =~~= p.mask);
}

/// Writing a piece into a board whose cells it legally occupies leaves a
/// board that reflects the piece.
proof fn lemma_place_reflects(g: GridView, p: PieceView)
    requires
        forall|lx: int, ly: int|
            0 <= lx < p.width && 0 <= ly < p.height && #[trigger] p.occ(lx, ly) ==> g.in_bounds(
                p.x + lx,
                p.y + ly,
            ),
    ensures
        reflects(place(g, p, p.colour), p),
{
    assert forall|lx: int, ly: int|
        0 <= lx < p.width && 0 <= ly < p.height && #[trigger] p.occ(lx, ly) implies place(
        g,
        p,
        p.colour,
    ).in_bounds(p.x + lx, p.y + ly) && place(g, p, p.colour).cell(p.x + lx, p.y + ly)
        == p.colour by {
        assert(p.covers(p.x + lx, p.y + ly));
    }
}

/// Every translation attempt, successful or not, leaves the board
/// reflecting the piece it returns: grid and piece stay mutually
/// consistent.
pub proof fn lemma_move_keeps_consistency(g: GridView, p: PieceView, dx: int, dy: int)
    requires
        g.wf(),
        p.wf(),
        reflects(g, p),
    ensures
        reflects(move_result(g, p, dx, dy).0, move_result(g, p, dx, dy).1),
{
    let g0 = lifted(g, p);
    let m = p.translated(dx, dy);
    if fits(m, g0) {
        lemma_place_reflects(g0, m);
    } else {
        lemma_place_reflects(g0, p);
    }
}

/// Every rotation attempt, kicked or rolled back, leaves the board
/// reflecting the piece it returns: grid and piece stay mutually
/// consistent.
pub proof fn lemma_rotation_keeps_consistency(g: GridView, p: PieceView)
    requires
        g.wf(),
        p.wf(),
        reflects(g, p),
    ensures
        reflects(rotate_cw_result(g, p).0, rotate_cw_result(g, p).1),
        reflects(rotate_ccw_result(g, p).0, rotate_ccw_result(g, p).1),
{
    lemma_rotation_rollback_case(g, p, p.rotated_cw());
    lemma_rotation_rollback_case(g, p, p.rotated_ccw());
}

/// Consistency of one rotation attempt, for either turn direction.
proof fn lemma_rotation_rollback_case(g: GridView, p: PieceView, r0: PieceView)
    requires
        g.wf(),
        p.wf(),
        reflects(g, p),
        r0.colour == p.colour,
    ensures
        reflects(rotate_result(g, p, r0).0, rotate_result(g, p, r0).1),
{
    let g0 = lifted(g, p);
    if fits(r0, g0) {
        lemma_place_reflects(g0, r0);
    } else {
        let lk = r0.translated(-1, 0);
        if fits(lk, g0) {
            lemma_place_reflects(g0, lk);
        } else {
            let rk = r0.translated(1, 0);
            if fits(rk, g0) {
                lemma_place_reflects(g0, rk);
            } else {
                lemma_place_reflects(g0, p);
            }
        }
    }
}

/// A translation attempt followed by its exact inverse: if the forward
/// move was illegal, neither board nor piece has changed at all; if it
/// was legal, the inverse move succeeds and restores board and piece
/// exactly. Holds whenever the board reflects the piece's current legal
/// placement.
pub proof fn lemma_move_round_trip(g: GridView, p: PieceView, dx: int, dy: int)
    requires
        g.wf(),
        p.wf(),
        reflects(g, p),
    ensures
        !move_result(g, p, dx, dy).2 ==> move_result(g, p, dx, dy).0 == g && move_result(
            g,
            p,
            dx,
            dy,
        ).1 == p,
        move_result(g, p, dx, dy).2 ==> move_result(
            move_result(g, p, dx, dy).0,
            move_result(g, p, dx, dy).1,
            -dx,
            -dy,
        ) == (g, p, true),
{
    let g0 = lifted(g, p);
    assert(place(g0, p, p.colour).cells =~~= g.cells) by {
        assert forall|r: int, cc: int|
            0 <= r < g.cells.len() && 0 <= cc < g.width implies place(g0, p, p.colour).cells[r][cc]
            == g.cells[r][cc] by {
            if p.covers(cc, r) {
                assert(p.occ(cc - p.x, r - p.y));
                assert(g.cell(cc, r) == p.colour);
            }
        }
    }
    assert(place(g0, p, p.colour) == g);
    let m = p.translated(dx, dy);
    if fits(m, g0) {
        let g1 = place(g0, m, p.colour);
        assert(lifted(g1, m).cells =~~= g0.cells) by {
            assert forall|r: int, cc: int|
                0 <= r < g.cells.len() && 0 <= cc < g.width implies lifted(g1, m).cells[r][cc]
                == g0.cells[r][cc] by {
                if m.covers(cc, r) {
                    assert(m.occ(cc - m.x, r - m.y));
                    assert(g0.cell(cc, r) == BlockColour::Empty);
                }
            }
        }
        assert(lifted(g1, m) == g0);
        assert(m.translated(-dx, -dy) == p);
        assert(fits(p, g0)) by {
            assert forall|lx: int, ly: int|
                0 <= lx < p.width && 0 <= ly < p.height && #[trigger] p.occ(lx, ly) implies
                g0.in_bounds(p.x + lx, p.y + ly) && g0.cell(p.x + lx, p.y + ly)
                == BlockColour::Empty by {
                assert(p.covers(p.x + lx, p.y + ly));
            }
        }
    }
}

} // verus!
