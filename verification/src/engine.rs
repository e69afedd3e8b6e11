//! Specification of the legality and movement engine: what it means for
//! a piece to fit the board, how writing a piece into the board changes
//! it, and the exact outcome of a move or rotation attempt (including
//! wall-kick recovery and rollback).

use vstd::prelude::*;

use crate::cell::BlockColour;
use crate::grid::GridView;
use crate::piece::PieceView;

verus! {

/// A placement is legal iff every occupied cell of the piece lands on an
/// in-bounds, empty cell of the board. A cell with a negative absolute
/// coordinate is out of bounds and therefore illegal.
pub open spec fn fits(p: PieceView, g: GridView) -> bool {
    forall|lx: int, ly: int|
        0 <= lx < p.width && 0 <= ly < p.height && #[trigger] p.occ(lx, ly) ==> g.in_bounds(
            p.x + lx,
            p.y + ly,
        ) && g.cell(p.x + lx, p.y + ly) == BlockColour::Empty
}

/// Like `PieceView::covers`, restricted to the piece's cells with flat
/// row-major mask index below `k`: the part of the piece a scan of the
/// mask has reached.
pub open spec fn covers_upto(p: PieceView, gx: int, gy: int, k: int) -> bool {
    p.covers(gx, gy) && (gy - p.y) * p.width + (gx - p.x) < k
}

/// The board after writing `c` at every in-bounds cell the piece covers;
/// covered cells that lie off the board are skipped.
pub open spec fn place(g: GridView, p: PieceView, c: BlockColour) -> GridView {
    GridView {
        width: g.width,
        cells: Seq::new(
            g.cells.len(),
            |r: int|
                Seq::new(
                    g.width,
                    |cc: int|
                        if p.covers(cc, r) {
                            c
                        } else {
                            g.cells[r][cc]
                        },
                ),
        ),
    }
}

/// The board with the piece's cells blanked out: the piece lifted off the
/// board, so that a legality test does not see the piece's own cells.
pub open spec fn lifted(g: GridView, p: PieceView) -> GridView {
    place(g, p, BlockColour::Empty)
}

/// The board reflects the piece: every cell the piece occupies is in
/// bounds and holds the piece's colour. The movement engine establishes
/// this after every attempt, successful or not.
pub open spec fn reflects(g: GridView, p: PieceView) -> bool {
    forall|lx: int, ly: int|
        0 <= lx < p.width && 0 <= ly < p.height && #[trigger] p.occ(lx, ly) ==> g.in_bounds(
            p.x + lx,
            p.y + ly,
        ) && g.cell(p.x + lx, p.y + ly) == p.colour
}

/// Outcome of a translation attempt, as `(board, piece, success)`: the
/// piece is lifted off the board and moved; if the moved piece fits, it
/// is kept, else the move is rolled back; either way the final piece is
/// written back.
pub open spec fn move_result(g: GridView, p: PieceView, dx: int, dy: int) -> (
    GridView,
    PieceView,
    bool,
) {
    let g0 = lifted(g, p);
    let m = p.translated(dx, dy);
    if fits(m, g0) {
        (place(g0, m, p.colour), m, true)
    } else {
        (place(g0, p, p.colour), p, false)
    }
}

/// Outcome of a rotation attempt given the rotated piece `r0`, as
/// `(board, piece, success)`: if the rotation does not fit, a wall kick
/// one column to the left is tried, then one column to the right; if
/// neither fits, the original piece `p` is restored.
pub open spec fn rotate_result(g: GridView, p: PieceView, r0: PieceView) -> (
    GridView,
    PieceView,
    bool,
) {
    let g0 = lifted(g, p);
    if fits(r0, g0) {
        (place(g0, r0, p.colour), r0, true)
    } else {
        let lk = r0.translated(-1, 0);
        if fits(lk, g0) {
            (place(g0, lk, p.colour), lk, true)
        } else {
            let rk = r0.translated(1, 0);
            if fits(rk, g0) {
                (place(g0, rk, p.colour), rk, true)
            } else {
                (place(g0, p, p.colour), p, false)
            }
        }
    }
}

/// Outcome of a clockwise rotation attempt.
pub open spec fn rotate_cw_result(g: GridView, p: PieceView) -> (GridView, PieceView, bool) {
    rotate_result(g, p, p.rotated_cw())
}

/// Outcome of a counterclockwise rotation attempt.
pub open spec fn rotate_ccw_result(g: GridView, p: PieceView) -> (GridView, PieceView, bool) {
    rotate_result(g, p, p.rotated_ccw())
}

} // verus!
