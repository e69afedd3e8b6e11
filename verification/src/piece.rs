//! The falling piece: a bounding box with an occupancy bitmask, a signed
//! position over the board, and a colour; with rotation, translation, and
//! the legality and movement engine that keeps piece and board consistent.

use vstd::prelude::*;

use crate::cell::BlockColour;
use crate::engine::covers_upto;
use crate::engine::fits;
use crate::engine::lifted;
use crate::engine::move_result;
use crate::engine::place;
use crate::engine::rotate_ccw_result;
use crate::engine::rotate_cw_result;
use crate::flat::lemma_flat_index_bound;
use crate::flat::lemma_flat_index_unique;
use crate::grid::Board;
use crate::laws::lemma_rotation_round_trip;

verus! {

/// Mathematical model of a piece: bounding-box size, absolute position of
/// the box's top-left corner (either coordinate may be negative), colour,
/// and the occupancy mask as rows of booleans, top first.
pub ghost struct PieceView {
    pub width: nat,
    pub height: nat,
    pub x: int,
    pub y: int,
    pub colour: BlockColour,
    pub mask: Seq<Seq<bool>>,
}

impl PieceView {
    pub open spec fn wf(self) -> bool {
        &&& self.width >= 1
        &&& self.height >= 1
        &&& self.mask.len() == self.height
        &&& forall|r: int|
            0 <= r < self.mask.len() ==> (#[trigger] self.mask[r]).len() == self.width
    }

    /// Occupancy of the local cell `(lx, ly)` of the bounding box.
    pub open spec fn occ(self, lx: int, ly: int) -> bool {
        self.mask[ly][lx]
    }

    /// Does the piece occupy the absolute cell `(gx, gy)`?
    pub open spec fn covers(self, gx: int, gy: int) -> bool {
        &&& 0 <= gx - self.x < self.width
        &&& 0 <= gy - self.y < self.height
        &&& self.occ(gx - self.x, gy - self.y)
    }

    /// The piece moved by `(dx, dy)`.
    pub open spec fn translated(self, dx: int, dy: int) -> PieceView {
        PieceView { x: self.x + dx, y: self.y + dy, ..self }
    }

    /// Clockwise rotation: the source cell `(x, y)` of a `W`-by-`H` box
    /// maps to `(H - 1 - y, x)` of the `H`-by-`W` result. Position and
    /// colour are unchanged.
    pub open spec fn rotated_cw(self) -> PieceView {
        PieceView {
            width: self.height,
            height: self.width,
            x: self.x,
            y: self.y,
            colour: self.colour,
            mask: Seq::new(
                self.width,
                |ny: int|
                    Seq::new(self.height, |nx: int| self.mask[self.height - 1 - nx][ny]),
            ),
        }
    }

    /// Counterclockwise rotation, the inverse mapping: the source cell
    /// `(x, y)` maps to `(y, W - 1 - x)`.
    pub open spec fn rotated_ccw(self) -> PieceView {
        PieceView {
            width: self.height,
            height: self.width,
            x: self.x,
            y: self.y,
            colour: self.colour,
            mask: Seq::new(
                self.width,
                |ny: int|
                    Seq::new(self.height, |nx: int| self.mask[nx][self.width - 1 - ny]),
            ),
        }
    }
}

impl PieceView {
    /// The set of occupied local cells of the bounding box.
    pub open spec fn occ_cells(self) -> Set<(int, int)> {
        Set::new(
            |q: (int, int)| 0 <= q.0 < self.width && 0 <= q.1 < self.height && self.occ(q.0, q.1),
        )
    }

    /// How many cells of the bounding box are occupied.
    pub open spec fn occupied_count(self) -> nat {
        self.occ_cells().len()
    }

    /// The occupied local cells whose flat row-major index is below `k`.
    pub open spec fn occ_cells_upto(self, k: int) -> Set<(int, int)> {
        Set::new(
            |q: (int, int)|
                0 <= q.0 < self.width && 0 <= q.1 < self.height && self.occ(q.0, q.1) && q.1
                    * self.width + q.0 < k,
        )
    }
}

/// The occupied cells with flat index below `k` form a finite set of at
/// most `k` cells.
pub proof fn lemma_occ_cells_upto_finite(p: PieceView, k: int)
    requires
        p.wf(),
        k >= 0,
    ensures
        p.occ_cells_upto(k).finite(),
        p.occ_cells_upto(k).len() <= k,
    decreases k,
{
    if k == 0 {
        assert forall|q: (int, int)| !p.occ_cells_upto(0).contains(q) by {
            if 0 <= q.0 && 0 <= q.1 {
                assert(q.1 * p.width + q.0 >= 0) by (nonlinear_arith)
                    requires
                        q.0 >= 0,
                        q.1 >= 0,
                        p.width >= 0,
                ;
            }
        }
        assert(p.occ_cells_upto(0) =~= Set::<(int, int)>::empty());
    } else {
        lemma_occ_cells_upto_finite(p, k - 1);
        let prev = p.occ_cells_upto(k - 1);
        if exists|q: (int, int)| p.occ_cells_upto(k).contains(q) && q.1 * p.width + q.0 == k - 1 {
            let w = choose|q: (int, int)|
                p.occ_cells_upto(k).contains(q) && q.1 * p.width + q.0 == k - 1;
            assert forall|q: (int, int)| p.occ_cells_upto(k).contains(q) implies prev.insert(
                w,
            ).contains(q) by {
                if q.1 * p.width + q.0 == k - 1 {
                    lemma_flat_index_unique(p.width as int, q.0, q.1, w.0, w.1);
                }
            }
            assert(p.occ_cells_upto(k) =~= prev.insert(w));
        } else {
            assert(p.occ_cells_upto(k) =~= prev);
        }
    }
}

/// The occupied cells of a well-formed piece form a finite set of at most
/// `width * height` cells.
pub proof fn lemma_occ_cells_finite(p: PieceView)
    requires
        p.wf(),
    ensures
        p.occ_cells().finite(),
        p.occ_cells().len() <= p.width * p.height,
{
    lemma_occ_cells_upto_finite(p, (p.width * p.height) as int);
    assert forall|q: (int, int)| p.occ_cells().contains(q) implies p.occ_cells_upto(
        (p.width * p.height) as int,
    ).contains(q) by {
        lemma_flat_index_bound(q.0, q.1, p.width as int, p.height as int);
    }
    assert(p.occ_cells() =~= p.occ_cells_upto((p.width * p.height) as int));
}

/// Occupancy bit `i` of a shape layout word: bit order is row-major
/// layout order.
pub open spec fn layout_bit(layout: u16, i: int) -> bool {
    0 <= i < 16 && ((1u16 << (i as u16)) & layout) != 0
}

/// The falling piece.
pub struct Tetromino {
    width: usize,
    height: usize,
    /// Absolute position of the bounding box's top-left corner; may be
    /// negative or out of bounds (legality is checked separately).
    pub location: (i32, i32),
    /// Colour applied uniformly to all occupied cells.
    pub colour: BlockColour,
    contents: Vec<bool>,
}

impl View for Tetromino {
    type V = PieceView;

    closed spec fn view(&self) -> PieceView {
        PieceView {
            width: self.width as nat,
            height: self.height as nat,
            x: self.location.0 as int,
            y: self.location.1 as int,
            colour: self.colour,
            mask: Seq::new(
                self.height as nat,
                |r: int| Seq::new(self.width as nat, |c: int| self.contents@[r * self.width + c]),
            ),
        }
    }
}

impl Tetromino {
    pub closed spec fn wf(&self) -> bool {
        &&& self.width >= 1
        &&& self.height >= 1
        &&& self.width * self.height <= 16
        &&& self.contents@.len() == self.width * self.height
    }

    /// A well-formed piece has a well-formed model with a small bounding
    /// box.
    pub proof fn view_wf(&self)
        requires
            self.wf(),
        ensures
            self@.wf(),
            self@.width <= 16,
            self@.height <= 16,
            self@.width * self@.height <= 16,
    {
        assert(self.width <= 16 && self.height <= 16) by (nonlinear_arith)
            requires
                self.width >= 1,
                self.height >= 1,
                self.width * self.height <= 16,
        ;
    }

    /// Make a piece from a bounding-box size and a layout word whose bit
    /// `i` (in row-major order) gives the occupancy of local cell `i`.
    /// Excess bits of the layout are ignored. The piece starts at
    /// position `(0, 0)`; the driver places it at its spawn offset.
    pub fn new(size: (usize, usize), layout: u16, colour: BlockColour) -> (r: Tetromino)
        requires
            size.0 >= 1,
            size.1 >= 1,
            size.0 * size.1 <= 16,
        ensures
            r.wf(),
            r@.wf(),
            r@.width == size.0,
            r@.height == size.1,
            r@.x == 0,
            r@.y == 0,
            r@.colour == colour,
            forall|lx: int, ly: int|
                0 <= lx < size.0 && 0 <= ly < size.1 ==> #[trigger] r@.occ(lx, ly) == layout_bit(
                    layout,
                    ly * size.0 + lx,
                ),
    {
        let (width, height) = size;
        let n = width * height;
        let mut contents: Vec<bool> = Vec::new();
        let mut i: usize = 0;
        while i < n
            invariant
                n == width * height <= 16,
                i <= n,
                contents@.len() == i,
                forall|k: int| 0 <= k < i ==> contents@[k] == layout_bit(layout, k),
            decreases n - i,
        {
            let bit: u16 = 1u16 << (i as u16);
            contents.push((bit & layout) != 0);
            i = i + 1;
        }
        let r = Tetromino { width, height, location: (0, 0), colour, contents };
        proof {
            assert forall|lx: int, ly: int|
                0 <= lx < size.0 && 0 <= ly < size.1 implies #[trigger] r@.occ(lx, ly)
                == layout_bit(layout, ly * size.0 + lx) by {
                lemma_flat_index_bound(lx, ly, size.0 as int, size.1 as int);
            }
        }
        r
    }

    /// Bounding-box size `(width, height)` of the piece.
    pub fn size(&self) -> (r: (usize, usize))
        ensures
            r.0 == self@.width,
            r.1 == self@.height,
    {
        (self.width, self.height)
    }

    /// Local coordinates `(x, y)` of the cell at flat mask index `i`.
    fn locate(&self, i: usize) -> (r: (usize, usize))
        requires
            self.wf(),
            i < self.contents@.len(),
        ensures
            r.0 < self.width,
            r.1 < self.height,
            r.1 * self.width + r.0 == i,
            self@.occ(r.0 as int, r.1 as int) == self.contents@[i as int],
    {
        let y = i / self.width;
        let x = i % self.width;
        proof {
            assert(y * self.width + x == i && y < self.height && x < self.width)
                by (nonlinear_arith)
                requires
                    self.width >= 1,
                    self.height >= 1,
                    i < self.width * self.height,
                    y == i as int / self.width as int,
                    x == i as int % self.width as int,
            ;
        }
        (x, y)
    }

    /// Flat mask index of the local cell `coords`.
    fn index(&self, coords: (usize, usize)) -> (r: usize)
        requires
            self.wf(),
            coords.0 < self.width,
            coords.1 < self.height,
        ensures
            r == coords.1 * self.width + coords.0,
            r < self.contents@.len(),
    {
        let (x, y) = coords;
        proof {
            lemma_flat_index_bound(x as int, y as int, self.width as int, self.height as int);
        }
        (y * self.width) + x
    }

    /// Occupancy of row `y` of the bounding box.
    fn get_scan(&self, y: usize) -> (r: Vec<bool>)
        requires
            self.wf(),
            y < self.height,
        ensures
            r@ == self@.mask[y as int],
    {
        let mut scan: Vec<bool> = Vec::new();
        let mut block: usize = 0;
        while block < self.width
            invariant
                self.wf(),
                y < self.height,
                block <= self.width,
                scan@.len() == block,
                forall|c: int| 0 <= c < block ==> scan@[c] == self@.mask[y as int][c],
            decreases self.width - block,
        {
            let idx = self.index((block, y));
            scan.push(self.contents[idx]);
            block = block + 1;
        }
        assert(scan@ =~= self@.mask[y as int]);
        scan
    }

    /// Write occupancy `v` at the local cell `(x, y)`.
    fn set_local(&mut self, x: usize, y: usize, v: bool)
        requires
            old(self).wf(),
            x < old(self).width,
            y < old(self).height,
        ensures
            final(self).wf(),
            final(self).width == old(self).width,
            final(self).height == old(self).height,
            final(self).location == old(self).location,
            final(self).colour == old(self).colour,
            final(self)@.mask == old(self)@.mask.update(
                y as int,
                old(self)@.mask[y as int].update(x as int, v),
            ),
    {
        let idx = self.index((x, y));
        self.contents[idx] = v;
        proof {
            let m0 = old(self)@.mask;
            let m1 = self@.mask;
            let target = m0.update(y as int, m0[y as int].update(x as int, v));
            assert forall|r: int| 0 <= r < m1.len() implies m1[r] =~= target[r] by {
                assert forall|c: int| 0 <= c < self.width as int implies m1[r][c] == target[r][c] by {
                    lemma_flat_index_bound(c, r, self.width as int, self.height as int);
                    if r * self.width + c == y as int * self.width + x as int {
                        lemma_flat_index_unique(self.width as int, c, r, x as int, y as int);
                    }
                }
            }
            assert(m1 =~~= target);
        }
    }

    /// Rotate the piece a quarter turn clockwise in place: the bounding
    /// box's width and height swap, and the mask is re-indexed so that
    /// the source cell `(x, y)` lands on `(height - 1 - y, x)`.
    pub fn rotate_right(&mut self)
        requires
            old(self).wf(),
        ensures
            final(self).wf(),
            final(self)@.wf(),
            final(self)@ == old(self)@.rotated_cw(),
    {
        let ghost p0 = self@;
        proof {
            self.view_wf();
        }
        let mut scratch = Tetromino::new((self.height, self.width), 0, self.colour);
        let mut scan: usize = 0;
        while scan < self.height
            invariant
                p0 == old(self)@,
                self.wf(),
                self@ == p0,
                *self == *old(self),
                scratch.wf(),
                scratch.width == self.height,
                scratch.height == self.width,
                scan <= self.height,
                forall|sy: int, sx: int|
                    0 <= sy < scan && 0 <= sx < self.width as int ==> scratch@.mask[sx][self.height
                        - 1 - sy] == #[trigger] p0.mask[sy][sx],
            decreases self.height - scan,
        {
            let scan_dat = self.get_scan(scan);
            let mut block: usize = 0;
            while block < self.width
                invariant
                    p0 == old(self)@,
                    self.wf(),
                    self@ == p0,
                    *self == *old(self),
                    scratch.wf(),
                    scratch.width == self.height,
                    scratch.height == self.width,
                    scan < self.height,
                    block <= self.width,
                    scan_dat@ == p0.mask[scan as int],
                    forall|sy: int, sx: int|
                        0 <= sy < scan && 0 <= sx < self.width as int ==> scratch@.mask[sx][
                        self.height - 1 - sy] == #[trigger] p0.mask[sy][sx],
                    forall|sx: int|
                        0 <= sx < block ==> scratch@.mask[sx][self.height - 1 - scan]
                            == #[trigger] p0.mask[scan as int][sx],
                decreases self.width - block,
            {
                scratch.set_local((scratch.width - 1) - scan, block, scan_dat[block]);
                block = block + 1;
            }
            scan = scan + 1;
        }
        let ghost sm = scratch@.mask;
        self.width = scratch.width;
        self.height = scratch.height;
        self.contents = scratch.contents;
        proof {
            assert(self@.mask == sm);
            assert(sm =~~= p0.rotated_cw().mask) by {
                assert forall|ny: int, nx: int|
                    0 <= ny < p0.width && 0 <= nx < p0.height implies sm[ny][nx] == p0.mask[
                p0.height - 1 - nx][ny] by {
                    assert(sm[ny][p0.height - 1 - (p0.height - 1 - nx)] == p0.mask[p0.height - 1
                        - nx][ny]);
                }
            }
        }
    }

    /// Rotate the piece a quarter turn counterclockwise in place: the
    /// inverse of `rotate_right`; the source cell `(x, y)` lands on
    /// `(y, width - 1 - x)`.
    pub fn rotate_left(&mut self)
        requires
            old(self).wf(),
        ensures
            final(self).wf(),
            final(self)@.wf(),
            final(self)@ == old(self)@.rotated_ccw(),
    {
        let ghost p0 = self@;
        proof {
            self.view_wf();
        }
        let mut scratch = Tetromino::new((self.height, self.width), 0, self.colour);
        let mut scan: usize = 0;
        while scan < self.height
            invariant
                p0 == old(self)@,
                self.wf(),
                self@ == p0,
                *self == *old(self),
                scratch.wf(),
                scratch.width == self.height,
                scratch.height == self.width,
                scan <= self.height,
                forall|sy: int, sx: int|
                    0 <= sy < scan && 0 <= sx < self.width as int ==> scratch@.mask[self.width - 1
                        - sx][sy] == #[trigger] p0.mask[sy][sx],
            decreases self.height - scan,
        {
            let scan_dat = self.get_scan(scan);
            let mut block: usize = 0;
            while block < self.width
                invariant
                    p0 == old(self)@,
                    self.wf(),
                    self@ == p0,
                    *self == *old(self),
                    scratch.wf(),
                    scratch.width == self.height,
                    scratch.height == self.width,
                    scan < self.height,
                    block <= self.width,
                    scan_dat@ == p0.mask[scan as int],
                    forall|sy: int, sx: int|
                        0 <= sy < scan && 0 <= sx < self.width as int ==> scratch@.mask[self.width
                            - 1 - sx][sy] == #[trigger] p0.mask[sy][sx],
                    forall|sx: int|
                        0 <= sx < block ==> scratch@.mask[self.width - 1 - sx][scan as int]
                            == #[trigger] p0.mask[scan as int][sx],
                decreases self.width - block,
            {
                scratch.set_local(scan, (scratch.height - 1) - block, scan_dat[block]);
                block = block + 1;
            }
            scan = scan + 1;
        }
        let ghost sm = scratch@.mask;
        self.width = scratch.width;
        self.height = scratch.height;
        self.contents = scratch.contents;
        proof {
            assert(self@.mask == sm);
            assert(sm =~~= p0.rotated_ccw().mask) by {
                assert forall|ny: int, nx: int|
                    0 <= ny < p0.width && 0 <= nx < p0.height implies sm[ny][nx] == p0.mask[nx][
                p0.width - 1 - ny] by {
                    assert(sm[p0.width - 1 - (p0.width - 1 - ny)][nx] == p0.mask[nx][p0.width - 1
                        - ny]);
                }
            }
        }
    }

    /// Move the piece by the signed delta `to`. Translation always
    /// succeeds; the position may become negative or out of bounds, and
    /// legality is checked separately.
    pub fn relocate(&mut self, to: (i8, i8))
        requires
            old(self).wf(),
            i32::MIN <= old(self)@.x + to.0 <= i32::MAX,
            i32::MIN <= old(self)@.y + to.1 <= i32::MAX,
        ensures
            final(self).wf(),
            final(self)@.wf(),
            final(self)@ == old(self)@.translated(to.0 as int, to.1 as int),
    {
        self.location.0 = self.location.0 + (to.0 as i32);
        self.location.1 = self.location.1 + (to.1 as i32);
    }

    /// The absolute coordinates of every occupied cell of the piece,
    /// skipping cells that resolve to a negative coordinate (they are
    /// off the board and never drawn).
    pub fn occupied_cells(&self) -> (r: Vec<(usize, usize)>)
        requires
            self.wf(),
        ensures
            forall|j: int|
                0 <= j < r@.len() ==> self@.covers(
                    #[trigger] r@[j].0 as int,
                    r@[j].1 as int,
                ),
            forall|gx: int, gy: int|
                #[trigger] self@.covers(gx, gy) && gx >= 0 && gy >= 0 ==> r@.contains(
                    ((gx as usize), (gy as usize)),
                ),
            forall|j1: int, j2: int| 0 <= j1 < j2 < r@.len() ==> #[trigger] r@[j1] != #[trigger] r@[j2],
    {
        proof {
            self.view_wf();
        }
        let mut out: Vec<(usize, usize)> = Vec::new();
        let mut i: usize = 0;
        let n = self.contents.len();
        while i < n
            invariant
                self.wf(),
                n == self.contents@.len(),
                self@.width <= 16,
                self@.height <= 16,
                i <= n,
                forall|j: int|
                    0 <= j < out@.len() ==> self@.covers(#[trigger] out@[j].0 as int, out@[j].1 as int),
                forall|j: int|
                    0 <= j < out@.len() ==> (#[trigger] out@[j].1 - self@.y) * self@.width + (
                    out@[j].0 - self@.x) < i,
                forall|lx: int, ly: int|
                    0 <= lx < self@.width && 0 <= ly < self@.height && #[trigger] self@.occ(lx, ly)
                        && ly * self@.width + lx < i && self@.x + lx >= 0 && self@.y + ly >= 0
                        ==> out@.contains((((self@.x + lx) as usize), ((self@.y + ly) as usize))),
                forall|j1: int, j2: int|
                    0 <= j1 < j2 < out@.len() ==> #[trigger] out@[j1] != #[trigger] out@[j2],
            decreases n - i,
        {
            let ghost prev = out@;
            let occupied = self.contents[i];
            let (lx, ly) = self.locate(i);
            let ax = self.location.0 as i64 + lx as i64;
            let ay = self.location.1 as i64 + ly as i64;
            if occupied && ax >= 0 && ay >= 0 {
                out.push((ax as usize, ay as usize));
                proof {
                    assert(self@.covers(ax as int, ay as int));
                }
            }
            i = i + 1;
            proof {
                assert forall|e: (usize, usize)| prev.contains(e) implies out@.contains(e) by {
                    let j = choose|j: int| 0 <= j < prev.len() && prev[j] == e;
                    assert(out@[j] == e);
                }
                assert forall|j1: int, j2: int|
                    0 <= j1 < j2 < out@.len() implies #[trigger] out@[j1] != #[trigger] out@[j2] by {
                    if j2 == out@.len() - 1 && out@.len() > prev.len() {
                        assert((out@[j1].1 - self@.y) * self@.width + (out@[j1].0 - self@.x)
                            < i - 1);
                        assert((out@[j2].1 - self@.y) * self@.width + (out@[j2].0 - self@.x)
                            == i - 1);
                    }
                }
                assert forall|qx: int, qy: int|
                    0 <= qx < self@.width && 0 <= qy < self@.height && #[trigger] self@.occ(qx, qy)
                        && qy * self@.width + qx < i && self@.x + qx >= 0 && self@.y + qy
                        >= 0 implies out@.contains(
                    (((self@.x + qx) as usize), ((self@.y + qy) as usize)),
                ) by {
                    if qy * self@.width + qx == i - 1 {
                        lemma_flat_index_unique(self@.width as int, qx, qy, lx as int, ly as int);
                        assert(qx == lx as int && qy == ly as int);
                        assert(occupied);
                        assert(self@.x + qx == ax as int && self@.y + qy == ay as int);
                        assert(out@[out@.len() - 1] == ((ax as usize), (ay as usize)));
                    } else {
                        assert(prev.contains((((self@.x + qx) as usize), ((self@.y + qy) as usize))));
                    }
                }
            }
        }
        proof {
            assert forall|gx: int, gy: int|
                #[trigger] self@.covers(gx, gy) && gx >= 0 && gy >= 0 implies out@.contains(
                ((gx as usize), (gy as usize)),
            ) by {
                let lx = gx - self@.x;
                let ly = gy - self@.y;
                lemma_flat_index_bound(lx, ly, self@.width as int, self@.height as int);
                assert(self@.occ(lx, ly));
                assert(out@.contains((((self@.x + lx) as usize), ((self@.y + ly) as usize))));
            }
        }
        out
    }

    /// How many cells of the bounding box are occupied.
    pub fn occupied_cell_count(&self) -> (r: usize)
        requires
            self.wf(),
        ensures
            r == self@.occupied_count(),
    {
        let ghost p = self@;
        proof {
            self.view_wf();
            lemma_occ_cells_upto_finite(p, 0);
        }
        let mut count: usize = 0;
        let mut i: usize = 0;
        let n = self.contents.len();
        while i < n
            invariant
                p == self@,
                self.wf(),
                n == self.contents@.len(),
                i <= n,
                n <= 16,
                count <= i,
                p.occ_cells_upto(i as int).finite(),
                count == p.occ_cells_upto(i as int).len(),
            decreases n - i,
        {
            let ghost prev = p.occ_cells_upto(i as int);
            let occupied = self.contents[i];
            let (lx, ly) = self.locate(i);
            proof {
                if occupied {
                    assert forall|q: (int, int)|
                        p.occ_cells_upto(i + 1).contains(q) implies prev.insert(
                        (lx as int, ly as int),
                    ).contains(q) by {
                        if q.1 * p.width + q.0 == i as int {
                            lemma_flat_index_unique(p.width as int, q.0, q.1, lx as int, ly as int);
                        }
                    }
                    assert(p.occ_cells_upto(i + 1) =~= prev.insert((lx as int, ly as int)));
                    assert(!prev.contains((lx as int, ly as int)));
                } else {
                    assert forall|q: (int, int)|
                        p.occ_cells_upto(i + 1).contains(q) implies prev.contains(q) by {
                        if q.1 * p.width + q.0 == i as int {
                            lemma_flat_index_unique(p.width as int, q.0, q.1, lx as int, ly as int);
                        }
                    }
                    assert(p.occ_cells_upto(i + 1) =~= prev);
                }
            }
            if occupied {
                count = count + 1;
            }
            i = i + 1;
        }
        proof {
            assert forall|q: (int, int)| p.occ_cells().contains(q) implies p.occ_cells_upto(
                n as int,
            ).contains(q) by {
                lemma_flat_index_bound(q.0, q.1, p.width as int, p.height as int);
            }
            assert(p.occ_cells() =~= p.occ_cells_upto(n as int));
        }
        count
    }

    /// Write `c` into the board at every cell the piece covers; covered
    /// cells that lie off the board are skipped.
    fn paint(&self, board: &mut Board, c: BlockColour)
        requires
            self.wf(),
            old(board).wf(),
        ensures
            final(board).wf(),
            final(board)@.wf(),
            final(board)@ == place(old(board)@, self@, c),
    {
        let ghost gorig = board@;
        proof {
            self.view_wf();
            board.view_wf();
        }
        let mut i: usize = 0;
        let n = self.contents.len();
        while i < n
            invariant
                gorig == old(board)@,
                self.wf(),
                board.wf(),
                n == self.contents@.len(),
                self@.width <= 16,
                self@.height <= 16,
                board@.width == gorig.width,
                board@.height() == gorig.height(),
                i <= n,
                board@.cells =~~= Seq::new(
                    gorig.cells.len(),
                    |r: int|
                        Seq::new(
                            gorig.width,
                            |cc: int|
                                if covers_upto(self@, cc, r, i as int) {
                                    c
                                } else {
                                    gorig.cells[r][cc]
                                },
                        ),
                ),
            decreases n - i,
        {
            let occupied = self.contents[i];
            let (lx, ly) = self.locate(i);
            let ax = self.location.0 as i64 + lx as i64;
            let ay = self.location.1 as i64 + ly as i64;
            let ghost prev = board@;
            if occupied && ax >= 0 && ay >= 0 {
                board.set((ax as usize, ay as usize), c);
            }
            proof {
                let p = self@;
                let target = Seq::new(
                    gorig.cells.len(),
                    |r: int|
                        Seq::new(
                            gorig.width,
                            |cc: int|
                                if covers_upto(p, cc, r, i + 1) {
                                    c
                                } else {
                                    gorig.cells[r][cc]
                                },
                        ),
                );
                assert forall|r: int, cc: int|
                    0 <= r < gorig.cells.len() && 0 <= cc < gorig.width implies board@.cells[r][cc]
                    == target[r][cc] by {
                    if p.covers(cc, r) && (r - p.y) * p.width + (cc - p.x) == i as int {
                        lemma_flat_index_unique(
                            p.width as int,
                            cc - p.x,
                            r - p.y,
                            lx as int,
                            ly as int,
                        );
                        assert(cc == ax as int && r == ay as int);
                        assert(occupied);
                        assert(board@.cells[r][cc] == c);
                    } else {
                        assert(!(covers_upto(p, cc, r, i + 1) && !covers_upto(p, cc, r, i as int)));
                        assert(board@.cells[r][cc] == prev.cells[r][cc]);
                    }
                }
                assert(board@.cells =~~= target);
            }
            i = i + 1;
        }
        proof {
            let p = self@;
            assert forall|r: int, cc: int|
                0 <= r < gorig.cells.len() && 0 <= cc < gorig.width implies (covers_upto(
                p,
                cc,
                r,
                n as int,
            ) == p.covers(cc, r)) by {
                if p.covers(cc, r) {
                    lemma_flat_index_bound(cc - p.x, r - p.y, p.width as int, p.height as int);
                }
            }
            assert(board@.cells =~~= place(gorig, p, c).cells);
        }
    }

    /// Write the piece's colour into the board at every covered cell.
    pub fn set(&self, board: &mut Board)
        requires
            self.wf(),
            old(board).wf(),
        ensures
            final(board).wf(),
            final(board)@.wf(),
            final(board)@ == place(old(board)@, self@, self@.colour),
    {
        self.paint(board, self.colour);
    }

    /// Lift the piece off the board: write empty at every covered cell,
    /// so that a legality test does not see the piece's own cells.
    pub fn unset(&self, board: &mut Board)
        requires
            self.wf(),
            old(board).wf(),
        ensures
            final(board).wf(),
            final(board)@.wf(),
            final(board)@ == lifted(old(board)@, self@),
    {
        self.paint(board, BlockColour::Empty);
    }

    /// True iff the piece's placement is legal against the board: every
    /// occupied cell in bounds and free.
    pub fn is_legal(&self, board: &Board) -> (r: bool)
        requires
            self.wf(),
            board.wf(),
        ensures
            r == fits(self@, board@),
    {
        proof {
            self.view_wf();
        }
        let mut i: usize = 0;
        let n = self.contents.len();
        while i < n
            invariant
                self.wf(),
                board.wf(),
                n == self.contents@.len(),
                self@.width <= 16,
                self@.height <= 16,
                i <= n,
                forall|lx: int, ly: int|
                    0 <= lx < self@.width && 0 <= ly < self@.height && #[trigger] self@.occ(lx, ly)
                        && ly * self@.width + lx < i ==> board@.in_bounds(
                        self@.x + lx,
                        self@.y + ly,
                    ) && board@.cell(self@.x + lx, self@.y + ly) == BlockColour::Empty,
            decreases n - i,
        {
            let occupied = self.contents[i];
            let (lx, ly) = self.locate(i);
            if occupied {
                let ax = self.location.0 as i64 + lx as i64;
                let ay = self.location.1 as i64 + ly as i64;
                if ax < 0 || ay < 0 {
                    assert(!fits(self@, board@)) by {
                        assert(self@.occ(lx as int, ly as int));
                    }
                    return false;
                }
                if !board.is_free((ax as usize, ay as usize)) {
                    assert(!fits(self@, board@)) by {
                        assert(self@.occ(lx as int, ly as int));
                    }
                    return false;
                }
            }
            proof {
                assert forall|qx: int, qy: int|
                    0 <= qx < self@.width && 0 <= qy < self@.height && #[trigger] self@.occ(qx, qy)
                        && qy * self@.width + qx < i + 1 implies board@.in_bounds(
                    self@.x + qx,
                    self@.y + qy,
                ) && board@.cell(self@.x + qx, self@.y + qy) == BlockColour::Empty by {
                    if qy * self@.width + qx == i as int {
                        lemma_flat_index_unique(self@.width as int, qx, qy, lx as int, ly as int);
                    }
                }
            }
            i = i + 1;
        }
        proof {
            assert forall|lx: int, ly: int|
                0 <= lx < self@.width && 0 <= ly < self@.height && #[trigger] self@.occ(
                lx,
                ly,
            ) implies board@.in_bounds(self@.x + lx, self@.y + ly) && board@.cell(
                self@.x + lx,
                self@.y + ly,
            ) == BlockColour::Empty by {
                lemma_flat_index_bound(lx, ly, self@.width as int, self@.height as int);
            }
        }
        true
    }

    /// Attempt to move the piece by the signed delta `to`: the piece is
    /// lifted off the board, moved, and the move kept only if legal, else
    /// rolled back; either way the piece is written back and the board
    /// again reflects the piece. Returns whether the move was applied.
    pub fn legal_move(&mut self, to: (i8, i8), board: &mut Board) -> (r: bool)
        requires
            old(self).wf(),
            old(board).wf(),
            i32::MIN <= old(self)@.x + to.0 <= i32::MAX,
            i32::MIN <= old(self)@.y + to.1 <= i32::MAX,
        ensures
            final(self).wf(),
            final(self)@.wf(),
            final(board).wf(),
            final(board)@.wf(),
            final(board)@ == move_result(old(board)@, old(self)@, to.0 as int, to.1 as int).0,
            final(self)@ == move_result(old(board)@, old(self)@, to.0 as int, to.1 as int).1,
            r == move_result(old(board)@, old(self)@, to.0 as int, to.1 as int).2,
    {
        let ghost p0 = self@;
        self.unset(board);
        let saved = self.location;
        self.relocate(to);
        let ok = self.is_legal(board);
        if !ok {
            self.location = saved;
            assert(self@ == p0);
        }
        self.set(board);
        ok
    }

    /// Attempt to rotate the piece a quarter turn clockwise, with
    /// wall-kick recovery: if the plain rotation is illegal, it is
    /// retried shifted one column left, then one column right; if all
    /// three fail, the rotation is rolled back. Returns whether a
    /// rotation (possibly kicked) was applied.
    pub fn safe_ror(&mut self, board: &mut Board) -> (r: bool)
        requires
            old(self).wf(),
            old(board).wf(),
            i32::MIN < old(self)@.x < i32::MAX,
        ensures
            final(self).wf(),
            final(self)@.wf(),
            final(board).wf(),
            final(board)@.wf(),
            final(board)@ == rotate_cw_result(old(board)@, old(self)@).0,
            final(self)@ == rotate_cw_result(old(board)@, old(self)@).1,
            r == rotate_cw_result(old(board)@, old(self)@).2,
    {
        let ghost p0 = self@;
        proof {
            self.view_wf();
        }
        self.unset(board);
        self.rotate_right();
        if self.is_legal(board) {
            self.set(board);
            return true;
        }
        self.location.0 = self.location.0 - 1;
        assert(self@ == p0.rotated_cw().translated(-1, 0));
        if self.is_legal(board) {
            self.set(board);
            return true;
        }
        self.location.0 = self.location.0 + 2;
        assert(self@ == p0.rotated_cw().translated(1, 0));
        if self.is_legal(board) {
            self.set(board);
            return true;
        }
        self.location.0 = self.location.0 - 1;
        self.rotate_left();
        proof {
            lemma_rotation_round_trip(p0);
        }
        self.set(board);
        false
    }

    /// Attempt to rotate the piece a quarter turn counterclockwise, with
    /// the same wall-kick recovery and rollback as `safe_ror`. Returns
    /// whether a rotation (possibly kicked) was applied.
    pub fn safe_rol(&mut self, board: &mut Board) -> (r: bool)
        requires
            old(self).wf(),
            old(board).wf(),
            i32::MIN < old(self)@.x < i32::MAX,
        ensures
            final(self).wf(),
            final(self)@.wf(),
            final(board).wf(),
            final(board)@.wf(),
            final(board)@ == rotate_ccw_result(old(board)@, old(self)@).0,
            final(self)@ == rotate_ccw_result(old(board)@, old(self)@).1,
            r == rotate_ccw_result(old(board)@, old(self)@).2,
    {
        let ghost p0 = self@;
        proof {
            self.view_wf();
        }
        self.unset(board);
        self.rotate_left();
        if self.is_legal(board) {
            self.set(board);
            return true;
        }
        self.location.0 = self.location.0 - 1;
        assert(self@ == p0.rotated_ccw().translated(-1, 0));
        if self.is_legal(board) {
            self.set(board);
            return true;
        }
        self.location.0 = self.location.0 + 2;
        assert(self@ == p0.rotated_ccw().translated(1, 0));
        if self.is_legal(board) {
            self.set(board);
            return true;
        }
        self.location.0 = self.location.0 - 1;
        self.rotate_right();
        proof {
            lemma_rotation_round_trip(p0);
        }
        self.set(board);
        false
    }
}

} // verus!
