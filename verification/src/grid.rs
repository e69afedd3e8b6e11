//! The board: a fixed-size rectangular grid of cell states, with the
//! per-cell accessors, full-row detection, row clearing and gravity
//! compaction.

use vstd::prelude::*;

use crate::cell::BlockColour;
use crate::flat::lemma_flat_index_bound;
use crate::flat::lemma_flat_index_unique;

verus! {

/// Mathematical model of a board: its width and its rows, top first,
/// each row a sequence of cell states.
pub ghost struct GridView {
    pub width: nat,
    pub cells: Seq<Seq<BlockColour>>,
}

impl GridView {
    pub open spec fn height(self) -> nat {
        self.cells.len()
    }

    pub open spec fn wf(self) -> bool {
        &&& self.width >= 1
        &&& self.cells.len() >= 1
        &&& forall|r: int|
            0 <= r < self.cells.len() ==> (#[trigger] self.cells[r]).len() == self.width
    }

    pub open spec fn in_bounds(self, x: int, y: int) -> bool {
        0 <= x < self.width && 0 <= y < self.height()
    }

    pub open spec fn cell(self, x: int, y: int) -> BlockColour {
        self.cells[y][x]
    }

    /// A row is full iff every one of its cells is occupied.
    pub open spec fn row_full(self, r: int) -> bool {
        forall|c: int| 0 <= c < self.width ==> #[trigger] self.cells[r][c] != BlockColour::Empty
    }

    /// The game is lost iff a settled block has reached the top row.
    pub open spec fn lost(self) -> bool {
        exists|c: int| 0 <= c < self.width && #[trigger] self.cells[0][c] != BlockColour::Empty
    }

    /// Number of full rows at or below row `r` (counting downwards from
    /// the top of the board).
    pub open spec fn count_full_from(self, r: int) -> nat
        decreases self.height() - r,
    {
        if r < 0 || r >= self.height() {
            0
        } else {
            (if self.row_full(r) {
                1nat
            } else {
                0nat
            }) + self.count_full_from(r + 1)
        }
    }

    /// Number of full rows of the board.
    pub open spec fn count_full(self) -> nat {
        self.count_full_from(0)
    }

    /// The rows after removing row `row`: every row above it shifts down
    /// by one, and the top row becomes empty.
    pub open spec fn compacted(self, row: int) -> Seq<Seq<BlockColour>> {
        Seq::new(
            self.height(),
            |q: int|
                if q == 0 {
                    empty_row(self.width)
                } else if q <= row {
                    self.cells[q - 1]
                } else {
                    self.cells[q]
                },
        )
    }
}

/// A row with at least one empty cell: one that a clean pass leaves
/// alive.
pub open spec fn row_not_full(row: Seq<BlockColour>) -> bool {
    exists|c: int| 0 <= c < row.len() && row[c] == BlockColour::Empty
}

/// The rows that are not full, in order.
pub open spec fn surviving_rows(rows: Seq<Seq<BlockColour>>) -> Seq<Seq<BlockColour>>
    decreases rows.len(),
{
    if rows.len() == 0 {
        Seq::empty()
    } else {
        let rest = surviving_rows(rows.drop_last());
        if row_not_full(rows.last()) {
            rest.push(rows.last())
        } else {
            rest
        }
    }
}

/// A sequence of rows none of which is full survives whole.
proof fn lemma_surviving_all(rows: Seq<Seq<BlockColour>>)
    requires
        forall|q: int| 0 <= q < rows.len() ==> row_not_full(#[trigger] rows[q]),
    ensures
        surviving_rows(rows) == rows,
    decreases rows.len(),
{
    if rows.len() > 0 {
        lemma_surviving_all(rows.drop_last());
        assert(surviving_rows(rows.drop_last()).push(rows.last()) =~= rows);
    }
}

/// Survival distributes over concatenation.
proof fn lemma_surviving_add(a: Seq<Seq<BlockColour>>, b: Seq<Seq<BlockColour>>)
    ensures
        surviving_rows(a + b) == surviving_rows(a) + surviving_rows(b),
    decreases b.len(),
{
    if b.len() == 0 {
        assert(a + b =~= a);
        assert(surviving_rows(a) + surviving_rows(b) =~= surviving_rows(a));
    } else {
        lemma_surviving_add(a, b.drop_last());
        assert((a + b).drop_last() =~= a + b.drop_last());
        assert((a + b).last() == b.last());
        if row_not_full(b.last()) {
            assert(surviving_rows(a) + surviving_rows(b.drop_last()).push(b.last())
                =~= (surviving_rows(a) + surviving_rows(b.drop_last())).push(b.last()));
        }
    }
}

/// A single row survives iff it is not full.
proof fn lemma_surviving_one(row: Seq<BlockColour>)
    ensures
        row_not_full(row) ==> surviving_rows(seq![row]) == seq![row],
        !row_not_full(row) ==> surviving_rows(seq![row]) == Seq::<Seq<BlockColour>>::empty(),
{
    assert(seq![row].drop_last() =~= Seq::<Seq<BlockColour>>::empty());
    assert(surviving_rows(Seq::<Seq<BlockColour>>::empty()) == Seq::<Seq<BlockColour>>::empty());
    if row_not_full(row) {
        assert(surviving_rows(seq![row].drop_last()).push(row) =~= seq![row]);
    }
}

/// There are at most as many full rows at or below `r` as there are rows
/// at or below `r`.
proof fn lemma_count_full_from_bound(g: GridView, r: int)
    requires
        0 <= r <= g.height(),
    ensures
        g.count_full_from(r) <= g.height() - r,
    decreases g.height() - r,
{
    if r < g.height() {
        lemma_count_full_from_bound(g, r + 1);
    }
}

/// Rows known not to be full do not contribute to the count.
proof fn lemma_count_skip_not_full(g: GridView, r: int, m: int)
    requires
        0 <= r <= m <= g.height(),
        forall|q: int| r <= q < m ==> !g.row_full(q),
    ensures
        g.count_full_from(r) == g.count_full_from(m),
    decreases m - r,
{
    if r < m {
        lemma_count_skip_not_full(g, r + 1, m);
    }
}

/// Boards that agree on all rows at or below `r` have the same count
/// there.
proof fn lemma_count_equal_rows(g1: GridView, g2: GridView, r: int)
    requires
        g1.width == g2.width,
        g1.height() == g2.height(),
        0 <= r,
        forall|q: int| r <= q < g1.height() ==> g1.cells[q] == g2.cells[q],
    ensures
        g1.count_full_from(r) == g2.count_full_from(r),
    decreases g1.height() - r,
{
    if r < g1.height() {
        lemma_count_equal_rows(g1, g2, r + 1);
    }
}

/// Clearing the first full row `fr` and compacting removes exactly one
/// full row.
proof fn lemma_removed_row_count(g: GridView, g2: GridView, fr: int)
    requires
        g.wf(),
        g2.width == g.width,
        0 <= fr < g.height(),
        g.row_full(fr),
        forall|q: int| 0 <= q < fr ==> !g.row_full(q),
        g2.cells == (GridView {
            width: g.width,
            cells: g.cells.update(fr, empty_row(g.width)),
        }).compacted(fr),
    ensures
        g2.height() == g.height(),
        g2.count_full() + 1 == g.count_full(),
        forall|q: int| fr < q < g.height() ==> g2.cells[q] == g.cells[q],
        surviving_rows(g2.cells) == seq![empty_row(g.width)] + surviving_rows(g.cells),
{
    let gc = GridView { width: g.width, cells: g.cells.update(fr, empty_row(g.width)) };
    assert(g2.cells.len() == g.cells.len());
    assert(!g2.row_full(0)) by {
        assert(g2.cells[0] == empty_row(g.width));
        assert(g2.cells[0][0] == BlockColour::Empty);
    }
    assert forall|q: int| 1 <= q <= fr implies !g2.row_full(q) by {
        assert(g2.cells[q] == g.cells[q - 1]);
        assert(!g.row_full(q - 1));
        let c = choose|c: int| 0 <= c < g.width && #[trigger] g.cells[q - 1][c]
            == BlockColour::Empty;
        assert(g2.cells[q][c] == BlockColour::Empty);
    }
    assert forall|q: int| fr < q < g.height() implies g2.cells[q] == g.cells[q] by {
        assert(g2.cells[q] == gc.cells[q]);
    }
    lemma_count_skip_not_full(g2, 0, fr + 1);
    lemma_count_equal_rows(g2, g, fr + 1);
    lemma_count_skip_not_full(g, 0, fr);
    assert(g.count_full_from(fr) == 1 + g.count_full_from(fr + 1));

    let e = empty_row(g.width);
    let n = g.cells.len() as int;
    let before = g.cells.subrange(0, fr);
    let after = g.cells.subrange(fr + 1, n);
    assert(row_not_full(e)) by {
        assert(e[0] == BlockColour::Empty);
    }
    assert(!row_not_full(g.cells[fr]));
    assert(g2.cells =~= seq![e] + before + after);
    assert(g.cells =~= before + seq![g.cells[fr]] + after);
    lemma_surviving_add(seq![e] + before, after);
    lemma_surviving_add(seq![e], before);
    lemma_surviving_add(before + seq![g.cells[fr]], after);
    lemma_surviving_add(before, seq![g.cells[fr]]);
    lemma_surviving_one(e);
    lemma_surviving_one(g.cells[fr]);
    assert(surviving_rows(g2.cells) == seq![e] + surviving_rows(before) + surviving_rows(after));
    assert(surviving_rows(g.cells) =~= surviving_rows(before) + surviving_rows(after));
    assert(surviving_rows(g2.cells) =~= seq![e] + surviving_rows(g.cells));
}

/// A row of `width` empty cells.
pub open spec fn empty_row(width: nat) -> Seq<BlockColour> {
    Seq::new(width, |c: int| BlockColour::Empty)
}

/// The board of settled cells.
pub struct Board {
    width: usize,
    height: usize,
    contents: Vec<BlockColour>,
}

impl View for Board {
    type V = GridView;

    closed spec fn view(&self) -> GridView {
        GridView {
            width: self.width as nat,
            cells: Seq::new(
                self.height as nat,
                |r: int| Seq::new(self.width as nat, |c: int| self.contents@[r * self.width + c]),
            ),
        }
    }
}

impl Board {
    pub closed spec fn wf(&self) -> bool {
        &&& self.width >= 1
        &&& self.height >= 1
        &&& self.contents@.len() == self.width * self.height
    }

    /// A well-formed board has a well-formed model.
    pub proof fn view_wf(&self)
        requires
            self.wf(),
        ensures
            self@.wf(),
    {
    }

    /// Make an empty board of the given size in cells.
    pub fn new(width: usize, height: usize) -> (r: Board)
        requires
            width >= 1,
            height >= 1,
            width * height <= usize::MAX,
        ensures
            r.wf(),
            r@.wf(),
            r@.width == width,
            r@.height() == height,
            forall|x: int, y: int| r@.in_bounds(x, y) ==> #[trigger] r@.cell(x, y) == BlockColour::Empty,
    {
        let n = width * height;
        let mut contents: Vec<BlockColour> = Vec::new();
        let mut i: usize = 0;
        while i < n
            invariant
                i <= n,
                contents@.len() == i,
                forall|k: int| 0 <= k < i ==> contents@[k] == BlockColour::Empty,
            decreases n - i,
        {
            contents.push(BlockColour::Empty);
            i = i + 1;
        }
        let r = Board { width, height, contents };
        proof {
            assert forall|x: int, y: int| r@.in_bounds(x, y) implies #[trigger] r@.cell(x, y)
                == BlockColour::Empty by {
                lemma_flat_index_bound(x, y, width as int, height as int);
            }
        }
        r
    }

    /// Width of the board in cells.
    pub fn width(&self) -> (r: usize)
        ensures
            r == self@.width,
    {
        self.width
    }

    /// Height of the board in cells.
    pub fn height(&self) -> (r: usize)
        ensures
            r == self@.height(),
    {
        self.height
    }

    /// Flat index of the in-bounds cell `(x, y)` in the backing vector.
    fn flat_index(&self, x: usize, y: usize) -> (r: usize)
        requires
            self.wf(),
            x < self.width,
            y < self.height,
        ensures
            r == y * self.width + x,
            r < self.contents@.len(),
    {
        proof {
            lemma_flat_index_bound(x as int, y as int, self.width as int, self.height as int);
        }
        let n = self.contents.len();
        assert(y * self.width + x < n);
        y * self.width + x
    }

    /// Write `colour` at `at` if `at` is in bounds; out-of-bounds writes
    /// are silently ignored.
    pub fn set(&mut self, at: (usize, usize), colour: BlockColour)
        requires
            old(self).wf(),
        ensures
            final(self).wf(),
            final(self)@.wf(),
            final(self)@.width == old(self)@.width,
            final(self)@.height() == old(self)@.height(),
            old(self)@.in_bounds(at.0 as int, at.1 as int) ==> final(self)@.cells == old(
                self,
            )@.cells.update(
                at.1 as int,
                old(self)@.cells[at.1 as int].update(at.0 as int, colour),
            ),
            !old(self)@.in_bounds(at.0 as int, at.1 as int) ==> final(self)@ == old(self)@,
    {
        let (x, y) = at;
        if x >= self.width || y >= self.height {
            return ;
        }
        let idx = self.flat_index(x, y);
        self.contents[idx] = colour;
        proof {
            let g0 = old(self)@;
            let g1 = self@;
            let target = g0.cells.update(y as int, g0.cells[y as int].update(x as int, colour));
            assert forall|r: int| 0 <= r < g1.cells.len() implies g1.cells[r] =~= target[r] by {
                assert forall|c: int| 0 <= c < self.width as int implies g1.cells[r][c]
                    == target[r][c] by {
                    lemma_flat_index_bound(c, r, self.width as int, self.height as int);
                    if r * self.width + c == y as int * self.width + x as int {
                        lemma_flat_index_unique(self.width as int, c, r, x as int, y as int);
                    }
                }
            }
            assert(g1.cells =~= target);
        }
    }

    /// True iff `coords` is in bounds and the cell there is empty.
    /// Out-of-bounds coordinates are reported as not free.
    pub fn is_free(&self, coords: (usize, usize)) -> (r: bool)
        requires
            self.wf(),
        ensures
            r == (self@.in_bounds(coords.0 as int, coords.1 as int) && self@.cell(
                coords.0 as int,
                coords.1 as int,
            ) == BlockColour::Empty),
    {
        let (x, y) = coords;
        if x >= self.width || y >= self.height {
            return false;
        }
        let idx = self.flat_index(x, y);
        self.contents[idx] == BlockColour::Empty
    }

    /// Read the cell at `at`, which must be in bounds.
    pub fn get(&self, at: (usize, usize)) -> (r: BlockColour)
        requires
            self.wf(),
            self@.in_bounds(at.0 as int, at.1 as int),
        ensures
            r == self@.cell(at.0 as int, at.1 as int),
    {
        let (x, y) = at;
        let idx = self.flat_index(x, y);
        self.contents[idx]
    }

    /// True iff every cell of row `y` is occupied.
    fn row_is_full(&self, y: usize) -> (r: bool)
        requires
            self.wf(),
            y < self.height,
        ensures
            r == self@.row_full(y as int),
    {
        let mut x: usize = 0;
        while x < self.width
            invariant
                self.wf(),
                y < self.height,
                x <= self.width,
                forall|c: int| 0 <= c < x ==> #[trigger] self@.cells[y as int][c]
                    != BlockColour::Empty,
            decreases self.width - x,
        {
            let idx = self.flat_index(x, y);
            if self.contents[idx] == BlockColour::Empty {
                assert(self@.cells[y as int][x as int] == BlockColour::Empty);
                return false;
            }
            x = x + 1;
        }
        true
    }

    /// Scan rows top to bottom; return the first full row, if any.
    pub fn find_full_row(&self) -> (r: Option<usize>)
        requires
            self.wf(),
        ensures
            match r {
                Some(row) => row < self@.height() && self@.row_full(row as int) && forall|q: int|
                    0 <= q < row ==> !self@.row_full(q),
                None => forall|q: int| 0 <= q < self@.height() ==> !self@.row_full(q),
            },
    {
        let mut y: usize = 0;
        while y < self.height
            invariant
                self.wf(),
                y <= self.height,
                forall|q: int| 0 <= q < y ==> !self@.row_full(q),
            decreases self.height - y,
        {
            if self.row_is_full(y) {
                return Some(y);
            }
            y = y + 1;
        }
        None
    }

    /// Set every cell of row `row` to empty.
    pub fn clear_row(&mut self, row: usize)
        requires
            old(self).wf(),
            row < old(self)@.height(),
        ensures
            final(self).wf(),
            final(self)@.wf(),
            final(self)@.width == old(self)@.width,
            final(self)@.cells == old(self)@.cells.update(
                row as int,
                empty_row(old(self)@.width),
            ),
    {
        let ghost g0 = self@;
        let mut x: usize = 0;
        while x < self.width
            invariant
                self.wf(),
                self.width == g0.width,
                self.height == g0.height(),
                row < g0.height(),
                x <= self.width,
                self@.cells =~~= g0.cells.update(
                    row as int,
                    Seq::new(
                        g0.width,
                        |c: int|
                            if c < x {
                                BlockColour::Empty
                            } else {
                                g0.cells[row as int][c]
                            },
                    ),
                ),
            decreases self.width - x,
        {
            self.set((x, row), BlockColour::Empty);
            x = x + 1;
        }
        assert(self@.cells =~~= g0.cells.update(row as int, empty_row(g0.width))) by {
            assert(self@.cells[row as int] =~= empty_row(g0.width));
        }
    }

    /// Shift every row above `row` down by one (row `q` takes the
    /// contents of row `q - 1`, from `row` down to row 1), then clear the
    /// top row.
    pub fn compact_from(&mut self, row: usize)
        requires
            old(self).wf(),
            row < old(self)@.height(),
        ensures
            final(self).wf(),
            final(self)@.wf(),
            final(self)@.width == old(self)@.width,
            final(self)@.cells == old(self)@.compacted(row as int),
    {
        let ghost g0 = self@;
        proof {
            self.view_wf();
        }
        let mut r = row;
        while r >= 1
            invariant
                self.wf(),
                g0.wf(),
                self@.width == g0.width,
                self@.height() == g0.height(),
                row < g0.height(),
                r <= row,
                self@.cells =~~= Seq::new(
                    g0.height(),
                    |q: int|
                        if r < q <= row {
                            g0.cells[q - 1]
                        } else {
                            g0.cells[q]
                        },
                ),
            decreases r,
        {
            let mut x: usize = 0;
            while x < self.width
                invariant
                    self.wf(),
                    g0.wf(),
                    self@.width == g0.width,
                    self@.height() == g0.height(),
                    1 <= r <= row < g0.height(),
                    x <= self.width,
                    self@.cells =~~= Seq::new(
                        g0.height(),
                        |q: int|
                            if q == r {
                                Seq::new(
                                    g0.width,
                                    |c: int|
                                        if c < x {
                                            g0.cells[r - 1][c]
                                        } else {
                                            g0.cells[r as int][c]
                                        },
                                )
                            } else if r < q <= row {
                                g0.cells[q - 1]
                            } else {
                                g0.cells[q]
                            },
                    ),
                decreases self.width - x,
            {
                let v = self.get((x, r - 1));
                self.set((x, r), v);
                x = x + 1;
            }
            assert(self@.cells =~~= Seq::new(
                g0.height(),
                |q: int|
                    if r - 1 < q <= row {
                        g0.cells[q - 1]
                    } else {
                        g0.cells[q]
                    },
            ));
            r = r - 1;
        }
        self.clear_row(0);
        assert(self@.cells =~~= g0.compacted(row as int));
    }

    /// Repeatedly find the first full row, clear it and compact, until no
    /// full row remains; return how many rows were cleared.
    pub fn clean(&mut self) -> (r: usize)
        requires
            old(self).wf(),
        ensures
            final(self).wf(),
            final(self)@.wf(),
            final(self)@.width == old(self)@.width,
            final(self)@.height() == old(self)@.height(),
            r == old(self)@.count_full(),
            forall|q: int| 0 <= q < final(self)@.height() ==> !final(self)@.row_full(q),
            final(self)@.cells == Seq::new(
                old(self)@.count_full(),
                |k: int| empty_row(old(self)@.width),
            ) + surviving_rows(old(self)@.cells),
    {
        let ghost g0 = self@;
        proof {
            self.view_wf();
            lemma_count_full_from_bound(g0, 0);
            assert(Seq::new(0nat, |k: int| empty_row(g0.width)) + surviving_rows(g0.cells)
                =~= surviving_rows(g0.cells));
        }
        let mut cleared: usize = 0;
        loop
            invariant
                g0 == old(self)@,
                self.wf(),
                g0.wf(),
                self@.width == g0.width,
                self@.height() == g0.height(),
                self@.height() <= usize::MAX,
                cleared + self@.count_full() == g0.count_full(),
                g0.count_full() <= g0.height(),
                surviving_rows(self@.cells) == Seq::new(cleared as nat, |k: int| empty_row(g0.width))
                    + surviving_rows(g0.cells),
            decreases self@.count_full(),
        {
            match self.find_full_row() {
                Some(row) => {
                    let ghost g = self@;
                    self.clear_row(row);
                    self.compact_from(row);
                    proof {
                        lemma_removed_row_count(g, self@, row as int);
                        assert(seq![empty_row(g0.width)] + (Seq::new(
                            cleared as nat,
                            |k: int| empty_row(g0.width),
                        ) + surviving_rows(g0.cells)) =~= Seq::new(
                            (cleared + 1) as nat,
                            |k: int| empty_row(g0.width),
                        ) + surviving_rows(g0.cells));
                    }
                    cleared = cleared + 1;
                }
                None => {
                    proof {
                        lemma_count_skip_not_full(self@, 0, self@.height() as int);
                        assert forall|q: int|
                            0 <= q < self@.cells.len() implies row_not_full(
                            #[trigger] self@.cells[q],
                        ) by {
                            assert(!self@.row_full(q));
                            let c = choose|c: int|
                                0 <= c < self@.width && #[trigger] self@.cells[q][c]
                                    == BlockColour::Empty;
                            assert(self@.cells[q][c] == BlockColour::Empty);
                        }
                        lemma_surviving_all(self@.cells);
                    }
                    return cleared;
                }
            }
        }
    }

    /// True iff any cell of the top row is occupied.
    pub fn is_lost(&self) -> (r: bool)
        requires
            self.wf(),
        ensures
            r == self@.lost(),
    {
        let mut x: usize = 0;
        while x < self.width
            invariant
                self.wf(),
                x <= self.width,
                forall|c: int| 0 <= c < x ==> #[trigger] self@.cells[0][c] == BlockColour::Empty,
            decreases self.width - x,
        {
            let idx = self.flat_index(x, 0);
            if !(self.contents[idx] == BlockColour::Empty) {
                assert(self@.cells[0][x as int] != BlockColour::Empty);
                return true;
            }
            x = x + 1;
        }
        false
    }
}

} // verus!
