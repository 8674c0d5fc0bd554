use vstd::prelude::*;
use crate::cell::Cell;
use crate::grid::{offset, Grid};

verus! {

impl Grid {
    /// Whether `(x, y)` is a square of the grid that is a committed or fixed
    /// mine.
    pub open spec fn mine_at(self, x: int, y: int) -> bool {
        self.in_bounds(x, y) && self.cell(x, y).is_mine()
    }

    /// Whether `(x, y)` is a square of the grid that is still open.
    pub open spec fn open_at(self, x: int, y: int) -> bool {
        self.in_bounds(x, y) && self.cell(x, y).is_open()
    }

    /// The number of mines among the first `k` places around `(x, y)`.
    pub open spec fn mines_around_upto(self, x: int, y: int, k: int) -> int
        decreases k,
    {
        if k <= 0 {
            0
        } else {
            self.mines_around_upto(x, y, k - 1) + if self.mine_at(
                x + offset(k - 1).0,
                y + offset(k - 1).1,
            ) {
                1int
            } else {
                0int
            }
        }
    }

    /// The number of open squares among the first `k` places around
    /// `(x, y)`.
    pub open spec fn open_around_upto(self, x: int, y: int, k: int) -> int
        decreases k,
    {
        if k <= 0 {
            0
        } else {
            self.open_around_upto(x, y, k - 1) + if self.open_at(
                x + offset(k - 1).0,
                y + offset(k - 1).1,
            ) {
                1int
            } else {
                0int
            }
        }
    }

    /// The number of neighbours of `(x, y)` that are a committed or fixed
    /// mine.
    pub open spec fn mines_around(self, x: int, y: int) -> int {
        self.mines_around_upto(x, y, 8)
    }

    /// The number of neighbours of `(x, y)` that are still open.
    pub open spec fn open_around(self, x: int, y: int) -> int {
        self.open_around_upto(x, y, 8)
    }

    /// The partial sums around a square count its mines and its open
    /// neighbours.
    pub proof fn lemma_sums_count_upto(self, x: int, y: int, k: int)
        requires
            0 <= k,
        ensures
            self.low_upto(x, y, k) == self.mines_around_upto(x, y, k),
            self.high_upto(x, y, k) == self.mines_around_upto(x, y, k) + self.open_around_upto(
                x,
                y,
                k,
            ),
            0 <= self.open_around_upto(x, y, k),
        decreases k,
    {
        if k > 0 {
            self.lemma_sums_count_upto(x, y, k - 1);
        }
    }

    /// The range around a square runs from the number of mines among its
    /// neighbours to that number and the number of its open neighbours. So
    /// the range is a single number exactly when no neighbour is open.
    pub proof fn lemma_range_counts(self, x: int, y: int)
        ensures
            self.neighbor_low(x, y) == self.mines_around(x, y),
            self.neighbor_high(x, y) == self.mines_around(x, y) + self.open_around(x, y),
            self.count_is_exact(x, y) <==> self.open_around(x, y) == 0,
    {
        self.lemma_sums_count_upto(x, y, 8);
    }

    /// Filling in the clues changes no range: the filled grid has, on every
    /// square, a cell that stands for the same range of mines.
    pub proof fn lemma_filled_same_ranges(self)
        requires
            self.wf(),
        ensures
            self.filled().wf(),
            self.same_ranges(self.filled()),
            forall|x: int, y: int|
                self.neighbor_low(x, y) == #[trigger] self.filled().neighbor_low(x, y)
                    && self.neighbor_high(x, y) == self.filled().neighbor_high(x, y),
    {
        let f = self.filled();
        assert forall|x: int, y: int| self.in_bounds(x, y) implies (#[trigger] self.cell(
            x,
            y,
        )).low() == f.cell(x, y).low() && self.cell(x, y).high() == f.cell(x, y).high() by {
            assert(f.cell(x, y) == self.filled_cell(x, y));
        }
        assert forall|x: int, y: int|
            self.neighbor_low(x, y) == #[trigger] f.neighbor_low(x, y) && self.neighbor_high(x, y)
                == f.neighbor_high(x, y) by {
            self.lemma_same_ranges(f, x, y);
        }
    }

    /// After the clues are filled in, every revealed square shows the
    /// number of mines among its neighbours. Where the numbers were settled
    /// before, no revealed square has an open neighbour, every clue lies in
    /// the range around it, and the clues can be filled in again.
    pub proof fn lemma_filled_clues(self, x: int, y: int)
        requires
            self.wf(),
            self.in_bounds(x, y),
            self.cell(x, y) is Discovered,
        ensures
            self.filled().cell(x, y) == Cell::Discovered(
                Some(self.filled().mines_around(x, y) as u8),
            ),
            0 <= self.filled().mines_around(x, y) <= 8,
            self.discovered_exact() ==> self.filled().open_around(x, y) == 0,
            self.discovered_exact() ==> self.filled().clues_hold(),
            self.discovered_exact() ==> self.filled().discovered_exact(),
    {
        let f = self.filled();
        self.lemma_filled_same_ranges();
        self.lemma_neighbor_sums(x, y);
        f.lemma_range_counts(x, y);
        assert(f.cell(x, y) == self.filled_cell(x, y));
        assert(f.neighbor_low(x, y) == self.neighbor_low(x, y));
        if self.discovered_exact() {
            assert(self.count_is_exact(x, y));
            assert(f.neighbor_high(x, y) == self.neighbor_high(x, y));
            assert forall|a: int, b: int| f.in_bounds(a, b) implies #[trigger] f.clue_holds(
                a,
                b,
            ) by {
                assert(f.cell(a, b) == self.filled_cell(a, b));
                self.lemma_neighbor_sums(a, b);
                assert(f.neighbor_low(a, b) == self.neighbor_low(a, b));
                assert(f.neighbor_high(a, b) == self.neighbor_high(a, b));
                if self.cell(a, b) is Discovered {
                    assert(self.count_is_exact(a, b));
                }
            }
            assert forall|a: int, b: int| f.in_bounds(a, b) implies match #[trigger] f.cell(a, b) {
                Cell::Discovered(Some(n)) => f.count_is_exact(a, b) && n == f.neighbor_low(a, b),
                Cell::Discovered(None) => f.count_is_exact(a, b),
                _ => true,
            } by {
                assert(f.cell(a, b) == self.filled_cell(a, b));
                self.lemma_neighbor_sums(a, b);
                assert(f.neighbor_low(a, b) == self.neighbor_low(a, b));
                assert(f.neighbor_high(a, b) == self.neighbor_high(a, b));
                if self.cell(a, b) is Discovered {
                    assert(self.count_is_exact(a, b));
                }
            }
        }
    }

    /// Filling in the clues adds no mine and takes none away.
    pub proof fn lemma_filled_mines(self)
        requires
            self.wf(),
        ensures
            self.filled().mine_count() == self.mine_count(),
    {
        let f = self.filled();
        self.lemma_filled_same_ranges();
        assert forall|x: int, y: int| self.in_bounds(x, y) implies ((#[trigger] f.cell(
            x,
            y,
        )).is_mine() <==> self.cell(x, y).is_mine()) by {
            assert(f.cell(x, y) == self.filled_cell(x, y));
        }
        assert forall|x: int, y: int| self.in_bounds(x, y) && (#[trigger] self.cell(
            x,
            y,
        )).is_mine() implies f.cell(x, y).is_mine() by {
            assert(f.cell(x, y) == self.filled_cell(x, y));
        }
        self.lemma_fewer_mines(f);
        f.lemma_fewer_mines(self);
    }

    /// Filling in the clues a second time changes nothing.
    pub proof fn lemma_filled_twice(self)
        requires
            self.wf(),
        ensures
            self.filled().filled() == self.filled(),
    {
        let f = self.filled();
        self.lemma_filled_same_ranges();
        assert forall|p: (int, int)| f.in_bounds(p.0, p.1) implies f.filled_cell(p.0, p.1)
            == self.filled_cell(p.0, p.1) by {
            assert(f.cell(p.0, p.1) == self.filled_cell(p.0, p.1));
            assert(f.neighbor_low(p.0, p.1) == self.neighbor_low(p.0, p.1));
        }
        assert(f.filled().cells =~= f.cells);
    }
}

} // verus!
