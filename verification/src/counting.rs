use vstd::prelude::*;
use crate::cell::Cell;
use crate::grid::Grid;

verus! {

impl Grid {
    /// Grids of the same sides have the same squares in the same order.
    pub proof fn lemma_same_points(self, other: Grid)
        requires
            self.width == other.width,
            self.height == other.height,
        ensures
            self.points() == other.points(),
    {
        assert(self.points() =~= other.points());
    }

    /// The square at place `i` of `points` is `(x, y)` only where `i` is
    /// `x * height + y`.
    pub proof fn lemma_point_is_unique(self, x: int, y: int, i: int)
        requires
            self.wf(),
            self.in_bounds(x, y),
            0 <= i < self.points().len(),
            self.points()[i] == (x as usize, y as usize),
        ensures
            i == x * self.height + y,
    {
        self.lemma_points_in_bounds(i);
    }

    /// Among the first `n` squares, a grid that has a mine only where this
    /// grid has one has no more mines than this grid.
    pub proof fn lemma_fewer_mines_upto(self, other: Grid, n: int)
        requires
            self.wf(),
            self.width == other.width,
            self.height == other.height,
            0 <= n <= self.points().len(),
            forall|x: int, y: int|
                self.in_bounds(x, y) && (#[trigger] other.cell(x, y)).is_mine() ==> self.cell(
                    x,
                    y,
                ).is_mine(),
        ensures
            other.mines_upto(n) <= self.mines_upto(n),
        decreases n,
    {
        if n > 0 {
            self.lemma_fewer_mines_upto(other, n - 1);
            self.lemma_same_points(other);
            self.lemma_points_in_bounds(n - 1);
            let p = self.points()[n - 1];
            assert(other.cell(p.0 as int, p.1 as int).is_mine() ==> self.cell(
                p.0 as int,
                p.1 as int,
            ).is_mine());
        }
    }

    /// A grid that has a mine only where this grid has one has no more mines
    /// than this grid.
    pub proof fn lemma_fewer_mines(self, other: Grid)
        requires
            self.wf(),
            self.width == other.width,
            self.height == other.height,
            forall|x: int, y: int|
                self.in_bounds(x, y) && (#[trigger] other.cell(x, y)).is_mine() ==> self.cell(
                    x,
                    y,
                ).is_mine(),
        ensures
            other.mine_count() <= self.mine_count(),
    {
        self.lemma_same_points(other);
        self.lemma_fewer_mines_upto(other, self.points().len() as int);
    }

    /// Among the first `n` squares, replacing the cell of one square adds at
    /// most one mine, and none where the new cell is no mine.
    pub proof fn lemma_with_cell_mines_upto(self, x: int, y: int, c: Cell, n: int)
        requires
            self.wf(),
            self.in_bounds(x, y),
            0 <= n <= self.points().len(),
        ensures
            self.with_cell(x, y, c).mines_upto(n) <= self.mines_upto(n) + (if c.is_mine() && x
                * self.height + y < n {
                1int
            } else {
                0int
            }),
        decreases n,
    {
        if n > 0 {
            let after = self.with_cell(x, y, c);
            self.lemma_with_cell_mines_upto(x, y, c, n - 1);
            self.lemma_same_points(after);
            self.lemma_points_in_bounds(n - 1);
            let p = self.points()[n - 1];
            if p == (x as usize, y as usize) {
                self.lemma_point_is_unique(x, y, n - 1);
            } else {
                assert(after.cell(p.0 as int, p.1 as int) == self.cell(p.0 as int, p.1 as int));
            }
        }
    }

    /// Replacing the cell of one square adds at most one mine, and none
    /// where the new cell is no mine.
    pub proof fn lemma_with_cell_mines(self, x: int, y: int, c: Cell)
        requires
            self.wf(),
            self.in_bounds(x, y),
        ensures
            self.with_cell(x, y, c).mine_count() <= self.mine_count() + (if c.is_mine() {
                1int
            } else {
                0int
            }),
    {
        self.lemma_same_points(self.with_cell(x, y, c));
        self.lemma_with_cell_mines_upto(x, y, c, self.points().len() as int);
    }
}

} // verus!
