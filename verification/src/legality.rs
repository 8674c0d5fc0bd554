use vstd::prelude::*;
use crate::cell::Cell;
use crate::grid::{adjacent, lemma_adjacent_offset, lemma_offsets, mine_value, offset, Grid};

verus! {

impl Grid {
    /// Replacing the cell of one square changes what that square holds and
    /// nothing at any other place.
    pub proof fn lemma_with_cell_at(self, x: int, y: int, c: Cell, a: int, b: int)
        requires
            self.in_bounds(x, y),
        ensures
            self.with_cell(x, y, c).in_bounds(a, b) == self.in_bounds(a, b),
            self.with_cell(x, y, c).cell(a, b) == (if a == x && b == y {
                c
            } else {
                self.cell(a, b)
            }),
            self.with_cell(x, y, c).low_at(a, b) == (if a == x && b == y {
                c.low()
            } else {
                self.low_at(a, b)
            }),
            self.with_cell(x, y, c).high_at(a, b) == (if a == x && b == y {
                c.high()
            } else {
                self.high_at(a, b)
            }),
    {
    }

    /// Replacing the cell of one square changes the sums around the squares
    /// that touch it by the change of that cell's range, and no other sums.
    pub proof fn lemma_with_cell_sums(self, x: int, y: int, c: Cell, nx: int, ny: int)
        requires
            self.in_bounds(x, y),
        ensures
            adjacent(x, y, nx, ny) ==> {
                &&& self.with_cell(x, y, c).neighbor_low(nx, ny) == self.neighbor_low(nx, ny)
                    - self.cell(x, y).low() + c.low()
                &&& self.with_cell(x, y, c).neighbor_high(nx, ny) == self.neighbor_high(nx, ny)
                    - self.cell(x, y).high() + c.high()
            },
            !adjacent(x, y, nx, ny) ==> {
                &&& self.with_cell(x, y, c).neighbor_low(nx, ny) == self.neighbor_low(nx, ny)
                &&& self.with_cell(x, y, c).neighbor_high(nx, ny) == self.neighbor_high(nx, ny)
            },
    {
        self.lemma_neighbor_sums(nx, ny);
        self.with_cell(x, y, c).lemma_neighbor_sums(nx, ny);
        self.lemma_with_cell_at(x, y, c, nx - 1, ny - 1);
        self.lemma_with_cell_at(x, y, c, nx - 1, ny);
        self.lemma_with_cell_at(x, y, c, nx - 1, ny + 1);
        self.lemma_with_cell_at(x, y, c, nx, ny - 1);
        self.lemma_with_cell_at(x, y, c, nx, ny + 1);
        self.lemma_with_cell_at(x, y, c, nx + 1, ny - 1);
        self.lemma_with_cell_at(x, y, c, nx + 1, ny);
        self.lemma_with_cell_at(x, y, c, nx + 1, ny + 1);
    }

    /// A value is legal for a square exactly when, with the square committed
    /// to it, every clue that touches the square lies in the range of the
    /// mines around that clue.
    pub proof fn lemma_legal_means_clues_hold(self, x: int, y: int, value: bool)
        requires
            self.in_bounds(x, y),
        ensures
            self.assignment_is_legal(x, y, value) <==> (forall|nx: int, ny: int|
                adjacent(x, y, nx, ny) && self.in_bounds(nx, ny) ==> #[trigger] self.with_cell(
                    x,
                    y,
                    Cell::Quantum(Some(value)),
                ).clue_holds(nx, ny)),
    {
        let c = Cell::Quantum(Some(value));
        let after = self.with_cell(x, y, c);
        assert(c.low() == mine_value(value) && c.high() == mine_value(value));
        assert forall|nx: int, ny: int| adjacent(x, y, nx, ny) && self.in_bounds(nx, ny) implies (
        self.clue_admits(x, y, value, nx, ny) <==> #[trigger] after.clue_holds(nx, ny)) by {
            self.lemma_with_cell_sums(x, y, c, nx, ny);
            assert(after.cell(nx, ny) == self.cell(nx, ny));
        }
        if self.assignment_is_legal(x, y, value) {
            assert forall|nx: int, ny: int|
                adjacent(x, y, nx, ny) && self.in_bounds(nx, ny) implies #[trigger] after.clue_holds(
                nx,
                ny,
            ) by {
                let k = lemma_adjacent_offset(x, y, nx, ny);
                assert(self.clue_admits(x, y, value, x + offset(k).0, y + offset(k).1));
            }
        }
        if forall|nx: int, ny: int|
            adjacent(x, y, nx, ny) && self.in_bounds(nx, ny) ==> #[trigger] after.clue_holds(nx, ny) {
            assert forall|j: int| 0 <= j < 8 implies #[trigger] self.clue_admits(
                x,
                y,
                value,
                x + offset(j).0,
                y + offset(j).1,
            ) by {
                lemma_offsets(j);
                let nx = x + offset(j).0;
                let ny = y + offset(j).1;
                if self.in_bounds(nx, ny) {
                    assert(after.clue_holds(nx, ny));
                }
            }
        }
    }

    /// Whether a value is legal for a square does not depend on the cell
    /// that the square holds.
    pub proof fn lemma_legal_ignores_own_cell(self, x: int, y: int, c: Cell, value: bool)
        requires
            self.in_bounds(x, y),
        ensures
            self.with_cell(x, y, c).assignment_is_legal(x, y, value) == self.assignment_is_legal(
                x,
                y,
                value,
            ),
    {
        let other = self.with_cell(x, y, c);
        let done = Cell::Quantum(Some(value));
        self.lemma_legal_means_clues_hold(x, y, value);
        other.lemma_legal_means_clues_hold(x, y, value);
        assert(other.with_cell(x, y, done).cells =~= self.with_cell(x, y, done).cells);
    }

    /// Committing a legal value to a square keeps every clue of the grid in
    /// the range of the mines around it.
    pub proof fn lemma_commit_keeps_clues(self, x: int, y: int, value: bool)
        requires
            self.in_bounds(x, y),
            self.clues_hold(),
            self.assignment_is_legal(x, y, value),
        ensures
            self.with_cell(x, y, Cell::Quantum(Some(value))).clues_hold(),
    {
        let c = Cell::Quantum(Some(value));
        let after = self.with_cell(x, y, c);
        self.lemma_legal_means_clues_hold(x, y, value);
        assert forall|a: int, b: int| after.in_bounds(a, b) implies #[trigger] after.clue_holds(
            a,
            b,
        ) by {
            if a == x && b == y {
                assert(after.cell(a, b) == c);
            } else if adjacent(x, y, a, b) {
            } else {
                self.lemma_with_cell_sums(x, y, c, a, b);
                assert(after.cell(a, b) == self.cell(a, b));
                assert(self.clue_holds(a, b));
            }
        }
    }

    /// Of an open square and a clue that touches it and lies in its range,
    /// the clue admits a mine on the square, or a safe square, or both.
    pub proof fn lemma_open_square_has_a_value(self, x: int, y: int, nx: int, ny: int)
        requires
            self.in_bounds(x, y),
            self.in_bounds(nx, ny),
            adjacent(x, y, nx, ny),
            self.cell(x, y) == Cell::Quantum(None),
            self.clue_holds(nx, ny),
        ensures
            self.clue_admits(x, y, true, nx, ny) || self.clue_admits(x, y, false, nx, ny),
    {
        self.lemma_neighbor_counts(x, y, nx, ny);
    }
}

} // verus!
