use vstd::prelude::*;
use crate::cell::Cell;

verus! {

/// The mathematical value of a board: its two side lengths and the cell at
/// each coordinate pair inside them.
pub struct Grid {
    pub width: nat,
    pub height: nat,
    pub cells: Map<(int, int), Cell>,
}

/// The eight steps to the squares around a square, in the order in which
/// neighbours are listed: `dx` from -1 to 1, and for each `dx` the `dy` from
/// -1 to 1, the step `(0, 0)` left out.
pub open spec fn offset(k: int) -> (int, int) {
    if k == 0 {
        (-1, -1)
    } else if k == 1 {
        (-1, 0)
    } else if k == 2 {
        (-1, 1)
    } else if k == 3 {
        (0, -1)
    } else if k == 4 {
        (0, 1)
    } else if k == 5 {
        (1, -1)
    } else if k == 6 {
        (1, 0)
    } else {
        (1, 1)
    }
}

/// Whether two squares touch: they differ, and by at most one in each
/// coordinate.
pub open spec fn adjacent(x: int, y: int, nx: int, ny: int) -> bool {
    &&& x - 1 <= nx <= x + 1
    &&& y - 1 <= ny <= y + 1
    &&& !(nx == x && ny == y)
}

/// The number that a committed value adds to a clue: 1 for a mine, 0 for a
/// safe square.
pub open spec fn mine_value(value: bool) -> int {
    if value {
        1
    } else {
        0
    }
}

impl Grid {
    /// Whether `(x, y)` is a square of the grid.
    pub open spec fn in_bounds(self, x: int, y: int) -> bool {
        0 <= x < self.width && 0 <= y < self.height
    }

    /// The cell at `(x, y)`.
    #[verifier::inline]
    pub open spec fn cell(self, x: int, y: int) -> Cell {
        self.cells[(x, y)]
    }

    /// Whether the grid is one that a board can have: both sides are machine
    /// integers, and the map of cells holds exactly the squares of the grid.
    pub open spec fn wf(self) -> bool {
        &&& self.width <= usize::MAX
        &&& self.height <= usize::MAX
        &&& forall|p: (int, int)| self.cells.dom().contains(p) <==> self.in_bounds(p.0, p.1)
    }

    /// The squares of the grid in their fixed order: by `x`, and for equal
    /// `x` by `y`.
    pub open spec fn points(self) -> Seq<(usize, usize)> {
        Seq::new(
            self.width * self.height,
            |i: int| ((i / (self.height as int)) as usize, (i % (self.height as int)) as usize),
        )
    }

    /// The grid with the cell at `(x, y)` replaced by `c`.
    pub open spec fn with_cell(self, x: int, y: int, c: Cell) -> Grid {
        Grid { width: self.width, height: self.height, cells: self.cells.insert((x, y), c) }
    }

    /// The least number of mines at `(x, y)`; a place outside the grid holds
    /// none.
    pub open spec fn low_at(self, x: int, y: int) -> int {
        if self.in_bounds(x, y) {
            self.cell(x, y).low()
        } else {
            0
        }
    }

    /// The greatest number of mines at `(x, y)`; a place outside the grid
    /// holds none.
    pub open spec fn high_at(self, x: int, y: int) -> int {
        if self.in_bounds(x, y) {
            self.cell(x, y).high()
        } else {
            0
        }
    }

    /// The sum of `low_at` over the first `k` places around `(x, y)`.
    pub open spec fn low_upto(self, x: int, y: int, k: int) -> int
        decreases k,
    {
        if k <= 0 {
            0
        } else {
            self.low_upto(x, y, k - 1) + self.low_at(x + offset(k - 1).0, y + offset(k - 1).1)
        }
    }

    /// The sum of `high_at` over the first `k` places around `(x, y)`.
    pub open spec fn high_upto(self, x: int, y: int, k: int) -> int
        decreases k,
    {
        if k <= 0 {
            0
        } else {
            self.high_upto(x, y, k - 1) + self.high_at(x + offset(k - 1).0, y + offset(k - 1).1)
        }
    }

    /// The least number of mines around `(x, y)`: the sum of the lows of its
    /// neighbours.
    pub open spec fn neighbor_low(self, x: int, y: int) -> int {
        self.low_upto(x, y, 8)
    }

    /// The greatest number of mines around `(x, y)`: the sum of the highs of
    /// its neighbours.
    pub open spec fn neighbor_high(self, x: int, y: int) -> int {
        self.high_upto(x, y, 8)
    }

    /// The neighbours of `(x, y)` among the first `k` places around it, each
    /// with its cell.
    pub open spec fn neighbors_upto(self, x: int, y: int, k: int) -> Seq<(usize, usize, Cell)>
        decreases k,
    {
        if k <= 0 {
            Seq::empty()
        } else {
            let nx = x + offset(k - 1).0;
            let ny = y + offset(k - 1).1;
            let before = self.neighbors_upto(x, y, k - 1);
            if self.in_bounds(nx, ny) {
                before.push((nx as usize, ny as usize, self.cell(nx, ny)))
            } else {
                before
            }
        }
    }

    /// The squares of the grid that touch `(x, y)`, each with its cell.
    pub open spec fn neighbors(self, x: int, y: int) -> Seq<(usize, usize, Cell)> {
        self.neighbors_upto(x, y, 8)
    }

    /// Whether some neighbour of `(x, y)` among the first `k` places around
    /// it is revealed.
    pub open spec fn touches_discovered_upto(self, x: int, y: int, k: int) -> bool {
        exists|j: int|
            0 <= j < k && self.in_bounds(x + offset(j).0, y + offset(j).1) && #[trigger] self.cell(
                x + offset(j).0,
                y + offset(j).1,
            ) is Discovered
    }

    /// Whether some neighbour of `(x, y)` is revealed.
    pub open spec fn touches_discovered(self, x: int, y: int) -> bool {
        self.touches_discovered_upto(x, y, 8)
    }

    /// Whether the clue at `(nx, ny)`, if that square shows one, still can be
    /// met once the square `(x, y)` stands for exactly `mine_value(value)`
    /// mines: the range around `(nx, ny)`, with the present range of `(x, y)`
    /// taken out and the new value put in on both ends, holds the clue.
    pub open spec fn clue_admits(self, x: int, y: int, value: bool, nx: int, ny: int) -> bool {
        self.in_bounds(nx, ny) ==> match self.cell(nx, ny) {
            Cell::Discovered(Some(n)) => {
                &&& self.neighbor_low(nx, ny) - self.cell(x, y).low() + mine_value(value) <= n
                &&& n <= self.neighbor_high(nx, ny) - self.cell(x, y).high() + mine_value(value)
            },
            _ => true,
        }
    }

    /// Whether the clues at the first `k` places around `(x, y)` admit
    /// `value` there.
    pub open spec fn legal_upto(self, x: int, y: int, value: bool, k: int) -> bool {
        forall|j: int|
            0 <= j < k ==> #[trigger] self.clue_admits(
                x,
                y,
                value,
                x + offset(j).0,
                y + offset(j).1,
            )
    }

    /// Whether giving `(x, y)` the value `value` leaves every clue around it
    /// satisfiable.
    pub open spec fn assignment_is_legal(self, x: int, y: int, value: bool) -> bool {
        self.legal_upto(x, y, value, 8)
    }

    /// Whether the clue at `(x, y)`, if that square shows one, lies in the
    /// range of the mines around it.
    pub open spec fn clue_holds(self, x: int, y: int) -> bool {
        match self.cell(x, y) {
            Cell::Discovered(Some(n)) => self.neighbor_low(x, y) <= n <= self.neighbor_high(x, y),
            _ => true,
        }
    }

    /// Whether every clue on the grid lies in the range of the mines around
    /// it.
    pub open spec fn clues_hold(self) -> bool {
        forall|x: int, y: int| self.in_bounds(x, y) ==> #[trigger] self.clue_holds(x, y)
    }

    /// Whether the number of mines around `(x, y)` is settled: no neighbour
    /// is still open.
    pub open spec fn count_is_exact(self, x: int, y: int) -> bool {
        self.neighbor_low(x, y) == self.neighbor_high(x, y)
    }

    /// Whether the number of mines is settled around every revealed square
    /// that has no clue yet.
    pub open spec fn pending_counts_exact(self) -> bool {
        forall|x: int, y: int|
            self.in_bounds(x, y) && #[trigger] self.cell(x, y) == Cell::Discovered(None)
                ==> self.count_is_exact(x, y)
    }

    /// The clues that the revealed squares without one are owed, over the
    /// first `n` squares of `points`: each such square with the least number
    /// of mines around it.
    pub open spec fn pending_counts_upto(self, n: int) -> Seq<((usize, usize), u8)>
        decreases n,
    {
        if n <= 0 {
            Seq::empty()
        } else {
            let p = self.points()[n - 1];
            let before = self.pending_counts_upto(n - 1);
            if self.cell(p.0 as int, p.1 as int) == Cell::Discovered(None) {
                before.push((p, self.neighbor_low(p.0 as int, p.1 as int) as u8))
            } else {
                before
            }
        }
    }

    /// The clues that the revealed squares without one are owed, in the order
    /// of `points`.
    pub open spec fn pending_counts(self) -> Seq<((usize, usize), u8)> {
        self.pending_counts_upto(self.points().len() as int)
    }

    /// Whether the square `p` is revealed and has no clue yet.
    pub open spec fn is_pending(self, p: (usize, usize)) -> bool {
        self.in_bounds(p.0 as int, p.1 as int) && self.cell(p.0 as int, p.1 as int)
            == Cell::Discovered(None)
    }

    /// Whether every revealed square can be given its clue: the number of
    /// mines around it is settled, and a clue that it already shows is that
    /// number.
    pub open spec fn discovered_exact(self) -> bool {
        forall|x: int, y: int|
            self.in_bounds(x, y) ==> match #[trigger] self.cell(x, y) {
                Cell::Discovered(Some(n)) => self.count_is_exact(x, y) && n == self.neighbor_low(
                    x,
                    y,
                ),
                Cell::Discovered(None) => self.count_is_exact(x, y),
                _ => true,
            }
    }

    /// The cell that `(x, y)` holds once the clues are filled in: a revealed
    /// square shows the least number of mines around it, any other square is
    /// as it was.
    pub open spec fn filled_cell(self, x: int, y: int) -> Cell {
        match self.cell(x, y) {
            Cell::Discovered(_) => Cell::Discovered(Some(self.neighbor_low(x, y) as u8)),
            c => c,
        }
    }

    /// The grid with the clue of every revealed square filled in.
    pub open spec fn filled(self) -> Grid {
        Grid {
            width: self.width,
            height: self.height,
            cells: Map::new(
                |p: (int, int)| self.in_bounds(p.0, p.1),
                |p: (int, int)| self.filled_cell(p.0, p.1),
            ),
        }
    }

    /// Whether `other` has the sides of this grid and, on every square, a
    /// cell that stands for the same range of mines.
    pub open spec fn same_ranges(self, other: Grid) -> bool {
        &&& self.width == other.width
        &&& self.height == other.height
        &&& forall|x: int, y: int|
            self.in_bounds(x, y) ==> (#[trigger] self.cell(x, y)).low() == other.cell(x, y).low()
                && self.cell(x, y).high() == other.cell(x, y).high()
    }
}

/// Each step is one of the eight around the origin, and the step opposite to
/// the `k`-th is the `(7 - k)`-th.
pub proof fn lemma_offsets(k: int)
    requires
        0 <= k < 8,
    ensures
        adjacent(0, 0, offset(k).0, offset(k).1),
        offset(7 - k) == (-offset(k).0, -offset(k).1),
{
}

/// Every square that touches `(x, y)` is reached by exactly one of the eight
/// steps.
pub proof fn lemma_adjacent_offset(x: int, y: int, nx: int, ny: int) -> (k: int)
    requires
        adjacent(x, y, nx, ny),
    ensures
        0 <= k < 8,
        nx == x + offset(k).0,
        ny == y + offset(k).1,
{
    let dx = nx - x;
    let dy = ny - y;
    if dx == -1 {
        dy + 1
    } else if dx == 0 {
        if dy == -1 {
            3
        } else {
            4
        }
    } else {
        dy + 6
    }
}

impl Grid {
    /// The square `(x, y)` of the grid stands in `points` at `x * height + y`.
    pub proof fn lemma_point_index(self, x: int, y: int)
        requires
            self.in_bounds(x, y),
        ensures
            0 <= x * self.height + y < self.points().len(),
            x < usize::MAX && y < usize::MAX ==> self.points()[x * self.height + y] == (
                x as usize,
                y as usize,
            ),
    {
        let h = self.height as int;
        let w = self.width as int;
        assert(x * h + y < w * h) by (nonlinear_arith)
            requires
                0 <= x < w,
                0 <= y < h,
        ;
        assert(0 <= x * h) by (nonlinear_arith)
            requires
                0 <= x,
                0 <= h,
        ;
        vstd::arithmetic::div_mod::lemma_fundamental_div_mod_converse(x * h + y, h, x, y);
    }

    /// Every entry of `points` is a square of the grid, and stands at the
    /// place that its coordinates give.
    pub proof fn lemma_points_in_bounds(self, i: int)
        requires
            0 <= i < self.points().len(),
        ensures
            self.in_bounds(i / (self.height as int), i % (self.height as int)),
            i == (i / (self.height as int)) * self.height + i % (self.height as int),
    {
        let h = self.height as int;
        let w = self.width as int;
        assert(h > 0) by (nonlinear_arith)
            requires
                0 <= i < w * h,
                0 <= h,
        ;
        vstd::arithmetic::div_mod::lemma_fundamental_div_mod(i, h);
        vstd::arithmetic::div_mod::lemma_mod_bound(i, h);
        assert(i == (i / h) * h + i % h) by (nonlinear_arith)
            requires
                i == h * (i / h) + i % h,
        ;
        assert(0 <= i / h < w) by (nonlinear_arith)
            requires
                0 <= i < w * h,
                h > 0,
                i == (i / h) * h + i % h,
                0 <= i % h < h,
        ;
    }

    /// The sums around a square, written out: each is the sum over the eight
    /// places around it.
    pub proof fn lemma_neighbor_sums(self, x: int, y: int)
        ensures
            self.neighbor_low(x, y) == self.low_at(x - 1, y - 1) + self.low_at(x - 1, y)
                + self.low_at(x - 1, y + 1) + self.low_at(x, y - 1) + self.low_at(x, y + 1)
                + self.low_at(x + 1, y - 1) + self.low_at(x + 1, y) + self.low_at(x + 1, y + 1),
            self.neighbor_high(x, y) == self.high_at(x - 1, y - 1) + self.high_at(x - 1, y)
                + self.high_at(x - 1, y + 1) + self.high_at(x, y - 1) + self.high_at(x, y + 1)
                + self.high_at(x + 1, y - 1) + self.high_at(x + 1, y) + self.high_at(x + 1, y + 1),
            0 <= self.neighbor_low(x, y) <= self.neighbor_high(x, y) <= 8,
    {
        reveal_with_fuel(Grid::low_upto, 9);
        reveal_with_fuel(Grid::high_upto, 9);
    }

    /// Grids whose cells stand for the same ranges have the same sums around
    /// every place.
    pub proof fn lemma_same_ranges(self, other: Grid, x: int, y: int)
        requires
            self.same_ranges(other),
        ensures
            self.neighbor_low(x, y) == other.neighbor_low(x, y),
            self.neighbor_high(x, y) == other.neighbor_high(x, y),
    {
        self.lemma_neighbor_sums(x, y);
        other.lemma_neighbor_sums(x, y);
    }

    /// Where every cell of `other` stands for a range that holds the range
    /// of the cell of this grid, the range around every place of `other`
    /// holds the range around that place of this grid.
    pub proof fn lemma_wider_ranges(self, other: Grid, x: int, y: int)
        requires
            self.width == other.width,
            self.height == other.height,
            forall|a: int, b: int|
                self.in_bounds(a, b) ==> (#[trigger] other.cell(a, b)).low() <= self.cell(
                    a,
                    b,
                ).low() && self.cell(a, b).high() <= other.cell(a, b).high(),
        ensures
            other.neighbor_low(x, y) <= self.neighbor_low(x, y),
            self.neighbor_high(x, y) <= other.neighbor_high(x, y),
    {
        self.lemma_neighbor_sums(x, y);
        other.lemma_neighbor_sums(x, y);
    }

    /// A square of the grid counts in the sums around each square that it
    /// touches.
    pub proof fn lemma_neighbor_counts(self, x: int, y: int, nx: int, ny: int)
        requires
            self.in_bounds(x, y),
            crate::grid::adjacent(x, y, nx, ny),
        ensures
            self.cell(x, y).low() <= self.neighbor_low(nx, ny),
            self.cell(x, y).high() <= self.neighbor_high(nx, ny),
            self.neighbor_low(nx, ny) - self.cell(x, y).low() <= self.neighbor_high(nx, ny)
                - self.cell(x, y).high() <= 7,
    {
        self.lemma_neighbor_sums(nx, ny);
    }

    /// Among the first `n` squares, the clues owed are those of the pending
    /// squares: every entry is a pending square with the least number of
    /// mines around it, and every pending square has its entry.
    pub proof fn lemma_pending_counts_upto(self, n: int)
        requires
            self.wf(),
            0 <= n <= self.points().len(),
        ensures
            forall|i: int|
                0 <= i < self.pending_counts_upto(n).len() ==> {
                    let e = #[trigger] self.pending_counts_upto(n)[i];
                    self.is_pending(e.0) && e.1 == self.neighbor_low(e.0.0 as int, e.0.1 as int)
                },
            forall|k: int|
                0 <= k < n && self.is_pending(#[trigger] self.points()[k]) ==> exists|i: int|
                    0 <= i < self.pending_counts_upto(n).len() && (
                    #[trigger] self.pending_counts_upto(n)[i]).0 == self.points()[k],
        decreases n,
    {
        if n > 0 {
            self.lemma_pending_counts_upto(n - 1);
            self.lemma_points_in_bounds(n - 1);
            self.lemma_neighbor_sums(
                self.points()[n - 1].0 as int,
                self.points()[n - 1].1 as int,
            );
            let before = self.pending_counts_upto(n - 1);
            let all = self.pending_counts_upto(n);
            assert forall|k: int|
                0 <= k < n && self.is_pending(#[trigger] self.points()[k]) implies exists|i: int|
                0 <= i < all.len() && (#[trigger] all[i]).0 == self.points()[k] by {
                if k < n - 1 {
                    let i = choose|i: int|
                        0 <= i < before.len() && (#[trigger] before[i]).0 == self.points()[k];
                    assert(all[i].0 == self.points()[k]);
                } else {
                    assert(all[all.len() - 1].0 == self.points()[k]);
                }
            }
        }
    }

    /// The clues owed are those of the pending squares: every entry of
    /// `pending_counts` is a pending square with the least number of mines
    /// around it, and every pending square has its entry.
    pub proof fn lemma_pending_counts(self, x: int, y: int)
        requires
            self.wf(),
            self.in_bounds(x, y),
        ensures
            forall|i: int|
                0 <= i < self.pending_counts().len() ==> {
                    let e = #[trigger] self.pending_counts()[i];
                    self.is_pending(e.0) && e.1 == self.neighbor_low(e.0.0 as int, e.0.1 as int)
                },
            self.cell(x, y) == Cell::Discovered(None) ==> exists|i: int|
                0 <= i < self.pending_counts().len() && #[trigger] self.pending_counts()[i] == (
                    (x as usize, y as usize),
                    self.neighbor_low(x, y) as u8,
                ),
    {
        let n = self.points().len() as int;
        self.lemma_pending_counts_upto(n);
        self.lemma_point_index(x, y);
        self.lemma_neighbor_sums(x, y);
        if self.cell(x, y) == Cell::Discovered(None) {
            let k = x * self.height + y;
            assert(self.is_pending(self.points()[k]));
            let i = choose|i: int|
                0 <= i < self.pending_counts_upto(n).len() && (
                #[trigger] self.pending_counts_upto(n)[i]).0 == self.points()[k];
            assert(self.pending_counts()[i] == (
                (x as usize, y as usize),
                self.neighbor_low(x, y) as u8,
            ));
        }
    }

    /// The partial sums around a square are ordered and bounded by the number
    /// of places summed.
    pub proof fn lemma_upto_bounds(self, x: int, y: int, k: int)
        requires
            0 <= k,
        ensures
            0 <= self.low_upto(x, y, k) <= self.high_upto(x, y, k) <= k,
        decreases k,
    {
        if k > 0 {
            self.lemma_upto_bounds(x, y, k - 1);
        }
    }
}

} // verus!
