use vstd::prelude::*;
use std::ops::RangeInclusive;
use crate::cell::Cell;
use crate::grid::{lemma_offsets, mine_value, offset, Grid};
use crate::storage::{
    array_cells, array_clone, array_default, array_dim, array_get, array_set, array_shape,
    CellArray,
};

verus! {

/// A minesweeper board: a grid of cells of fixed size.
#[derive(Debug)]
pub struct Board {
    cells: CellArray,
}

impl View for Board {
    type V = Grid;

    closed spec fn view(&self) -> Grid {
        Grid {
            width: array_shape(self.cells).0 as nat,
            height: array_shape(self.cells).1 as nat,
            cells: Map::new(
                |p: (int, int)|
                    0 <= p.0 < array_shape(self.cells).0 && 0 <= p.1 < array_shape(self.cells).1,
                |p: (int, int)| array_cells(self.cells)[p],
            ),
        }
    }
}

impl Clone for Board {
    fn clone(&self) -> (b: Board)
        ensures
            b@ == self@,
    {
        let b = Board { cells: array_clone(&self.cells) };
        assert(b@.cells =~= self@.cells);
        b
    }
}

/// The `k`-th of the eight steps, as machine integers.
fn step(k: usize) -> (d: (isize, isize))
    requires
        k < 8,
    ensures
        (d.0 as int, d.1 as int) == offset(k as int),
{
    if k == 0 {
        (-1, -1)
    } else if k == 1 {
        (-1, 0)
    } else if k == 2 {
        (-1, 1)
    } else if k == 3 {
        (0, -1)
    } else if k == 4 {
        (0, 1)
    } else if k == 5 {
        (1, -1)
    } else if k == 6 {
        (1, 0)
    } else {
        (1, 1)
    }
}

impl Board {
    /// The view of a board holds exactly the squares inside its two sides,
    /// and both sides are machine integers.
    pub proof fn lemma_view_wf(&self)
        ensures
            self@.wf(),
    {
    }

    /// A board of `w` columns and `h` rows in which every square is open.
    /// The board has to fit into memory: neither side, nor four times the
    /// number of squares, may exceed `isize::MAX`.
    #[must_use]
    pub fn new(w: usize, h: usize) -> (b: Board)
        requires
            w <= isize::MAX,
            h <= isize::MAX,
            w * h * 4 <= isize::MAX,
        ensures
            b@.width == w,
            b@.height == h,
            b@.wf(),
            forall|x: int, y: int|
                b@.in_bounds(x, y) ==> #[trigger] b@.cell(x, y) == Cell::Quantum(None),
    {
        Board { cells: array_default(w, h) }
    }

    /// The number of columns and the number of rows.
    pub fn dim(&self) -> (d: (usize, usize))
        ensures
            d.0 == self@.width,
            d.1 == self@.height,
    {
        array_dim(&self.cells)
    }

    /// The cell at `(x, y)`, or `None` where that is no square of the board.
    pub fn get(&self, x: usize, y: usize) -> (c: Option<Cell>)
        ensures
            c == (if self@.in_bounds(x as int, y as int) {
                Some(self@.cell(x as int, y as int))
            } else {
                None
            }),
    {
        array_get(&self.cells, x, y)
    }

    /// Replaces the cell at `(x, y)` by `c`.
    pub fn set(&mut self, x: usize, y: usize, c: Cell)
        requires
            old(self)@.in_bounds(x as int, y as int),
        ensures
            final(self)@ == old(self)@.with_cell(x as int, y as int, c),
    {
        array_set(&mut self.cells, x, y, c);
        assert(self@.cells =~= old(self)@.with_cell(x as int, y as int, c).cells);
    }

    /// The squares of the board, by `x` and for equal `x` by `y`.
    pub fn points(&self) -> (pts: Vec<(usize, usize)>)
        ensures
            pts@ == self@.points(),
    {
        let (width, height) = self.dim();
        let mut pts: Vec<(usize, usize)> = Vec::new();
        let mut x: usize = 0;
        while x < width
            invariant
                x <= width,
                width == self@.width,
                height == self@.height,
                pts@.len() == x * height,
                forall|i: int| 0 <= i < pts@.len() ==> pts@[i] == #[trigger] self@.points()[i],
            decreases width - x,
        {
            let mut y: usize = 0;
            while y < height
                invariant
                    x < width,
                    y <= height,
                    width == self@.width,
                    height == self@.height,
                    pts@.len() == x * height + y,
                    forall|i: int| 0 <= i < pts@.len() ==> pts@[i] == #[trigger] self@.points()[i],
                decreases height - y,
            {
                proof {
                    self@.lemma_point_index(x as int, y as int);
                }
                pts.push((x, y));
                y += 1;
            }
            assert(x * height + height == (x + 1) * height) by (nonlinear_arith);
            x += 1;
        }
        assert(pts@ =~= self@.points());
        pts
    }

    /// The `k`-th place around `(x, y)` with its cell, where that place is a
    /// square of the board.
    pub(crate) fn neighbor_at(&self, x: usize, y: usize, k: usize) -> (n: Option<
        (usize, usize, Cell),
    >)
        requires
            k < 8,
        ensures
            self@.in_bounds(x + offset(k as int).0, y + offset(k as int).1) ==> n == Some(
                (
                    (x + offset(k as int).0) as usize,
                    (y + offset(k as int).1) as usize,
                    self@.cell(x + offset(k as int).0, y + offset(k as int).1),
                ),
            ),
            !self@.in_bounds(x + offset(k as int).0, y + offset(k as int).1) ==> n.is_none(),
    {
        proof {
            self.lemma_view_wf();
        }
        let (dx, dy) = step(k);
        match x.checked_add_signed(dx) {
            Some(nx) => match y.checked_add_signed(dy) {
                Some(ny) => match self.get(nx, ny) {
                    Some(c) => Some((nx, ny, c)),
                    None => None,
                },
                None => None,
            },
            None => None,
        }
    }

    /// The squares that touch `(x, y)`, each with its cell.
    pub fn neighbors(&self, x: usize, y: usize) -> (ns: Vec<(usize, usize, Cell)>)
        ensures
            ns@ == self@.neighbors(x as int, y as int),
    {
        let mut ns: Vec<(usize, usize, Cell)> = Vec::new();
        let mut k: usize = 0;
        while k < 8
            invariant
                k <= 8,
                ns@ == self@.neighbors_upto(x as int, y as int, k as int),
            decreases 8 - k,
        {
            if let Some(n) = self.neighbor_at(x, y, k) {
                ns.push(n);
            }
            k += 1;
        }
        ns
    }

    /// The least and the greatest number of mines around `(x, y)`.
    pub fn neighbor_bounds(&self, x: usize, y: usize) -> (r: (u8, u8))
        ensures
            r.0 == self@.neighbor_low(x as int, y as int),
            r.1 == self@.neighbor_high(x as int, y as int),
    {
        let mut lo: u8 = 0;
        let mut hi: u8 = 0;
        let mut k: usize = 0;
        while k < 8
            invariant
                k <= 8,
                lo == self@.low_upto(x as int, y as int, k as int),
                hi == self@.high_upto(x as int, y as int, k as int),
            decreases 8 - k,
        {
            proof {
                self@.lemma_upto_bounds(x as int, y as int, k as int);
            }
            if let Some((_, _, c)) = self.neighbor_at(x, y, k) {
                let (l, h) = c.bomb_bounds();
                lo += l;
                hi += h;
            }
            k += 1;
        }
        (lo, hi)
    }

    /// The range of the number of mines around a square: the sum of the lows
    /// and the sum of the highs of its neighbours.
    #[must_use]
    pub fn count_neighboring_bombs(&self, x: usize, y: usize) -> (r: RangeInclusive<u8>)
        ensures
            r@.start == self@.neighbor_low(x as int, y as int),
            r@.end == self@.neighbor_high(x as int, y as int),
            !r@.exhausted,
    {
        let (lo, hi) = self.neighbor_bounds(x, y);
        RangeInclusive::new(lo, hi)
    }

    /// Whether giving `(x, y)` the value `value` would leave every clue
    /// around it satisfiable.
    #[must_use]
    pub fn assignment_is_legal(&self, x: usize, y: usize, value: bool) -> (legal: bool)
        requires
            self@.in_bounds(x as int, y as int),
        ensures
            legal == self@.assignment_is_legal(x as int, y as int, value),
    {
        let new_value: u8 = if value {
            1
        } else {
            0
        };
        let (cur_lo, cur_hi) = match self.get(x, y) {
            Some(c) => c.bomb_bounds(),
            None => (0, 0),
        };
        let mut k: usize = 0;
        while k < 8
            invariant
                k <= 8,
                self@.in_bounds(x as int, y as int),
                new_value == mine_value(value),
                cur_lo == self@.cell(x as int, y as int).low(),
                cur_hi == self@.cell(x as int, y as int).high(),
                self@.legal_upto(x as int, y as int, value, k as int),
            decreases 8 - k,
        {
            if let Some((nx, ny, Cell::Discovered(Some(wants)))) = self.neighbor_at(x, y, k) {
                let (lo, hi) = self.neighbor_bounds(nx, ny);
                proof {
                    lemma_offsets(k as int);
                    self@.lemma_neighbor_counts(x as int, y as int, nx as int, ny as int);
                }
                let least: u8 = lo - cur_lo + new_value;
                let most: u8 = hi - cur_hi + new_value;
                if !(least <= wants && wants <= most) {
                    assert(!self@.clue_admits(
                        x as int,
                        y as int,
                        value,
                        x + offset(k as int).0,
                        y + offset(k as int).1,
                    ));
                    return false;
                }
            }
            k += 1;
        }
        true
    }

    /// Reveals the square `(x, y)`. A safe square becomes revealed with no
    /// clue yet, a revealed one stays as it is, and both give `true`; a mine
    /// or an open square stays as it is and gives `false`.
    pub fn clear_cell(&mut self, x: usize, y: usize) -> (safe: bool)
        requires
            old(self)@.in_bounds(x as int, y as int),
        ensures
            safe == match old(self)@.cell(x as int, y as int) {
                Cell::Quantum(Some(false)) | Cell::Concrete(false) | Cell::Discovered(_) => true,
                _ => false,
            },
            final(self)@ == match old(self)@.cell(x as int, y as int) {
                Cell::Quantum(Some(false)) | Cell::Concrete(false) => old(self)@.with_cell(
                    x as int,
                    y as int,
                    Cell::Discovered(None),
                ),
                _ => old(self)@,
            },
            final(self)@.mine_count() <= old(self)@.mine_count(),
    {
        proof {
            self.lemma_view_wf();
            self@.lemma_with_cell_mines(x as int, y as int, Cell::Discovered(None));
        }
        match self.get(x, y) {
            Some(Cell::Quantum(Some(false))) | Some(Cell::Concrete(false)) => {
                self.set(x, y, Cell::Discovered(None));
                true
            },
            Some(Cell::Discovered(_)) => true,
            _ => false,
        }
    }

    /// For every revealed square without a clue, in the order of `points`,
    /// the square and the least number of mines around it.
    pub fn pending_counts(&self) -> (counts: Vec<((usize, usize), u8)>)
        ensures
            counts@ == self@.pending_counts(),
    {
        let pts = self.points();
        let mut counts: Vec<((usize, usize), u8)> = Vec::new();
        let mut i: usize = 0;
        while i < pts.len()
            invariant
                i <= pts@.len(),
                pts@ == self@.points(),
                counts@ == self@.pending_counts_upto(i as int),
            decreases pts@.len() - i,
        {
            let (x, y) = pts[i];
            if let Some(Cell::Discovered(None)) = self.get(x, y) {
                let (lo, _) = self.neighbor_bounds(x, y);
                counts.push(((x, y), lo));
            } else {
                proof {
                    self@.lemma_points_in_bounds(i as int);
                    self.lemma_view_wf();
                }
            }
            i += 1;
        }
        counts
    }

    /// The clue of every revealed square that has none yet, in the order of
    /// `points`: the exact number of mines around it.
    #[must_use]
    pub fn find_discovered_counts(&self) -> (counts: Vec<((usize, usize), u8)>)
        requires
            self@.pending_counts_exact(),
        ensures
            counts@ == self@.pending_counts(),
    {
        self.pending_counts()
    }

    /// Whether every revealed square can be given its clue.
    pub fn discovered_exact(&self) -> (exact: bool)
        ensures
            exact == self@.discovered_exact(),
    {
        let (width, height) = self.dim();
        let mut x: usize = 0;
        while x < width
            invariant
                x <= width,
                width == self@.width,
                height == self@.height,
                forall|a: int, b: int|
                    0 <= a < x && 0 <= b < height ==> match #[trigger] self@.cell(a, b) {
                        Cell::Discovered(Some(n)) => self@.count_is_exact(a, b) && n
                            == self@.neighbor_low(a, b),
                        Cell::Discovered(None) => self@.count_is_exact(a, b),
                        _ => true,
                    },
            decreases width - x,
        {
            let mut y: usize = 0;
            while y < height
                invariant
                    x < width,
                    y <= height,
                    width == self@.width,
                    height == self@.height,
                    forall|a: int, b: int|
                        (0 <= a < x && 0 <= b < height) || (a == x && 0 <= b < y)
                            ==> match #[trigger] self@.cell(a, b) {
                            Cell::Discovered(Some(n)) => self@.count_is_exact(a, b) && n
                                == self@.neighbor_low(a, b),
                            Cell::Discovered(None) => self@.count_is_exact(a, b),
                            _ => true,
                        },
                decreases height - y,
            {
                if let Some(Cell::Discovered(clue)) = self.get(x, y) {
                    let (lo, hi) = self.neighbor_bounds(x, y);
                    let agrees = match clue {
                        Some(n) => n == lo,
                        None => true,
                    };
                    if lo != hi || !agrees {
                        assert(self@.in_bounds(x as int, y as int));
                        return false;
                    }
                }
                y += 1;
            }
            x += 1;
        }
        true
    }

    /// Gives every revealed square its clue: the number of mines around it.
    pub fn fill_discovered(&mut self)
        requires
            old(self)@.discovered_exact(),
        ensures
            final(self)@ == old(self)@.filled(),
    {
        let (width, height) = self.dim();
        let mut x: usize = 0;
        while x < width
            invariant
                x <= width,
                width == self@.width,
                height == self@.height,
                old(self)@.same_ranges(self@),
                forall|a: int, b: int|
                    self@.in_bounds(a, b) ==> #[trigger] self@.cell(a, b) == (if a < x {
                        old(self)@.filled_cell(a, b)
                    } else {
                        old(self)@.cell(a, b)
                    }),
            decreases width - x,
        {
            let mut y: usize = 0;
            while y < height
                invariant
                    x < width,
                    y <= height,
                    width == self@.width,
                    height == self@.height,
                    old(self)@.same_ranges(self@),
                    forall|a: int, b: int|
                        self@.in_bounds(a, b) ==> #[trigger] self@.cell(a, b) == (if a < x || (a
                            == x && b < y) {
                            old(self)@.filled_cell(a, b)
                        } else {
                            old(self)@.cell(a, b)
                        }),
                decreases height - y,
            {
                if let Some(Cell::Discovered(_)) = self.get(x, y) {
                    let (lo, _) = self.neighbor_bounds(x, y);
                    proof {
                        old(self)@.lemma_same_ranges(self@, x as int, y as int);
                    }
                    self.set(x, y, Cell::Discovered(Some(lo)));
                }
                y += 1;
            }
            x += 1;
        }
        proof {
            self.lemma_view_wf();
            assert(self@.cells =~= old(self)@.filled().cells);
        }
    }
}

} // verus!
