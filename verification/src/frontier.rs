use vstd::prelude::*;
use std::ops::Range;
use crate::board::Board;
use crate::cell::Cell;
use crate::grid::{offset, Grid};

verus! {

/// Whether the square `p` lies in the window: each coordinate from the
/// start of the window up to, but not with, its end.
pub open spec fn in_window(window: Range<(usize, usize)>, p: (usize, usize)) -> bool {
    &&& window.start.0 <= p.0 < window.end.0
    &&& window.start.1 <= p.1 < window.end.1
}

/// Whether `(x, y)` is one of the first `n` entries of `cells`.
pub open spec fn listed_upto(cells: Seq<(usize, usize)>, n: int, x: int, y: int) -> bool {
    exists|j: int| 0 <= j < n && (#[trigger] cells[j]).0 == x && cells[j].1 == y
}

impl Grid {
    /// The grid with every square that is committed to `value` open again.
    pub open spec fn opened(self, value: bool) -> Grid {
        Grid {
            width: self.width,
            height: self.height,
            cells: Map::new(
                |p: (int, int)| self.in_bounds(p.0, p.1),
                |p: (int, int)|
                    if self.cell(p.0, p.1) == Cell::Quantum(Some(value)) {
                        Cell::Quantum(None)
                    } else {
                        self.cell(p.0, p.1)
                    },
            ),
        }
    }

    /// The grid with every square of `cells` replaced by `c`.
    pub open spec fn painted(self, cells: Seq<(usize, usize)>, c: Cell) -> Grid {
        Grid {
            width: self.width,
            height: self.height,
            cells: Map::new(
                |p: (int, int)| self.in_bounds(p.0, p.1),
                |p: (int, int)|
                    if cells.contains((p.0 as usize, p.1 as usize)) {
                        c
                    } else {
                        self.cell(p.0, p.1)
                    },
            ),
        }
    }

    /// Whether the square is not revealed and not fixed, and touches a
    /// revealed square.
    pub open spec fn is_frontier(self, x: int, y: int) -> bool {
        self.cell(x, y) is Quantum && self.touches_discovered(x, y)
    }

    /// Whether the value of the square is still to be searched. An open
    /// square is. A square committed to a value is, unless the other value
    /// is ruled out by the clues around it even with every square that is
    /// committed to the same value open again.
    pub open spec fn is_free(self, x: int, y: int) -> bool {
        match self.cell(x, y) {
            Cell::Quantum(Some(b)) => self.opened(b).assignment_is_legal(x, y, !b),
            Cell::Quantum(None) => true,
            _ => false,
        }
    }

    /// Whether the square `p` takes part in a collapse inside `window`.
    pub open spec fn is_candidate(self, window: Range<(usize, usize)>, p: (usize, usize)) -> bool {
        &&& in_window(window, p)
        &&& self.is_frontier(p.0 as int, p.1 as int)
        &&& self.is_free(p.0 as int, p.1 as int)
    }

    /// The candidates among the first `n` squares of `points`, in that order.
    pub open spec fn candidates_upto(self, window: Range<(usize, usize)>, n: int) -> Seq<
        (usize, usize),
    >
        decreases n,
    {
        if n <= 0 {
            Seq::empty()
        } else {
            let p = self.points()[n - 1];
            let before = self.candidates_upto(window, n - 1);
            if self.is_candidate(window, p) {
                before.push(p)
            } else {
                before
            }
        }
    }

    /// The squares that take part in a collapse inside `window`, in the
    /// order of `points`.
    pub open spec fn candidates(self, window: Range<(usize, usize)>) -> Seq<(usize, usize)> {
        self.candidates_upto(window, self.points().len() as int)
    }

    /// The number of mines among the first `n` squares of `points`.
    pub open spec fn mines_upto(self, n: int) -> nat
        decreases n,
    {
        if n <= 0 {
            0
        } else {
            let p = self.points()[n - 1];
            self.mines_upto(n - 1) + if self.cell(p.0 as int, p.1 as int).is_mine() {
                1nat
            } else {
                0nat
            }
        }
    }

    /// The number of squares that are a committed or fixed mine.
    pub open spec fn mine_count(self) -> nat {
        self.mines_upto(self.points().len() as int)
    }

    /// Every candidate among the first `n` squares is a square of the grid
    /// and a candidate, and comes from those squares.
    pub proof fn lemma_candidates_upto(self, window: Range<(usize, usize)>, n: int)
        requires
            0 <= n <= self.points().len(),
            self.wf(),
        ensures
            forall|i: int|
                0 <= i < self.candidates_upto(window, n).len() ==> {
                    let p = #[trigger] self.candidates_upto(window, n)[i];
                    self.in_bounds(p.0 as int, p.1 as int) && self.is_candidate(window, p)
                },
            self.candidates_upto(window, n).len() <= n,
        decreases n,
    {
        if n > 0 {
            self.lemma_candidates_upto(window, n - 1);
            self.lemma_points_in_bounds(n - 1);
        }
    }

    /// The candidates are exactly the squares of the grid that take part in
    /// the collapse.
    pub proof fn lemma_candidates(self, window: Range<(usize, usize)>)
        requires
            self.wf(),
        ensures
            forall|p: (usize, usize)| #[trigger]
                self.candidates(window).contains(p) ==> self.in_bounds(p.0 as int, p.1 as int)
                    && self.is_candidate(window, p),
            forall|p: (usize, usize)|
                self.in_bounds(p.0 as int, p.1 as int) && #[trigger] self.is_candidate(window, p)
                    ==> self.candidates(window).contains(p),
    {
        let n = self.points().len() as int;
        self.lemma_candidates_upto(window, n);
        assert forall|p: (usize, usize)| #[trigger]
            self.candidates(window).contains(p) implies self.in_bounds(p.0 as int, p.1 as int)
            && self.is_candidate(window, p) by {
            let i = choose|i: int|
                0 <= i < self.candidates(window).len() && self.candidates(window)[i] == p;
            assert(self.candidates_upto(window, n)[i] == p);
        }
        assert forall|p: (usize, usize)|
            self.in_bounds(p.0 as int, p.1 as int) && #[trigger] self.is_candidate(
                window,
                p,
            ) implies self.candidates(window).contains(p) by {
            self.lemma_point_index(p.0 as int, p.1 as int);
            self.lemma_candidates_hold(window, n, p.0 * self.height + p.1);
        }
    }

    /// A candidate at place `i` of `points` is among the candidates of the
    /// first `n` squares wherever `i` is less than `n`.
    pub proof fn lemma_candidates_hold(self, window: Range<(usize, usize)>, n: int, i: int)
        requires
            0 <= i < n <= self.points().len(),
            self.is_candidate(window, self.points()[i]),
        ensures
            self.candidates_upto(window, n).contains(self.points()[i]),
        decreases n,
    {
        let before = self.candidates_upto(window, n - 1);
        let all = self.candidates_upto(window, n);
        if i == n - 1 {
            assert(all[all.len() - 1] == self.points()[i]);
        } else {
            self.lemma_candidates_hold(window, n - 1, i);
            let j = choose|j: int| 0 <= j < before.len() && before[j] == self.points()[i];
            assert(all[j] == self.points()[i]);
        }
    }

    /// Opening squares that are not revealed keeps every clue in the range
    /// of the mines around it.
    pub proof fn lemma_opening_keeps_clues(self, cells: Seq<(usize, usize)>)
        requires
            self.wf(),
            self.clues_hold(),
            forall|i: int|
                0 <= i < cells.len() ==> self.cell(
                    (#[trigger] cells[i]).0 as int,
                    cells[i].1 as int,
                ) is Quantum,
        ensures
            self.painted(cells, Cell::Quantum(None)).clues_hold(),
    {
        let open = self.painted(cells, Cell::Quantum(None));
        assert forall|a: int, b: int| self.in_bounds(a, b) implies (#[trigger] open.cell(
            a,
            b,
        )).low() <= self.cell(a, b).low() && self.cell(a, b).high() <= open.cell(a, b).high()
            && (self.cell(a, b) is Discovered ==> open.cell(a, b) == self.cell(a, b)) by {
            let q = (a as usize, b as usize);
            if cells.contains(q) {
                let i = choose|i: int| 0 <= i < cells.len() && cells[i] == q;
                assert(self.cell(cells[i].0 as int, cells[i].1 as int) is Quantum);
            }
        }
        assert forall|x: int, y: int| open.in_bounds(x, y) implies #[trigger] open.clue_holds(
            x,
            y,
        ) by {
            self.lemma_wider_ranges(open, x, y);
            assert(self.clue_holds(x, y));
        }
    }
}

impl Board {
    /// Whether some neighbour of `(x, y)` is revealed.
    pub fn touches_discovered(&self, x: usize, y: usize) -> (r: bool)
        ensures
            r == self@.touches_discovered(x as int, y as int),
    {
        let mut k: usize = 0;
        while k < 8
            invariant
                k <= 8,
                !self@.touches_discovered_upto(x as int, y as int, k as int),
            decreases 8 - k,
        {
            if let Some((_, _, Cell::Discovered(_))) = self.neighbor_at(x, y, k) {
                assert(self@.cell(x + offset(k as int).0, y + offset(k as int).1) is Discovered);
                return true;
            }
            k += 1;
        }
        false
    }

    /// A copy of the board in which every square that is committed to
    /// `value` is open again.
    pub fn opened(&self, value: bool) -> (b: Board)
        ensures
            b@ == self@.opened(value),
    {
        let mut b = self.clone();
        let (width, height) = self.dim();
        let mut x: usize = 0;
        while x < width
            invariant
                x <= width,
                width == self@.width,
                height == self@.height,
                b@.width == self@.width,
                b@.height == self@.height,
                forall|i: int, j: int|
                    self@.in_bounds(i, j) ==> #[trigger] b@.cell(i, j) == (if i < x {
                        self@.opened(value).cell(i, j)
                    } else {
                        self@.cell(i, j)
                    }),
            decreases width - x,
        {
            let mut y: usize = 0;
            while y < height
                invariant
                    x < width,
                    y <= height,
                    width == self@.width,
                    height == self@.height,
                    b@.width == self@.width,
                    b@.height == self@.height,
                    forall|i: int, j: int|
                        self@.in_bounds(i, j) ==> #[trigger] b@.cell(i, j) == (if i < x || (i == x
                            && j < y) {
                            self@.opened(value).cell(i, j)
                        } else {
                            self@.cell(i, j)
                        }),
                decreases height - y,
            {
                if let Some(Cell::Quantum(Some(v))) = b.get(x, y) {
                    if v == value {
                        b.set(x, y, Cell::Quantum(None));
                    }
                }
                y += 1;
            }
            x += 1;
        }
        proof {
            b.lemma_view_wf();
            self.lemma_view_wf();
            assert forall|p: (int, int)| b@.cells.dom().contains(p) implies b@.cells[p]
                == self@.opened(value).cells[p] by {
                assert(b@.in_bounds(p.0, p.1));
                assert(b@.cell(p.0, p.1) == self@.opened(value).cell(p.0, p.1));
            }
            assert(b@.cells =~= self@.opened(value).cells);
        }
        b
    }

    /// Replaces every square of `cells` by `c`.
    pub fn paint(&mut self, cells: &Vec<(usize, usize)>, c: Cell)
        requires
            old(self)@.holds_all(cells@, 0),
        ensures
            final(self)@ == old(self)@.painted(cells@, c),
    {
        let mut i: usize = 0;
        while i < cells.len()
            invariant
                i <= cells@.len(),
                self@.width == old(self)@.width,
                self@.height == old(self)@.height,
                old(self)@.holds_all(cells@, 0),
                forall|x: int, y: int|
                    self@.in_bounds(x, y) ==> #[trigger] self@.cell(x, y) == (if listed_upto(
                        cells@,
                        i as int,
                        x,
                        y,
                    ) {
                        c
                    } else {
                        old(self)@.cell(x, y)
                    }),
            decreases cells@.len() - i,
        {
            let (px, py) = cells[i];
            proof {
                assert forall|x: int, y: int|
                    listed_upto(cells@, i + 1, x, y) <==> ((x == px && y == py) || listed_upto(
                        cells@,
                        i as int,
                        x,
                        y,
                    )) by {
                    if listed_upto(cells@, i + 1, x, y) {
                        let j = choose|j: int|
                            0 <= j < i + 1 && (#[trigger] cells@[j]).0 == x && cells@[j].1 == y;
                        if j < i {
                            assert(listed_upto(cells@, i as int, x, y));
                        }
                    }
                    if x == px && y == py {
                        assert(cells@[i as int].0 == x && cells@[i as int].1 == y);
                    }
                    if listed_upto(cells@, i as int, x, y) {
                        let j = choose|j: int|
                            0 <= j < i && (#[trigger] cells@[j]).0 == x && cells@[j].1 == y;
                        assert(cells@[j].0 == x);
                    }
                }
            }
            let ghost prev = self@;
            self.set(px, py, c);
            proof {
                assert forall|x: int, y: int| self@.in_bounds(x, y) implies #[trigger] self@.cell(
                    x,
                    y,
                ) == (if listed_upto(cells@, i + 1, x, y) {
                    c
                } else {
                    old(self)@.cell(x, y)
                }) by {
                    if !(x == px && y == py) {
                        assert(self@.cell(x, y) == prev.cell(x, y));
                    }
                }
            }
            i += 1;
        }
        proof {
            self.lemma_view_wf();
            old(self).lemma_view_wf();
            assert forall|p: (int, int)| self@.cells.dom().contains(p) implies self@.cells[p]
                == old(self)@.painted(cells@, c).cells[p] by {
                assert(self@.in_bounds(p.0, p.1));
                assert(self@.cell(p.0, p.1) == self@.cells[p]);
                let q = (p.0 as usize, p.1 as usize);
                if cells@.contains(q) {
                    let j = choose|j: int| 0 <= j < cells@.len() && cells@[j] == q;
                    assert(cells@[j].0 == p.0 && cells@[j].1 == p.1);
                    assert(listed_upto(cells@, i as int, p.0, p.1));
                }
                if listed_upto(cells@, i as int, p.0, p.1) {
                    let j = choose|j: int|
                        0 <= j < i && (#[trigger] cells@[j]).0 == p.0 && cells@[j].1 == p.1;
                    assert(cells@[j] == q);
                }
            }
            assert(self@.cells =~= old(self)@.painted(cells@, c).cells);
        }
    }

    /// The number of squares that are a committed or fixed mine.
    pub fn count_mines(&self) -> (n: usize)
        ensures
            n == self@.mine_count(),
    {
        let pts = self.points();
        let mut n: usize = 0;
        let mut i: usize = 0;
        while i < pts.len()
            invariant
                i <= pts@.len(),
                pts@ == self@.points(),
                n == self@.mines_upto(i as int),
                n <= i,
            decreases pts@.len() - i,
        {
            let (x, y) = pts[i];
            proof {
                self@.lemma_points_in_bounds(i as int);
                self.lemma_view_wf();
            }
            match self.get(x, y) {
                Some(Cell::Concrete(true)) | Some(Cell::Quantum(Some(true))) => {
                    n += 1;
                },
                _ => {},
            }
            i += 1;
        }
        n
    }

    /// Whether the square `p` takes part in a collapse inside `window`,
    /// given the two copies of the board in which the squares committed to
    /// a mine, and those committed to safe, are open again.
    pub fn is_candidate(
        &self,
        mines_open: &Board,
        safes_open: &Board,
        window: &Range<(usize, usize)>,
        p: (usize, usize),
    ) -> (r: bool)
        requires
            self@.in_bounds(p.0 as int, p.1 as int),
            mines_open@ == self@.opened(true),
            safes_open@ == self@.opened(false),
        ensures
            r == self@.is_candidate(*window, p),
    {
        let (x, y) = p;
        if !(window.start.0 <= x && x < window.end.0 && window.start.1 <= y && y < window.end.1) {
            return false;
        }
        match self.get(x, y) {
            Some(Cell::Quantum(state)) => {
                if !self.touches_discovered(x, y) {
                    return false;
                }
                match state {
                    Some(true) => mines_open.assignment_is_legal(x, y, false),
                    Some(false) => safes_open.assignment_is_legal(x, y, true),
                    None => true,
                }
            },
            _ => false,
        }
    }

    /// The squares that take part in a collapse inside `window`, in the
    /// order of `points`: the squares in the window that are open or
    /// committed, touch a revealed square, and are not forced to the value
    /// that they are committed to.
    pub fn find_candidates(&self, window: &Range<(usize, usize)>) -> (cells: Vec<(usize, usize)>)
        ensures
            cells@ == self@.candidates(*window),
            self@.holds_all(cells@, 0),
    {
        let mines_open = self.opened(true);
        let safes_open = self.opened(false);
        let pts = self.points();
        let mut cells: Vec<(usize, usize)> = Vec::new();
        let mut i: usize = 0;
        while i < pts.len()
            invariant
                i <= pts@.len(),
                pts@ == self@.points(),
                mines_open@ == self@.opened(true),
                safes_open@ == self@.opened(false),
                cells@ == self@.candidates_upto(*window, i as int),
            decreases pts@.len() - i,
        {
            proof {
                self@.lemma_points_in_bounds(i as int);
                self.lemma_view_wf();
            }
            if self.is_candidate(&mines_open, &safes_open, window, pts[i]) {
                cells.push(pts[i]);
            }
            i += 1;
        }
        proof {
            self.lemma_view_wf();
            self@.lemma_candidates_upto(*window, pts@.len() as int);
        }
        cells
    }
}

} // verus!
