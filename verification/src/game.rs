use vstd::prelude::*;
use std::ops::Range;
use crate::board::Board;
use crate::cell::Cell;
use crate::frontier::in_window;
use crate::collapse::{first_draw, valid_draws, CollapseReport};
use crate::grid::{offset, Grid};

verus! {

/// How far around the first click the squares are revealed.
pub const FIRST_CLICK_REACH: usize = 2;

/// How far a collapse after a click reaches back from the click.
pub const CLICK_REACH: usize = 5;

/// How far the window of a cascade reaches back from a square that it
/// reveals.
pub const CASCADE_REACH_BACK: usize = 2;

/// How far the window of a cascade reaches on from a square that it
/// reveals, the end of a window lying outside it.
pub const CASCADE_REACH_ON: usize = 3;

/// What a resolution did.
#[derive(Clone, Copy, Debug, PartialEq, Eq, Structural)]
pub struct Resolution {
    /// Whether the clues could be filled in.
    pub filled: bool,
    /// What the collapse reported, where there was one.
    pub collapse: Option<CollapseReport>,
}

/// The window of the collapse that follows a click on `(x, y)`.
pub open spec fn click_window_of(x: usize, y: usize) -> Range<(usize, usize)> {
    Range {
        start: (x.saturating_sub(CLICK_REACH), y.saturating_sub(CLICK_REACH)),
        end: (x.saturating_add(CLICK_REACH), y.saturating_add(CLICK_REACH)),
    }
}

/// The window that holds the first `n` of `cells`, each with the reach of a
/// cascade around it.
pub open spec fn cascade_window_upto(cells: Seq<(usize, usize)>, n: int) -> Range<(usize, usize)>
    decreases n,
{
    if n <= 0 {
        Range { start: (usize::MAX, usize::MAX), end: (0usize, 0usize) }
    } else {
        let w = cascade_window_upto(cells, n - 1);
        let p = cells[n - 1];
        let from = (p.0.saturating_sub(CASCADE_REACH_BACK), p.1.saturating_sub(CASCADE_REACH_BACK));
        let to = (p.0.saturating_add(CASCADE_REACH_ON), p.1.saturating_add(CASCADE_REACH_ON));
        Range {
            start: (
                if from.0 < w.start.0 {
                    from.0
                } else {
                    w.start.0
                },
                if from.1 < w.start.1 {
                    from.1
                } else {
                    w.start.1
                },
            ),
            end: (
                if to.0 > w.end.0 {
                    to.0
                } else {
                    w.end.0
                },
                if to.1 > w.end.1 {
                    to.1
                } else {
                    w.end.1
                },
            ),
        }
    }
}

/// The window of the collapse that follows a cascade over `cells`.
pub open spec fn cascade_window_of(cells: Seq<(usize, usize)>) -> Range<(usize, usize)> {
    cascade_window_upto(cells, cells.len() as int)
}

/// The window of a cascade holds every square that the cascade reveals,
/// unless the square lies at the very end of the machine's integers.
pub proof fn lemma_cascade_window(cells: Seq<(usize, usize)>, n: int, i: int)
    requires
        0 <= i < n <= cells.len(),
        cells[i].0 < usize::MAX,
        cells[i].1 < usize::MAX,
    ensures
        in_window(cascade_window_upto(cells, n), cells[i]),
    decreases n,
{
    if i < n - 1 {
        lemma_cascade_window(cells, n - 1, i);
    }
}

impl Grid {
    /// Whether nothing is left to reveal: every square is revealed or a
    /// mine.
    pub open spec fn is_won(self) -> bool {
        forall|x: int, y: int|
            self.in_bounds(x, y) ==> (#[trigger] self.cell(x, y)).is_mine() || self.cell(
                x,
                y,
            ) is Discovered
    }

    /// Whether some revealed square has no clue yet.
    pub open spec fn has_pending(self) -> bool {
        exists|x: int, y: int|
            self.in_bounds(x, y) && #[trigger] self.cell(x, y) == Cell::Discovered(None)
    }

    /// Whether one of the first `k` places around `(x, y)` is a revealed
    /// square with the clue 0.
    pub open spec fn touches_zero_upto(self, x: int, y: int, k: int) -> bool {
        exists|j: int|
            0 <= j < k && self.in_bounds(x + offset(j).0, y + offset(j).1) && #[trigger] self.cell(
                x + offset(j).0,
                y + offset(j).1,
            ) == Cell::Discovered(Some(0u8))
    }

    /// Whether a cascade reveals the square: it is not revealed, and a
    /// revealed square with the clue 0 touches it.
    pub open spec fn is_clearable(self, p: (usize, usize)) -> bool {
        &&& self.in_bounds(p.0 as int, p.1 as int)
        &&& !(self.cell(p.0 as int, p.1 as int) is Discovered)
        &&& self.touches_zero_upto(p.0 as int, p.1 as int, 8)
    }

    /// The squares among the first `n` of `points` that a cascade reveals.
    pub open spec fn clearable_upto(self, n: int) -> Seq<(usize, usize)>
        decreases n,
    {
        if n <= 0 {
            Seq::empty()
        } else {
            let p = self.points()[n - 1];
            let before = self.clearable_upto(n - 1);
            if self.is_clearable(p) {
                before.push(p)
            } else {
                before
            }
        }
    }

    /// The squares that a cascade reveals, in the order of `points`.
    pub open spec fn clearable(self) -> Seq<(usize, usize)> {
        self.clearable_upto(self.points().len() as int)
    }

    /// Whether `(a, b)` lies within the reach of a first click on `(x, y)`.
    pub open spec fn in_first_reach(x: usize, y: usize, a: int, b: int) -> bool {
        &&& x - FIRST_CLICK_REACH <= a <= x + FIRST_CLICK_REACH
        &&& y - FIRST_CLICK_REACH <= b <= y + FIRST_CLICK_REACH
    }

    /// The grid after a first click on `(x, y)` in the adversarial game:
    /// every square within reach of the click is revealed, without a clue.
    pub open spec fn first_revealed(self, x: usize, y: usize) -> Grid {
        Grid {
            width: self.width,
            height: self.height,
            cells: Map::new(
                |p: (int, int)| self.in_bounds(p.0, p.1),
                |p: (int, int)|
                    if Self::in_first_reach(x, y, p.0, p.1) {
                        Cell::Discovered(None)
                    } else {
                        self.cell(p.0, p.1)
                    },
            ),
        }
    }

    /// The grid after the resolution that follows a reveal, where the
    /// samples of its collapse were `draws`. In the adversarial game a
    /// board with a pending clue is collapsed inside `window`, any other
    /// board left as it is; in the classic game nothing is collapsed. Then
    /// the clues are filled in, in the adversarial game only where one was
    /// pending, and in either game only where every revealed square can be
    /// given its clue.
    pub open spec fn resolved(
        self,
        bastard: bool,
        max_bombs: nat,
        window: Range<(usize, usize)>,
        draws: Seq<int>,
    ) -> Grid {
        if bastard && !self.has_pending() {
            self
        } else {
            let settled = if bastard {
                self.collapsed(window, max_bombs, draws)
            } else {
                self
            };
            if settled.discovered_exact() {
                settled.filled()
            } else {
                settled
            }
        }
    }

    /// What the resolution reports: whether it can fill in the clues, and
    /// what its collapse found, where it collapses.
    pub open spec fn resolution(
        self,
        bastard: bool,
        max_bombs: nat,
        window: Range<(usize, usize)>,
        draws: Seq<int>,
    ) -> Resolution {
        Resolution {
            filled: self.resolves(bastard, max_bombs, window, draws),
            collapse: if bastard && self.has_pending() {
                Some(self.collapse_report(window, max_bombs, draws))
            } else {
                None
            },
        }
    }

    /// Whether the resolution can fill in the clues.
    pub open spec fn resolves(
        self,
        bastard: bool,
        max_bombs: nat,
        window: Range<(usize, usize)>,
        draws: Seq<int>,
    ) -> bool {
        if bastard && !self.has_pending() {
            true
        } else if bastard {
            self.collapsed(window, max_bombs, draws).discovered_exact()
        } else {
            self.discovered_exact()
        }
    }
}

/// The window of the collapse that follows a click on `(x, y)`: five
/// squares back from the click, and up to, but not with, the fifth square on
/// from it.
pub fn click_window(x: usize, y: usize) -> (window: Range<(usize, usize)>)
    ensures
        window == click_window_of(x, y),
{
    Range {
        start: (x.saturating_sub(CLICK_REACH), y.saturating_sub(CLICK_REACH)),
        end: (x.saturating_add(CLICK_REACH), y.saturating_add(CLICK_REACH)),
    }
}

/// The window of the collapse that follows a cascade over `cells`: the
/// least window that holds, around each of them, two squares back and two
/// squares on.
pub fn cascade_window(cells: &Vec<(usize, usize)>) -> (window: Range<(usize, usize)>)
    ensures
        window == cascade_window_of(cells@),
{
    let mut window = Range { start: (usize::MAX, usize::MAX), end: (0, 0) };
    let mut i: usize = 0;
    while i < cells.len()
        invariant
            i <= cells@.len(),
            window == cascade_window_upto(cells@, i as int),
        decreases cells@.len() - i,
    {
        let (x, y) = cells[i];
        let from = (x.saturating_sub(CASCADE_REACH_BACK), y.saturating_sub(CASCADE_REACH_BACK));
        let to = (x.saturating_add(CASCADE_REACH_ON), y.saturating_add(CASCADE_REACH_ON));
        window = Range {
            start: (
                if from.0 < window.start.0 {
                    from.0
                } else {
                    window.start.0
                },
                if from.1 < window.start.1 {
                    from.1
                } else {
                    window.start.1
                },
            ),
            end: (
                if to.0 > window.end.0 {
                    to.0
                } else {
                    window.end.0
                },
                if to.1 > window.end.1 {
                    to.1
                } else {
                    window.end.1
                },
            ),
        };
        i += 1;
    }
    window
}

impl Board {
    /// Whether nothing is left to reveal.
    pub fn is_won(&self) -> (won: bool)
        ensures
            won == self@.is_won(),
    {
        let (width, height) = self.dim();
        let mut x: usize = 0;
        while x < width
            invariant
                x <= width,
                width == self@.width,
                height == self@.height,
                forall|a: int, b: int|
                    0 <= a < x && 0 <= b < height ==> (#[trigger] self@.cell(a, b)).is_mine()
                        || self@.cell(a, b) is Discovered,
            decreases width - x,
        {
            let mut y: usize = 0;
            while y < height
                invariant
                    x < width,
                    y <= height,
                    width == self@.width,
                    height == self@.height,
                    forall|a: int, b: int|
                        (0 <= a < x && 0 <= b < height) || (a == x && 0 <= b < y) ==> (
                        #[trigger] self@.cell(a, b)).is_mine() || self@.cell(a, b) is Discovered,
                decreases height - y,
            {
                match self.get(x, y) {
                    Some(Cell::Quantum(Some(true))) | Some(Cell::Concrete(true)) | Some(
                        Cell::Discovered(_),
                    ) => {},
                    _ => {
                        assert(self@.in_bounds(x as int, y as int));
                        return false;
                    },
                }
                y += 1;
            }
            x += 1;
        }
        true
    }

    /// Whether some revealed square has no clue yet.
    pub fn has_pending(&self) -> (pending: bool)
        ensures
            pending == self@.has_pending(),
    {
        let (width, height) = self.dim();
        let mut x: usize = 0;
        while x < width
            invariant
                x <= width,
                width == self@.width,
                height == self@.height,
                forall|a: int, b: int|
                    0 <= a < x && 0 <= b < height ==> #[trigger] self@.cell(a, b)
                        != Cell::Discovered(None),
            decreases width - x,
        {
            let mut y: usize = 0;
            while y < height
                invariant
                    x < width,
                    y <= height,
                    width == self@.width,
                    height == self@.height,
                    forall|a: int, b: int|
                        (0 <= a < x && 0 <= b < height) || (a == x && 0 <= b < y)
                            ==> #[trigger] self@.cell(a, b) != Cell::Discovered(None),
                decreases height - y,
            {
                if let Some(Cell::Discovered(None)) = self.get(x, y) {
                    assert(self@.in_bounds(x as int, y as int));
                    return true;
                }
                y += 1;
            }
            x += 1;
        }
        false
    }

    /// Whether a cascade reveals the square `p`.
    pub fn is_clearable(&self, p: (usize, usize)) -> (r: bool)
        ensures
            r == self@.is_clearable(p),
    {
        let (x, y) = p;
        match self.get(x, y) {
            Some(Cell::Quantum(_)) | Some(Cell::Concrete(_)) => {},
            _ => {
                return false;
            },
        }
        let mut k: usize = 0;
        while k < 8
            invariant
                k <= 8,
                p == (x, y),
                self@.in_bounds(x as int, y as int),
                !(self@.cell(x as int, y as int) is Discovered),
                !self@.touches_zero_upto(x as int, y as int, k as int),
            decreases 8 - k,
        {
            if let Some((_, _, Cell::Discovered(Some(0)))) = self.neighbor_at(x, y, k) {
                assert(self@.in_bounds(x + offset(k as int).0, y + offset(k as int).1));
                assert(self@.cell(x + offset(k as int).0, y + offset(k as int).1)
                    == Cell::Discovered(Some(0u8)));
                assert(self@.touches_zero_upto(x as int, y as int, 8));
                return true;
            }
            k += 1;
        }
        false
    }

    /// The squares that a cascade reveals: those not yet revealed that a
    /// revealed square with the clue 0 touches, in the order of `points`.
    pub fn clearable_cells(&self) -> (cells: Vec<(usize, usize)>)
        ensures
            cells@ == self@.clearable(),
    {
        let pts = self.points();
        let mut cells: Vec<(usize, usize)> = Vec::new();
        let mut i: usize = 0;
        while i < pts.len()
            invariant
                i <= pts@.len(),
                pts@ == self@.points(),
                cells@ == self@.clearable_upto(i as int),
            decreases pts@.len() - i,
        {
            if self.is_clearable(pts[i]) {
                cells.push(pts[i]);
            }
            i += 1;
        }
        cells
    }

    /// Reveals, without a clue, every square within reach of a first click
    /// on `(x, y)`.
    pub fn reveal_first(&mut self, x: usize, y: usize)
        ensures
            final(self)@ == old(self)@.first_revealed(x, y),
    {
        let (width, height) = self.dim();
        let mut a: usize = 0;
        while a < width
            invariant
                a <= width,
                width == self@.width,
                height == self@.height,
                self@.width == old(self)@.width,
                self@.height == old(self)@.height,
                forall|i: int, j: int|
                    self@.in_bounds(i, j) ==> #[trigger] self@.cell(i, j) == (if i < a {
                        old(self)@.first_revealed(x, y).cell(i, j)
                    } else {
                        old(self)@.cell(i, j)
                    }),
            decreases width - a,
        {
            let mut b: usize = 0;
            while b < height
                invariant
                    a < width,
                    b <= height,
                    width == self@.width,
                    height == self@.height,
                    self@.width == old(self)@.width,
                    self@.height == old(self)@.height,
                    forall|i: int, j: int|
                        self@.in_bounds(i, j) ==> #[trigger] self@.cell(i, j) == (if i < a || (i
                            == a && j < b) {
                            old(self)@.first_revealed(x, y).cell(i, j)
                        } else {
                            old(self)@.cell(i, j)
                        }),
                decreases height - b,
            {
                let near_x = x.saturating_sub(FIRST_CLICK_REACH) <= a && a <= x.saturating_add(
                    FIRST_CLICK_REACH,
                );
                let near_y = y.saturating_sub(FIRST_CLICK_REACH) <= b && b <= y.saturating_add(
                    FIRST_CLICK_REACH,
                );
                if near_x && near_y {
                    self.set(a, b, Cell::Discovered(None));
                }
                b += 1;
            }
            a += 1;
        }
        proof {
            self.lemma_view_wf();
            old(self).lemma_view_wf();
            assert(self@.cells =~= old(self)@.first_revealed(x, y).cells);
        }
    }

    /// Resolves the board after a reveal and fills in the clues. The result
    /// is `false` where a revealed square cannot be given its clue: then the
    /// clues are left as they are.
    pub fn resolve(
        &mut self,
        bastard: bool,
        max_bombs: usize,
        window: Range<(usize, usize)>,
    ) -> (ok: bool)
        ensures
            exists|draws: Seq<int>|
                valid_draws(
                    draws,
                    old(self)@.collapse_states(window, max_bombs as nat).len() as int,
                ) && final(self)@ == #[trigger] old(self)@.resolved(
                    bastard,
                    max_bombs as nat,
                    window,
                    draws,
                ) && ok == old(self)@.resolves(bastard, max_bombs as nat, window, draws),
            !bastard ==> ok == old(self)@.discovered_exact(),
            !bastard && ok ==> final(self)@ == old(self)@.filled(),
    {
        self.resolve_and_report(bastard, max_bombs, window).filled
    }

    /// Resolves the board as `resolve` does, and reports with the outcome
    /// what the collapse found, where there was one.
    pub fn resolve_and_report(
        &mut self,
        bastard: bool,
        max_bombs: usize,
        window: Range<(usize, usize)>,
    ) -> (done: Resolution)
        ensures
            exists|draws: Seq<int>|
                valid_draws(
                    draws,
                    old(self)@.collapse_states(window, max_bombs as nat).len() as int,
                ) && final(self)@ == #[trigger] old(self)@.resolved(
                    bastard,
                    max_bombs as nat,
                    window,
                    draws,
                ) && done == old(self)@.resolution(bastard, max_bombs as nat, window, draws),
            !bastard ==> done.filled == old(self)@.discovered_exact(),
            !bastard && done.filled ==> final(self)@ == old(self)@.filled(),
    {
        let ghost any = first_draw(
            old(self)@.collapse_states(window, max_bombs as nat).len() as int,
        );
        let mut report: Option<CollapseReport> = None;
        if bastard {
            if !self.has_pending() {
                assert(valid_draws(
                    any,
                    old(self)@.collapse_states(window, max_bombs as nat).len() as int,
                ));
                assert(self@ == old(self)@.resolved(bastard, max_bombs as nat, window, any));
                return Resolution { filled: true, collapse: None };
            }
            report = Some(self.collapse_and_report(max_bombs, Some(window)));
        } else {
            assert(valid_draws(
                any,
                old(self)@.collapse_states(window, max_bombs as nat).len() as int,
            ));
        }
        let ghost settled = self@;
        let filled = self.discovered_exact();
        if filled {
            self.fill_discovered();
        }
        proof {
            if bastard {
                let draws = choose|draws: Seq<int>|
                    valid_draws(
                        draws,
                        old(self)@.collapse_states(window, max_bombs as nat).len() as int,
                    ) && settled == #[trigger] old(self)@.collapsed(
                        window,
                        max_bombs as nat,
                        draws,
                    ) && report == Some(
                        old(self)@.collapse_report(window, max_bombs as nat, draws),
                    );
                assert(self@ == old(self)@.resolved(bastard, max_bombs as nat, window, draws));
            } else {
                assert(self@ == old(self)@.resolved(bastard, max_bombs as nat, window, any));
            }
        }
        Resolution { filled, collapse: report }
    }
}

} // verus!
