use vstd::prelude::*;
use std::ops::Range;
use std::time::Instant;
use crate::board::Board;
use crate::cell::Cell;
use crate::chance::{random_index, within_seconds};
use crate::assignment::listed_from;
use crate::grid::Grid;
use crate::order::{lemma_sorted_by_sum, sort_by_sum, sorted_by_sum};
use crate::search::assignments;
use crate::tally::{
    best_place, entries, groups_within, lemma_best_upto, lemma_modal_choice, lemma_recorded_within,
    modal_choice, modal_count, record, tally_upto, Entry, Group,
};

verus! {

/// The whole seconds after which a collapse stops drawing samples.
pub const SAMPLING_SECONDS: u64 = 2;

/// What a selection counted.
#[derive(Clone, Copy, Debug, PartialEq, Eq, Structural)]
pub struct Selection {
    /// The number of different patterns among the samples.
    pub patterns: usize,
    /// The number of samples that gave the chosen pattern.
    pub samples: usize,
}

/// What a collapse found on its way.
#[derive(Clone, Copy, Debug, PartialEq, Eq, Structural)]
pub struct CollapseReport {
    /// The number of candidates.
    pub candidates: usize,
    /// The mines that were left to place.
    pub budget: usize,
    /// The number of assignments that the search found; 0 where there was
    /// no mine left, so that nothing was searched.
    pub states: usize,
    /// What the selection among them counted.
    pub selection: Selection,
}

/// Whether `draws` can be the samples of a collapse over `count`
/// assignments: at least one sample where there is an assignment, at most
/// one sample for each assignment, each sample one of the assignments.
pub open spec fn valid_draws(draws: Seq<int>, count: int) -> bool {
    &&& draws.len() <= count
    &&& count > 0 ==> draws.len() > 0
    &&& forall|k: int| 0 <= k < draws.len() ==> 0 <= #[trigger] draws[k] < count
}

/// The samples of a collapse that draws the first of `count` assignments
/// once, and nothing where there is no assignment.
pub open spec fn first_draw(count: int) -> Seq<int> {
    if count > 0 {
        seq![0int]
    } else {
        Seq::empty()
    }
}

/// The drawn places as numbers.
pub open spec fn indices(draws: Seq<usize>) -> Seq<int> {
    Seq::new(draws.len(), |k: int| draws[k] as int)
}

/// Whether the samples `draws`, all of them places in `states`, have been
/// counted in `groups` on a board that was `base` before the first sample
/// and is `now`: the groups are those of the samples, and the board
/// differs from `base` on the squares `cells` at most.
pub open spec fn counted(
    base: Grid,
    now: Grid,
    groups: Seq<Group>,
    cells: Seq<(usize, usize)>,
    states: Seq<Vec<bool>>,
    draws: Seq<int>,
) -> bool {
    &&& base.wf()
    &&& base.holds_all(cells, 0)
    &&& forall|i: int| 0 <= i < states.len() ==> (#[trigger] states[i])@.len() == cells.len()
    &&& forall|k: int| 0 <= k < draws.len() ==> 0 <= #[trigger] draws[k] < states.len()
    &&& base.agrees_outside(now, cells, 0)
    &&& draws.len() == 0 ==> now == base
    &&& entries(groups) == tally_upto(
        base.patterns(cells, assignments(states)),
        draws,
        draws.len() as int,
    )
    &&& groups_within(entries(groups), draws.len() as int, states.len() as int)
    &&& groups.len() <= draws.len()
    &&& draws.len() > 0 ==> groups.len() > 0
}

/// The groups of the first `n` samples depend on those samples only.
pub proof fn lemma_tally_prefix(
    patterns: Seq<Seq<((usize, usize), u8)>>,
    first: Seq<int>,
    second: Seq<int>,
    n: int,
)
    requires
        0 <= n <= first.len(),
        n <= second.len(),
        forall|k: int| 0 <= k < n ==> first[k] == second[k],
    ensures
        tally_upto(patterns, first, n) == tally_upto(patterns, second, n),
    decreases n,
{
    if n > 0 {
        lemma_tally_prefix(patterns, first, second, n - 1);
    }
}

impl Grid {
    /// The window that holds every square of the grid.
    pub open spec fn full_window(self) -> Range<(usize, usize)> {
        Range { start: (0usize, 0usize), end: (self.width as usize, self.height as usize) }
    }

    /// The window of a collapse: the one that was asked for, or the whole
    /// grid.
    pub open spec fn window_of(self, allowed_range: Option<Range<(usize, usize)>>) -> Range<
        (usize, usize),
    > {
        match allowed_range {
            Some(window) => window,
            None => self.full_window(),
        }
    }

    /// For each of `states`, the pattern that it gives when it is committed
    /// to the squares `cells`.
    pub open spec fn patterns(self, cells: Seq<(usize, usize)>, states: Seq<Seq<bool>>) -> Seq<
        Seq<((usize, usize), u8)>,
    > {
        Seq::new(states.len(), |i: int| self.follow(cells, 0, states[i]).pending_counts())
    }

    /// The grid after the samples `draws` have been counted: the assignment
    /// of the chosen group committed to `cells`, or the grid itself where
    /// there was no sample.
    pub open spec fn selected(
        self,
        cells: Seq<(usize, usize)>,
        states: Seq<Seq<bool>>,
        draws: Seq<int>,
    ) -> Grid {
        match modal_choice(self.patterns(cells, states), states, draws) {
            Some(i) => self.follow(cells, 0, states[i]),
            None => self,
        }
    }

    /// What the selection counts on the samples `draws`: the number of
    /// their patterns, and the number of samples of the chosen one.
    pub open spec fn selection(
        self,
        cells: Seq<(usize, usize)>,
        states: Seq<Seq<bool>>,
        draws: Seq<int>,
    ) -> Selection {
        let groups = tally_upto(self.patterns(cells, states), draws, draws.len() as int);
        Selection {
            patterns: groups.len() as usize,
            samples: modal_count(groups, states) as usize,
        }
    }

    /// The grid on which a collapse searches: every candidate open.
    pub open spec fn collapse_base(self, window: Range<(usize, usize)>) -> Grid {
        self.painted(self.candidates(window), Cell::Quantum(None))
    }

    /// The candidates of a collapse in the order in which it searches them.
    pub open spec fn collapse_cells(self, window: Range<(usize, usize)>) -> Seq<(usize, usize)> {
        sorted_by_sum(self.candidates(window))
    }

    /// The mines that a collapse may place: `max_bombs` less the mines that
    /// the grid holds outside the candidates, and none where that is less
    /// than nothing.
    pub open spec fn collapse_budget(self, window: Range<(usize, usize)>, max_bombs: nat) -> nat {
        let fixed = self.collapse_base(window).mine_count();
        if max_bombs > fixed {
            (max_bombs - fixed) as nat
        } else {
            0
        }
    }

    /// The assignments among which a collapse chooses.
    pub open spec fn collapse_states(self, window: Range<(usize, usize)>, max_bombs: nat) -> Seq<
        Seq<bool>,
    > {
        self.collapse_base(window).terminals(
            self.collapse_cells(window),
            0,
            self.collapse_budget(window, max_bombs),
            Seq::empty(),
        )
    }

    /// The grid after a collapse whose samples were `draws`. With no mine
    /// left to place every candidate is safe. Else the assignment chosen
    /// from the samples is committed to the candidates. They stay open
    /// only without a sample, and a collapse draws one as soon as the
    /// search has found an assignment (`valid_draws`).
    pub open spec fn collapsed(
        self,
        window: Range<(usize, usize)>,
        max_bombs: nat,
        draws: Seq<int>,
    ) -> Grid {
        if self.collapse_budget(window, max_bombs) == 0 {
            self.collapse_base(window).painted(
                self.candidates(window),
                Cell::Quantum(Some(false)),
            )
        } else {
            self.collapse_base(window).selected(
                self.collapse_cells(window),
                self.collapse_states(window, max_bombs),
                draws,
            )
        }
    }
}

impl Grid {
    /// What a collapse whose samples were `draws` reports.
    pub open spec fn collapse_report(
        self,
        window: Range<(usize, usize)>,
        max_bombs: nat,
        draws: Seq<int>,
    ) -> CollapseReport {
        let budget = self.collapse_budget(window, max_bombs);
        let states = self.collapse_states(window, max_bombs);
        CollapseReport {
            candidates: self.candidates(window).len() as usize,
            budget: budget as usize,
            states: if budget == 0 {
                0
            } else {
                states.len() as usize
            },
            selection: if budget == 0 || states.len() == 0 {
                Selection { patterns: 0, samples: 0 }
            } else {
                self.collapse_base(window).selection(self.collapse_cells(window), states, draws)
            },
        }
    }

    /// Whether `after` can be the grid after a collapse. With no mine left
    /// to place every candidate is safe. Else, where the search finds no
    /// assignment, the candidates are open; and where it finds some, one of
    /// them is committed to the candidates.
    pub open spec fn collapses_to(
        self,
        window: Range<(usize, usize)>,
        max_bombs: nat,
        after: Grid,
    ) -> bool {
        let base = self.collapse_base(window);
        let states = self.collapse_states(window, max_bombs);
        if self.collapse_budget(window, max_bombs) == 0 {
            after == base.painted(self.candidates(window), Cell::Quantum(Some(false)))
        } else if states.len() == 0 {
            after == base
        } else {
            exists|i: int|
                0 <= i < states.len() && after == base.follow(
                    self.collapse_cells(window),
                    0,
                    #[trigger] states[i],
                )
        }
    }

    /// What a collapse does to each square. The sides stay. A square that
    /// is no candidate stays as it was. A candidate becomes safe where no
    /// mine is left to place; else it is committed to a value as soon as
    /// the search finds an assignment, and open where it finds none.
    pub proof fn lemma_collapsed_cell(
        self,
        window: Range<(usize, usize)>,
        max_bombs: nat,
        after: Grid,
        x: int,
        y: int,
    )
        requires
            self.wf(),
            self.in_bounds(x, y),
            self.collapses_to(window, max_bombs, after),
        ensures
            after.wf(),
            after.width == self.width,
            after.height == self.height,
            !self.is_candidate(window, (x as usize, y as usize)) ==> after.cell(x, y)
                == self.cell(x, y),
            self.is_candidate(window, (x as usize, y as usize)) ==> after.cell(x, y) == (
            if self.collapse_budget(window, max_bombs) == 0 {
                Cell::Quantum(Some(false))
            } else if self.collapse_states(window, max_bombs).len() == 0 {
                Cell::Quantum(None)
            } else if after.cell(x, y).is_mine() {
                Cell::Quantum(Some(true))
            } else {
                Cell::Quantum(Some(false))
            }),
    {
        let q = (x as usize, y as usize);
        let found = self.candidates(window);
        let base = self.collapse_base(window);
        let cells = self.collapse_cells(window);
        let budget = self.collapse_budget(window, max_bombs);
        let states = self.collapse_states(window, max_bombs);
        self.lemma_candidates(window);
        lemma_sorted_by_sum(found);
        assert(found.contains(q) <==> self.is_candidate(window, q));
        if budget > 0 && states.len() > 0 {
            let i = choose|i: int|
                0 <= i < states.len() && after == base.follow(cells, 0, #[trigger] states[i]);
            assert(states.contains(states[i]));
            base.lemma_terminal_is_legal(cells, 0, budget, Seq::empty(), states[i]);
            assert forall|j: int| 0 <= j < cells.len() implies base.in_bounds(
                cells[j].0 as int,
                cells[j].1 as int,
            ) by {
                assert(cells.contains(cells[j]));
                assert(found.contains(cells[j]));
            }
            base.lemma_follow_wf(cells, 0, states[i]);
            base.lemma_follow_cell(cells, 0, states[i], x, y);
            if listed_from(cells, 0, x, y) {
                let j = choose|j: int|
                    0 <= j < cells.len() && (#[trigger] cells[j]).0 == x && cells[j].1 == y;
                assert(cells[j] == q);
                assert(cells.contains(q));
            }
            if found.contains(q) {
                assert(cells.contains(q));
                let j = choose|j: int| 0 <= j < cells.len() && cells[j] == q;
                assert(cells[j].0 == x && cells[j].1 == y);
                assert(listed_from(cells, 0, x, y));
            }
        }
    }

    /// The grid after a collapse, whatever its samples were, is one that
    /// `collapses_to` admits.
    pub proof fn lemma_collapsed(
        self,
        window: Range<(usize, usize)>,
        max_bombs: nat,
        draws: Seq<int>,
    )
        requires
            valid_draws(draws, self.collapse_states(window, max_bombs).len() as int),
        ensures
            self.collapses_to(window, max_bombs, self.collapsed(window, max_bombs, draws)),
    {
        let base = self.collapse_base(window);
        let cells = self.collapse_cells(window);
        let states = self.collapse_states(window, max_bombs);
        if self.collapse_budget(window, max_bombs) > 0 {
            lemma_modal_choice(base.patterns(cells, states), states, draws, states.len() as int);
            if states.len() > 0 {
                let i = modal_choice(base.patterns(cells, states), states, draws).unwrap();
                assert(self.collapsed(window, max_bombs, draws) == base.follow(
                    cells,
                    0,
                    states[i],
                ));
            }
        }
    }
}

impl Board {
    /// Counts one more sample: commits the assignment at place `i` of
    /// `states` to `cells`, and counts the pattern that it gives.
    fn count_sample(
        &mut self,
        groups: &mut Vec<Group>,
        cells: &Vec<(usize, usize)>,
        states: &Vec<Vec<bool>>,
        i: usize,
        Ghost(base): Ghost<Grid>,
        Ghost(draws): Ghost<Seq<int>>,
    )
        requires
            counted(base, old(self)@, old(groups)@, cells@, states@, draws),
            i < states@.len(),
            draws.len() < usize::MAX,
        ensures
            counted(base, final(self)@, final(groups)@, cells@, states@, draws.push(i as int)),
    {
        let ghost patterns = base.patterns(cells@, assignments(states@));
        let ghost n = draws.len() as int;
        proof {
            self.lemma_view_wf();
            base.lemma_follow_overwrites(self@, cells@, 0, states@[i as int]@);
            base.lemma_follow_wf(cells@, 0, states@[i as int]@);
        }
        self.assign(cells, &states[i]);
        let key = self.pending_counts();
        proof {
            assert(assignments(states@)[i as int] == states@[i as int]@);
            assert(key@ == patterns[i as int]);
            assert forall|j: int| 0 <= j < groups@.len() implies (#[trigger] groups@[j]).count
                < usize::MAX by {
                assert(entries(groups@)[j].count <= n);
            }
            lemma_recorded_within(entries(groups@), key@, i as int, n, states@.len() as int);
            lemma_tally_prefix(patterns, draws, draws.push(i as int), n);
        }
        record(groups, key, i);
    }

    /// Commits to `cells` the assignment of the group to choose among the
    /// counted samples, and leaves the board as it is where there is none.
    fn commit_modal(
        &mut self,
        groups: &Vec<Group>,
        cells: &Vec<(usize, usize)>,
        states: &Vec<Vec<bool>>,
        Ghost(base): Ghost<Grid>,
        Ghost(draws): Ghost<Seq<int>>,
    ) -> (counts: Selection)
        requires
            counted(base, old(self)@, groups@, cells@, states@, draws),
        ensures
            final(self)@ == base.selected(cells@, assignments(states@), draws),
            counts == base.selection(cells@, assignments(states@), draws),
            draws.len() > 0 ==> exists|i: int|
                0 <= i < states@.len() && final(self)@ == base.follow(
                    cells@,
                    0,
                    #[trigger] states@[i]@,
                ),
    {
        proof {
            assert forall|j: int| 0 <= j < groups@.len() implies (#[trigger] groups@[j]).state
                < states@.len() by {
                assert(entries(groups@)[j].state < states@.len());
            }
            if groups@.len() > 0 {
                lemma_best_upto(entries(groups@), assignments(states@), groups@.len() as int);
            }
        }
        match best_place(groups, states) {
            Some(top) => {
                let i = groups[top].state;
                proof {
                    self.lemma_view_wf();
                    base.lemma_follow_overwrites(self@, cells@, 0, states@[i as int]@);
                    assert(assignments(states@)[i as int] == states@[i as int]@);
                    assert(entries(groups@)[top as int] == groups@[top as int]@);
                }
                self.assign(cells, &states[i]);
                Selection { patterns: groups.len(), samples: groups[top].count }
            },
            None => Selection { patterns: 0, samples: 0 },
        }
    }

    /// Counts the samples `draws`, each the place of an assignment in
    /// `states`, by the pattern that the assignment gives, and commits to
    /// `cells` the assignment of the pattern that came most often; among
    /// patterns that came equally often, the one whose assignment comes
    /// last in the order of the dictionary. Without a sample the board
    /// stays as it is.
    pub fn select_from(
        &mut self,
        cells: &Vec<(usize, usize)>,
        states: &Vec<Vec<bool>>,
        draws: &Vec<usize>,
    ) -> (counts: Selection)
        requires
            old(self)@.holds_all(cells@, 0),
            forall|i: int|
                0 <= i < states@.len() ==> (#[trigger] states@[i])@.len() == cells@.len(),
            forall|k: int| 0 <= k < draws@.len() ==> (#[trigger] draws@[k]) < states@.len(),
        ensures
            final(self)@ == old(self)@.selected(cells@, assignments(states@), indices(draws@)),
            counts == old(self)@.selection(cells@, assignments(states@), indices(draws@)),
    {
        let mut groups: Vec<Group> = Vec::new();
        let ghost base = self@;
        let ghost mut counted_draws: Seq<int> = Seq::empty();
        let mut n: usize = 0;
        proof {
            self.lemma_view_wf();
            assert(entries(groups@) =~= Seq::<Entry>::empty());
            assert(indices(draws@).subrange(0, 0) =~= Seq::<int>::empty());
        }
        while n < draws.len()
            invariant
                n <= draws@.len(),
                counted_draws == indices(draws@).subrange(0, n as int),
                forall|k: int| 0 <= k < draws@.len() ==> (#[trigger] draws@[k]) < states@.len(),
                counted(base, self@, groups@, cells@, states@, counted_draws),
            decreases draws@.len() - n,
        {
            self.count_sample(
                &mut groups,
                cells,
                states,
                draws[n],
                Ghost(base),
                Ghost(counted_draws),
            );
            proof {
                assert(indices(draws@).subrange(0, n as int).push(draws@[n as int] as int)
                    =~= indices(draws@).subrange(0, n + 1));
                counted_draws = counted_draws.push(draws@[n as int] as int);
            }
            n += 1;
        }
        proof {
            assert(indices(draws@).subrange(0, n as int) =~= indices(draws@));
        }
        self.commit_modal(&groups, cells, states, Ghost(base), Ghost(counted_draws))
    }

    /// Draws samples from `states`, counts for each pattern how many
    /// samples gave it, and commits to `cells` the assignment of the
    /// pattern that came most often. The first sample is always drawn;
    /// further samples are drawn until there is one for each of `states`
    /// or `SAMPLING_SECONDS` seconds have passed. So one of `states` is
    /// committed, unless there is none.
    pub fn select_modal(&mut self, cells: &Vec<(usize, usize)>, states: &Vec<Vec<bool>>) -> (counts:
        Selection)
        requires
            old(self)@.holds_all(cells@, 0),
            forall|i: int|
                0 <= i < states@.len() ==> (#[trigger] states@[i])@.len() == cells@.len(),
        ensures
            exists|draws: Seq<int>|
                valid_draws(draws, states@.len() as int) && final(self)@ == #[trigger] old(
                    self,
                )@.selected(cells@, assignments(states@), draws) && counts == old(self)@.selection(
                    cells@,
                    assignments(states@),
                    draws,
                ),
            states@.len() > 0 ==> exists|i: int|
                0 <= i < states@.len() && final(self)@ == old(self)@.follow(
                    cells@,
                    0,
                    #[trigger] states@[i]@,
                ),
            states@.len() == 0 ==> final(self)@ == old(self)@,
    {
        let began = Instant::now();
        let mut groups: Vec<Group> = Vec::new();
        let ghost base = self@;
        let ghost mut draws: Seq<int> = Seq::empty();
        let mut n: usize = 0;
        let mut sampling = true;
        proof {
            self.lemma_view_wf();
            assert(entries(groups@) =~= Seq::<Entry>::empty());
        }
        while sampling && n < states.len()
            invariant
                n <= states@.len(),
                draws.len() == n,
                !sampling ==> n > 0,
                counted(base, self@, groups@, cells@, states@, draws),
            decreases states@.len() - n + (if sampling { 1int } else { 0int }),
        {
            let i = random_index(states.len());
            if n == 0 || within_seconds(&began, SAMPLING_SECONDS) {
                self.count_sample(&mut groups, cells, states, i, Ghost(base), Ghost(draws));
                proof {
                    draws = draws.push(i as int);
                }
                n += 1;
            } else {
                sampling = false;
            }
        }
        let counts = self.commit_modal(&groups, cells, states, Ghost(base), Ghost(draws));
        proof {
            assert(valid_draws(draws, states@.len() as int));
            assert(self@ == base.selected(cells@, assignments(states@), draws));
        }
        counts
    }

    /// Resolves the candidates: the open or committed squares inside the
    /// window that touch a revealed square and whose value is not forced.
    /// They are opened, and the mines already on the board are taken off
    /// `max_bombs`. With no mine left every candidate becomes safe. Else all
    /// the assignments that the clues admit are searched, and the one whose
    /// pattern of clues came most often among the drawn samples is
    /// committed.
    pub fn collapse(&mut self, max_bombs: usize, allowed_range: Option<Range<(usize, usize)>>)
        ensures
            exists|draws: Seq<int>|
                valid_draws(
                    draws,
                    old(self)@.collapse_states(
                        old(self)@.window_of(allowed_range),
                        max_bombs as nat,
                    ).len() as int,
                ) && final(self)@ == #[trigger] old(self)@.collapsed(
                    old(self)@.window_of(allowed_range),
                    max_bombs as nat,
                    draws,
                ),
            old(self)@.collapses_to(
                old(self)@.window_of(allowed_range),
                max_bombs as nat,
                final(self)@,
            ),
            old(self)@.mine_count() <= max_bombs ==> final(self)@.mine_count() <= max_bombs,
            old(self)@.clues_hold() && old(self)@.collapse_budget(
                old(self)@.window_of(allowed_range),
                max_bombs as nat,
            ) > 0 ==> final(self)@.clues_hold(),
    {
        let _ = self.collapse_and_report(max_bombs, allowed_range);
    }

    /// Resolves the candidates as `collapse` does, and reports what was
    /// found on the way: the number of candidates, the mines left to place,
    /// the number of assignments found, and what the selection counted.
    pub fn collapse_and_report(
        &mut self,
        max_bombs: usize,
        allowed_range: Option<Range<(usize, usize)>>,
    ) -> (report: CollapseReport)
        ensures
            exists|draws: Seq<int>|
                valid_draws(
                    draws,
                    old(self)@.collapse_states(
                        old(self)@.window_of(allowed_range),
                        max_bombs as nat,
                    ).len() as int,
                ) && final(self)@ == #[trigger] old(self)@.collapsed(
                    old(self)@.window_of(allowed_range),
                    max_bombs as nat,
                    draws,
                ) && report == old(self)@.collapse_report(
                    old(self)@.window_of(allowed_range),
                    max_bombs as nat,
                    draws,
                ),
            old(self)@.collapses_to(
                old(self)@.window_of(allowed_range),
                max_bombs as nat,
                final(self)@,
            ),
            old(self)@.mine_count() <= max_bombs ==> final(self)@.mine_count() <= max_bombs,
            old(self)@.clues_hold() && old(self)@.collapse_budget(
                old(self)@.window_of(allowed_range),
                max_bombs as nat,
            ) > 0 ==> final(self)@.clues_hold(),
    {
        let (width, height) = self.dim();
        let window = match allowed_range {
            Some(window) => window,
            None => Range { start: (0, 0), end: (width, height) },
        };
        let ghost start = self@;
        proof {
            self.lemma_view_wf();
            assert(window == start.window_of(allowed_range));
        }
        let candidates = self.find_candidates(&window);
        self.paint(&candidates, Cell::Quantum(None));
        let ghost base = self@;
        proof {
            self.lemma_view_wf();
            old(self).lemma_view_wf();
            start.lemma_fewer_mines(base);
            if start.clues_hold() {
                start.lemma_candidates_upto(window, start.points().len() as int);
                start.lemma_opening_keeps_clues(candidates@);
            }
        }
        let budget = max_bombs.saturating_sub(self.count_mines());
        if budget == 0 {
            self.paint(&candidates, Cell::Quantum(Some(false)));
            proof {
                base.lemma_fewer_mines(self@);
                let any = first_draw(start.collapse_states(window, max_bombs as nat).len() as int);
                assert(base == start.collapse_base(window));
                assert(budget as nat == start.collapse_budget(window, max_bombs as nat));
                assert(valid_draws(
                    any,
                    start.collapse_states(window, max_bombs as nat).len() as int,
                ));
                assert(self@ == start.collapsed(window, max_bombs as nat, any));
            }
            return CollapseReport {
                candidates: candidates.len(),
                budget,
                states: 0,
                selection: Selection { patterns: 0, samples: 0 },
            };
        }
        let cells = sort_by_sum(&candidates);
        proof {
            lemma_sorted_by_sum(candidates@);
            assert forall|i: int| 0 <= i < cells@.len() implies base.in_bounds(
                cells@[i].0 as int,
                cells@[i].1 as int,
            ) by {
                assert(cells@.contains(cells@[i]));
                let j = choose|j: int| 0 <= j < candidates@.len() && candidates@[j] == cells@[i];
                assert(start.in_bounds(candidates@[j].0 as int, candidates@[j].1 as int));
            }
        }
        let states = if candidates.len() == 0 {
            proof {
                assert(base.terminals(cells@, 0, budget as nat, Seq::empty()) =~= Seq::<
                    Seq<bool>,
                >::empty());
            }
            Vec::new()
        } else {
            self.enumerate(&cells, budget)
        };
        proof {
            assert(assignments(states@) =~= start.collapse_states(window, max_bombs as nat));
            assert forall|i: int| 0 <= i < states@.len() implies (#[trigger] states@[i])@.len()
                == cells@.len() by {
                let s = assignments(states@)[i];
                assert(s == states@[i]@);
                assert(base.terminals(cells@, 0, budget as nat, Seq::empty()).contains(s));
                base.lemma_terminal_is_legal(cells@, 0, budget as nat, Seq::empty(), s);
            }
        }
        let selection = if states.len() > 0 {
            let selection = self.select_modal(&cells, &states);
            proof {
                let draws = choose|draws: Seq<int>|
                    valid_draws(draws, states@.len() as int) && self@ == #[trigger] base.selected(
                        cells@,
                        assignments(states@),
                        draws,
                    ) && selection == base.selection(cells@, assignments(states@), draws);
                assert(self@ == start.collapsed(window, max_bombs as nat, draws));
                {
                    let i = choose|i: int|
                        0 <= i < states@.len() && self@ == base.follow(
                            cells@,
                            0,
                            #[trigger] states@[i]@,
                        );
                    let s = assignments(states@)[i];
                    assert(s == states@[i]@);
                    assert(base.terminals(cells@, 0, budget as nat, Seq::empty()).contains(s));
                    base.lemma_terminal_is_legal(cells@, 0, budget as nat, Seq::empty(), s);
                    assert(s.skip(0) =~= s);
                    base.lemma_legal_path(cells@, 0, budget as nat, s);
                }
            }
            selection
        } else {
            proof {
                let none = Seq::<int>::empty();
                assert(valid_draws(none, 0));
                assert(base.selected(cells@, assignments(states@), none) == base);
                assert(self@ == start.collapsed(window, max_bombs as nat, none));
            }
            Selection { patterns: 0, samples: 0 }
        };
        CollapseReport { candidates: candidates.len(), budget, states: states.len(), selection }
    }
}

} // verus!
