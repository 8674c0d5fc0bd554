use vstd::prelude::*;
use crate::board::Board;
use crate::cell::Cell;
use crate::grid::Grid;

verus! {

/// Whether `(x, y)` is one of the entries of `cells` from `pos` on.
pub open spec fn listed_from(cells: Seq<(usize, usize)>, pos: int, x: int, y: int) -> bool {
    exists|j: int| pos <= j < cells.len() && (#[trigger] cells[j]).0 == x && cells[j].1 == y
}

impl Grid {
    /// The grid with the squares `cells[pos..]` committed, one after the
    /// other, to the values `choices`; where one of the two runs out first,
    /// the rest of the other is left aside.
    pub open spec fn follow(self, cells: Seq<(usize, usize)>, pos: int, choices: Seq<bool>) -> Grid
        decreases choices.len(),
    {
        if choices.len() == 0 || pos < 0 || pos >= cells.len() {
            self
        } else {
            self.committed(cells[pos], choices[0]).follow(cells, pos + 1, choices.drop_first())
        }
    }

    /// Whether the search can make exactly the choices `choices` on the
    /// squares `cells[pos..]`: there is one choice for each square, and each
    /// may be committed on the grid as the choices before it leave it, with
    /// the mines that they leave in the budget.
    pub open spec fn path_is_legal(
        self,
        cells: Seq<(usize, usize)>,
        pos: int,
        budget: nat,
        choices: Seq<bool>,
    ) -> bool
        decreases choices.len(),
    {
        if choices.len() == 0 {
            pos >= cells.len()
        } else {
            &&& 0 <= pos < cells.len()
            &&& self.may_commit(cells[pos], choices[0], budget)
            &&& self.committed(cells[pos], choices[0]).path_is_legal(
                cells,
                pos + 1,
                Self::budget_after(budget, choices[0]),
                choices.drop_first(),
            )
        }
    }

    /// Whether this grid and `other` have the same sides, and the same cell
    /// on every square that is none of `cells[pos..]`.
    pub open spec fn agrees_outside(
        self,
        other: Grid,
        cells: Seq<(usize, usize)>,
        pos: int,
    ) -> bool {
        &&& self.width == other.width
        &&& self.height == other.height
        &&& forall|x: int, y: int|
            self.in_bounds(x, y) && !listed_from(cells, pos, x, y) ==> #[trigger] self.cell(x, y)
                == other.cell(x, y)
    }

    /// Committing a square keeps a grid well formed, with its sides.
    pub proof fn lemma_committed_wf(self, p: (usize, usize), value: bool)
        requires
            self.wf(),
            self.in_bounds(p.0 as int, p.1 as int),
        ensures
            self.committed(p, value).wf(),
            self.committed(p, value).width == self.width,
            self.committed(p, value).height == self.height,
    {
    }

    /// Committing values to squares keeps a grid well formed, with its
    /// sides, and leaves every square that is none of them as it was.
    pub proof fn lemma_follow_wf(self, cells: Seq<(usize, usize)>, pos: int, choices: Seq<bool>)
        requires
            self.wf(),
            0 <= pos,
            self.holds_all(cells, pos),
        ensures
            self.follow(cells, pos, choices).wf(),
            self.agrees_outside(self.follow(cells, pos, choices), cells, pos),
        decreases choices.len(),
    {
        if !(choices.len() == 0 || pos >= cells.len()) {
            let next = self.committed(cells[pos], choices[0]);
            self.lemma_committed_wf(cells[pos], choices[0]);
            next.lemma_follow_wf(cells, pos + 1, choices.drop_first());
            let end = self.follow(cells, pos, choices);
            assert forall|x: int, y: int|
                self.in_bounds(x, y) && !listed_from(cells, pos, x, y) implies #[trigger] self.cell(
                x,
                y,
            ) == end.cell(x, y) by {
                assert(!(cells[pos].0 == x && cells[pos].1 == y));
                assert(!listed_from(cells, pos + 1, x, y));
                assert(next.cell(x, y) == self.cell(x, y));
            }
        }
    }

    /// Committing one value to each of the squares `cells[pos..]` leaves
    /// each of them committed, and every other square as it was.
    pub proof fn lemma_follow_cell(
        self,
        cells: Seq<(usize, usize)>,
        pos: int,
        choices: Seq<bool>,
        x: int,
        y: int,
    )
        requires
            self.wf(),
            0 <= pos <= cells.len(),
            self.holds_all(cells, pos),
            choices.len() == cells.len() - pos,
            self.in_bounds(x, y),
        ensures
            listed_from(cells, pos, x, y) ==> self.follow(cells, pos, choices).cell(x, y)
                == Cell::Quantum(Some(true)) || self.follow(cells, pos, choices).cell(x, y)
                == Cell::Quantum(Some(false)),
            !listed_from(cells, pos, x, y) ==> self.follow(cells, pos, choices).cell(x, y)
                == self.cell(x, y),
        decreases choices.len(),
    {
        if choices.len() > 0 {
            let p = cells[pos];
            let next = self.committed(p, choices[0]);
            self.lemma_committed_wf(p, choices[0]);
            next.lemma_follow_cell(cells, pos + 1, choices.drop_first(), x, y);
            if listed_from(cells, pos + 1, x, y) {
                let j = choose|j: int|
                    pos + 1 <= j < cells.len() && (#[trigger] cells[j]).0 == x && cells[j].1 == y;
                assert(listed_from(cells, pos, x, y));
            } else if p.0 == x && p.1 == y {
                assert(listed_from(cells, pos, x, y));
            } else {
                assert(!listed_from(cells, pos, x, y)) by {
                    if listed_from(cells, pos, x, y) {
                        let j = choose|j: int|
                            pos <= j < cells.len() && (#[trigger] cells[j]).0 == x && cells[j].1
                                == y;
                        assert(listed_from(cells, pos + 1, x, y));
                    }
                }
            }
        }
    }

    /// Committing one value to each of the squares `cells[pos..]` gives the
    /// same grid from any two grids that differ on those squares only.
    pub proof fn lemma_follow_overwrites(
        self,
        other: Grid,
        cells: Seq<(usize, usize)>,
        pos: int,
        choices: Seq<bool>,
    )
        requires
            self.wf(),
            other.wf(),
            0 <= pos <= cells.len(),
            self.holds_all(cells, pos),
            self.agrees_outside(other, cells, pos),
            choices.len() == cells.len() - pos,
        ensures
            self.follow(cells, pos, choices) == other.follow(cells, pos, choices),
        decreases choices.len(),
    {
        if choices.len() == 0 {
            assert forall|p: (int, int)| self.cells.dom().contains(p) implies self.cells[p]
                == other.cells[p] by {
                assert(!listed_from(cells, pos, p.0, p.1));
                assert(self.cell(p.0, p.1) == other.cell(p.0, p.1));
            }
            assert(self.cells =~= other.cells);
        } else {
            let p = cells[pos];
            let mine = self.committed(p, choices[0]);
            let theirs = other.committed(p, choices[0]);
            self.lemma_committed_wf(p, choices[0]);
            other.lemma_committed_wf(p, choices[0]);
            assert forall|x: int, y: int|
                mine.in_bounds(x, y) && !listed_from(cells, pos + 1, x, y) implies #[trigger] mine.cell(
                x,
                y,
            ) == theirs.cell(x, y) by {
                if !(p.0 == x && p.1 == y) {
                    assert(!listed_from(cells, pos, x, y)) by {
                        if listed_from(cells, pos, x, y) {
                            let j = choose|j: int|
                                pos <= j < cells.len() && (#[trigger] cells[j]).0 == x
                                    && cells[j].1 == y;
                            assert(listed_from(cells, pos + 1, x, y));
                        }
                    }
                    assert(self.cell(x, y) == other.cell(x, y));
                    assert(mine.cell(x, y) == self.cell(x, y));
                    assert(theirs.cell(x, y) == other.cell(x, y));
                }
            }
            mine.lemma_follow_overwrites(theirs, cells, pos + 1, choices.drop_first());
        }
    }

    /// Every history that the search returns extends the history that it
    /// was started with by one choice for each square left, and these
    /// choices are a legal path.
    pub proof fn lemma_terminal_is_legal(
        self,
        cells: Seq<(usize, usize)>,
        pos: int,
        budget: nat,
        prefix: Seq<bool>,
        s: Seq<bool>,
    )
        requires
            0 <= pos <= cells.len(),
            self.terminals(cells, pos, budget, prefix).contains(s),
        ensures
            s.len() == prefix.len() + cells.len() - pos,
            s.len() > 0,
            s.subrange(0, prefix.len() as int) == prefix,
            self.path_is_legal(cells, pos, budget, s.skip(prefix.len() as int)),
        decreases cells.len() - pos,
    {
        let all = self.terminals(cells, pos, budget, prefix);
        let at = choose|i: int| 0 <= i < all.len() && all[i] == s;
        if pos >= cells.len() {
            assert(s == prefix);
            assert(s.subrange(0, prefix.len() as int) =~= prefix);
            assert(s.skip(prefix.len() as int) =~= Seq::<bool>::empty());
        } else {
            let p = cells[pos];
            let mines = if self.may_commit(p, true, budget) {
                self.committed(p, true).terminals(
                    cells,
                    pos + 1,
                    Self::budget_after(budget, true),
                    prefix.push(true),
                )
            } else {
                Seq::empty()
            };
            let safes = if self.may_commit(p, false, budget) {
                self.committed(p, false).terminals(cells, pos + 1, budget, prefix.push(false))
            } else {
                Seq::empty()
            };
            assert(all == mines + safes);
            let value = at < mines.len();
            let longer = prefix.push(value);
            if value {
                assert(mines[at] == s);
                assert(mines.contains(s));
            } else {
                assert(safes[at - mines.len()] == s);
                assert(safes.contains(s));
            }
            self.committed(p, value).lemma_terminal_is_legal(
                cells,
                pos + 1,
                Self::budget_after(budget, value),
                longer,
                s,
            );
            assert(s.subrange(0, longer.len() as int) == longer);
            assert(s[prefix.len() as int] == longer[prefix.len() as int]);
            assert(s.subrange(0, prefix.len() as int) =~= prefix);
            let choices = s.skip(prefix.len() as int);
            assert(choices[0] == value);
            assert(choices.drop_first() =~= s.skip(longer.len() as int));
        }
    }

    /// Every legal path is found: the search returns the history that it was
    /// started with, extended by the choices of the path, unless that
    /// history is empty.
    pub proof fn lemma_legal_is_terminal(
        self,
        cells: Seq<(usize, usize)>,
        pos: int,
        budget: nat,
        prefix: Seq<bool>,
        choices: Seq<bool>,
    )
        requires
            0 <= pos <= cells.len(),
            self.path_is_legal(cells, pos, budget, choices),
            prefix.len() + choices.len() > 0,
        ensures
            self.terminals(cells, pos, budget, prefix).contains(prefix + choices),
        decreases choices.len(),
    {
        let all = self.terminals(cells, pos, budget, prefix);
        if choices.len() == 0 {
            assert(prefix + choices =~= prefix);
            assert(all[0] == prefix);
        } else {
            let p = cells[pos];
            let value = choices[0];
            let longer = prefix.push(value);
            let next = self.committed(p, value);
            next.lemma_legal_is_terminal(
                cells,
                pos + 1,
                Self::budget_after(budget, value),
                longer,
                choices.drop_first(),
            );
            assert(longer + choices.drop_first() =~= prefix + choices);
            let mines = if self.may_commit(p, true, budget) {
                self.committed(p, true).terminals(
                    cells,
                    pos + 1,
                    Self::budget_after(budget, true),
                    prefix.push(true),
                )
            } else {
                Seq::empty()
            };
            let safes = if self.may_commit(p, false, budget) {
                self.committed(p, false).terminals(cells, pos + 1, budget, prefix.push(false))
            } else {
                Seq::empty()
            };
            assert(all == mines + safes);
            let s = prefix + choices;
            if value {
                let i = choose|i: int| 0 <= i < mines.len() && mines[i] == s;
                assert(all[i] == s);
            } else {
                let i = choose|i: int| 0 <= i < safes.len() && safes[i] == s;
                assert(all[mines.len() + i] == s);
            }
        }
    }

    /// A legal path keeps the clues and the budget: committed to a grid on
    /// which every clue lies in the range of the mines around it, it gives
    /// such a grid again; and it adds no more mines than the budget holds.
    pub proof fn lemma_legal_path(
        self,
        cells: Seq<(usize, usize)>,
        pos: int,
        budget: nat,
        choices: Seq<bool>,
    )
        requires
            self.wf(),
            0 <= pos,
            self.holds_all(cells, pos),
            self.path_is_legal(cells, pos, budget, choices),
        ensures
            self.clues_hold() ==> self.follow(cells, pos, choices).clues_hold(),
            self.follow(cells, pos, choices).mine_count() <= self.mine_count() + budget,
        decreases choices.len(),
    {
        if choices.len() > 0 {
            let p = cells[pos];
            let value = choices[0];
            let next = self.committed(p, value);
            self.lemma_committed_wf(p, value);
            self.lemma_with_cell_mines(p.0 as int, p.1 as int, Cell::Quantum(Some(value)));
            if self.clues_hold() {
                self.lemma_commit_keeps_clues(p.0 as int, p.1 as int, value);
            }
            next.lemma_legal_path(
                cells,
                pos + 1,
                Self::budget_after(budget, value),
                choices.drop_first(),
            );
        }
    }
}

impl Grid {
    /// No assignment that the search returns breaks a clue. Committed to
    /// the grid that was searched, on which every clue lay in the range of
    /// the mines around it, it leaves every clue in that range; so a clue
    /// whose neighbours are all settled is the number of mines among them.
    pub proof fn lemma_search_keeps_clues(
        self,
        cells: Seq<(usize, usize)>,
        budget: nat,
        s: Seq<bool>,
        x: int,
        y: int,
    )
        requires
            self.wf(),
            self.holds_all(cells, 0),
            self.clues_hold(),
            self.terminals(cells, 0, budget, Seq::empty()).contains(s),
            self.in_bounds(x, y),
        ensures
            self.follow(cells, 0, s).clues_hold(),
            self.follow(cells, 0, s).clue_holds(x, y),
            match self.follow(cells, 0, s).cell(x, y) {
                Cell::Discovered(Some(n)) => self.follow(cells, 0, s).open_around(x, y) == 0 ==> n
                    == self.follow(cells, 0, s).mines_around(x, y),
                _ => true,
            },
    {
        self.lemma_terminal_is_legal(cells, 0, budget, Seq::empty(), s);
        assert(s.skip(0) =~= s);
        self.lemma_legal_path(cells, 0, budget, s);
        self.lemma_follow_wf(cells, 0, s);
        let end = self.follow(cells, 0, s);
        assert(end.in_bounds(x, y));
        assert(end.clue_holds(x, y));
        end.lemma_range_counts(x, y);
    }

    /// No assignment that the search returns places more mines than the
    /// budget holds: committed to the grid that was searched, it adds at
    /// most `budget` mines to those that the grid had.
    pub proof fn lemma_search_keeps_budget(
        self,
        cells: Seq<(usize, usize)>,
        budget: nat,
        s: Seq<bool>,
    )
        requires
            self.wf(),
            self.holds_all(cells, 0),
            self.terminals(cells, 0, budget, Seq::empty()).contains(s),
        ensures
            s.len() == cells.len(),
            self.follow(cells, 0, s).mine_count() <= self.mine_count() + budget,
    {
        self.lemma_terminal_is_legal(cells, 0, budget, Seq::empty(), s);
        assert(s.skip(0) =~= s);
        self.lemma_legal_path(cells, 0, budget, s);
    }

    /// The search returns exactly the legal paths: a sequence of choices is
    /// among its results if and only if it is not empty and is a legal path
    /// over all of `cells`.
    pub proof fn lemma_search_is_exact(
        self,
        cells: Seq<(usize, usize)>,
        budget: nat,
        s: Seq<bool>,
    )
        ensures
            self.terminals(cells, 0, budget, Seq::empty()).contains(s) <==> (s.len() > 0
                && self.path_is_legal(cells, 0, budget, s)),
    {
        if self.terminals(cells, 0, budget, Seq::empty()).contains(s) {
            self.lemma_terminal_is_legal(cells, 0, budget, Seq::empty(), s);
            assert(s.skip(0) =~= s);
        }
        if s.len() > 0 && self.path_is_legal(cells, 0, budget, s) {
            self.lemma_legal_is_terminal(cells, 0, budget, Seq::empty(), s);
            assert(Seq::<bool>::empty() + s =~= s);
        }
    }
}

impl Board {
    /// Commits the squares `cells`, one after the other, to the values
    /// `values`; where one of the two is shorter, the rest of the other is
    /// left aside.
    pub fn assign(&mut self, cells: &Vec<(usize, usize)>, values: &Vec<bool>)
        requires
            old(self)@.holds_all(cells@, 0),
        ensures
            final(self)@ == old(self)@.follow(cells@, 0, values@),
    {
        let mut i: usize = 0;
        assert(values@.skip(0) =~= values@);
        while i < cells.len() && i < values.len()
            invariant
                i <= cells@.len(),
                i <= values@.len(),
                self@.holds_all(cells@, 0),
                old(self)@.follow(cells@, 0, values@) == self@.follow(
                    cells@,
                    i as int,
                    values@.skip(i as int),
                ),
            decreases cells@.len() - i,
        {
            let (x, y) = cells[i];
            proof {
                assert(values@.skip(i as int).drop_first() =~= values@.skip(i + 1));
                assert(values@.skip(i as int)[0] == values@[i as int]);
                assert(self@.in_bounds(cells@[i as int].0 as int, cells@[i as int].1 as int));
            }
            self.set(x, y, Cell::Quantum(Some(values[i])));
            i += 1;
        }
    }
}

} // verus!
