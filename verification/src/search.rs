use vstd::prelude::*;
use std::sync::Arc;
use crate::board::Board;
use crate::cell::Cell;
use crate::grid::Grid;
use crate::path::{extend, materialize, share, Cons};

verus! {

/// The number of forks between two points at which the search hands its two
/// branches to the worker pool.
pub const FORK_INTERVAL: usize = 18;

/// The fork count, taken modulo the interval, at which the branches are
/// handed out.
pub const FORK_PHASE: usize = 6;

impl Grid {
    /// The grid with the square `p` committed to `value`.
    pub open spec fn committed(self, p: (usize, usize), value: bool) -> Grid {
        self.with_cell(p.0 as int, p.1 as int, Cell::Quantum(Some(value)))
    }

    /// Whether the search may give the square `p` the value `value`: the
    /// clues around it admit the value, and a mine needs one left in the
    /// budget.
    pub open spec fn may_commit(self, p: (usize, usize), value: bool, budget: nat) -> bool {
        (value ==> budget > 0) && self.assignment_is_legal(p.0 as int, p.1 as int, value)
    }

    /// The mines left in the budget once `value` is committed.
    pub open spec fn budget_after(budget: nat, value: bool) -> nat {
        if value {
            (budget - 1) as nat
        } else {
            budget
        }
    }

    /// The histories of all the branches of the search that reach the end of
    /// `cells`, started at `cells[pos]` with `budget` mines left and the
    /// history `prefix` behind it. At each square the branch that commits a
    /// mine comes before the branch that commits a safe square; a branch is
    /// followed only while `may_commit` holds; a branch that reaches the end
    /// with an empty history counts for nothing.
    pub open spec fn terminals(
        self,
        cells: Seq<(usize, usize)>,
        pos: int,
        budget: nat,
        prefix: Seq<bool>,
    ) -> Seq<Seq<bool>>
        decreases cells.len() - pos,
    {
        if pos >= cells.len() {
            if prefix.len() > 0 {
                seq![prefix]
            } else {
                Seq::empty()
            }
        } else {
            let p = cells[pos];
            let mines = if self.may_commit(p, true, budget) {
                self.committed(p, true).terminals(
                    cells,
                    pos + 1,
                    Self::budget_after(budget, true),
                    prefix.push(true),
                )
            } else {
                Seq::empty()
            };
            let safes = if self.may_commit(p, false, budget) {
                self.committed(p, false).terminals(cells, pos + 1, budget, prefix.push(false))
            } else {
                Seq::empty()
            };
            mines + safes
        }
    }

    /// Whether every entry of `cells` from `pos` on is a square of the grid.
    pub open spec fn holds_all(self, cells: Seq<(usize, usize)>, pos: int) -> bool {
        forall|i: int|
            pos <= i < cells.len() ==> self.in_bounds(cells[i].0 as int, cells[i].1 as int)
    }
}

/// The choices of each of a sequence of histories.
pub open spec fn histories(out: Seq<Arc<Cons>>) -> Seq<Seq<bool>> {
    Seq::new(out.len(), |i: int| out[i]@)
}

/// The contents of each of a sequence of vectors.
pub open spec fn assignments(states: Seq<Vec<bool>>) -> Seq<Seq<bool>> {
    Seq::new(states.len(), |i: int| states[i]@)
}

/// `rayon::join` on the two branches of a fork: both branches are searched,
/// possibly at the same time on two workers, and the results come back as a
/// pair, first that of the branch with the mine.
#[verifier::external_body]
fn join_branches(
    mine_board: Board,
    mine_list: Arc<Cons>,
    mine_budget: usize,
    safe_board: Board,
    safe_list: Arc<Cons>,
    safe_budget: usize,
    depth: usize,
    cells: &Vec<(usize, usize)>,
    pos: usize,
) -> (r: (Vec<Arc<Cons>>, Vec<Arc<Cons>>))
    requires
        pos <= cells@.len(),
        depth <= pos,
        mine_board@.holds_all(cells@, pos as int),
        safe_board@.holds_all(cells@, pos as int),
    ensures
        histories(r.0@) == mine_board@.terminals(
            cells@,
            pos as int,
            mine_budget as nat,
            mine_list@,
        ),
        histories(r.1@) == safe_board@.terminals(
            cells@,
            pos as int,
            safe_budget as nat,
            safe_list@,
        ),
{
    rayon::join(
        move || mine_board.collapse_inner(mine_list, depth, cells, pos, mine_budget),
        move || safe_board.collapse_inner(safe_list, depth, cells, pos, safe_budget),
    )
}

impl Board {
    /// Searches the squares `cells[pos..]` depth first. `list` is the
    /// history of the branch so far, `depth` the number of forks on it,
    /// `max_bombs` the mines that it may still place. The result holds the
    /// history of every branch that reaches the end of `cells`, the branches
    /// that commit a mine to a square before those that commit it safe. Every
    /// `FORK_INTERVAL`-th fork of a branch hands its two sides to the worker
    /// pool.
    pub fn collapse_inner(
        self,
        list: Arc<Cons>,
        depth: usize,
        cells: &Vec<(usize, usize)>,
        pos: usize,
        max_bombs: usize,
    ) -> (out: Vec<Arc<Cons>>)
        requires
            pos <= cells@.len(),
            depth <= pos,
            self@.holds_all(cells@, pos as int),
        ensures
            histories(out@) == self@.terminals(cells@, pos as int, max_bombs as nat, list@),
        decreases cells@.len() - pos,
    {
        if pos >= cells.len() {
            let mut out: Vec<Arc<Cons>> = Vec::new();
            if let Cons::Cell(_, _) = &*list {
                out.push(list);
                assert(histories(out@) =~= seq![list@]);
            } else {
                assert(histories(out@) =~= Seq::<Seq<bool>>::empty());
            }
            return out;
        }
        let (x, y) = cells[pos];
        let left_is_legal = max_bombs > 0 && self.assignment_is_legal(x, y, true);
        let right_is_legal = self.assignment_is_legal(x, y, false);
        let depth_increase: usize = if left_is_legal && right_is_legal {
            1
        } else {
            0
        };
        let ghost start = self@;
        proof {
            assert(start.committed((x, y), true).holds_all(cells@, pos + 1));
            assert(start.committed((x, y), false).holds_all(cells@, pos + 1));
        }
        if left_is_legal && right_is_legal {
            let mut mine_board = self.clone();
            mine_board.set(x, y, Cell::Quantum(Some(true)));
            let mine_list = extend(share(&list), true);
            let mut safe_board = self;
            safe_board.set(x, y, Cell::Quantum(Some(false)));
            let safe_list = extend(list, false);
            let (mut mines, mut safes) = if depth % FORK_INTERVAL == FORK_PHASE {
                join_branches(
                    mine_board,
                    mine_list,
                    max_bombs - 1,
                    safe_board,
                    safe_list,
                    max_bombs,
                    depth + depth_increase,
                    cells,
                    pos + 1,
                )
            } else {
                let mines = mine_board.collapse_inner(
                    mine_list,
                    depth + depth_increase,
                    cells,
                    pos + 1,
                    max_bombs - 1,
                );
                let safes = safe_board.collapse_inner(
                    safe_list,
                    depth + depth_increase,
                    cells,
                    pos + 1,
                    max_bombs,
                );
                (mines, safes)
            };
            let ghost first = mines@;
            let ghost second = safes@;
            mines.append(&mut safes);
            assert(histories(mines@) =~= histories(first) + histories(second));
            mines
        } else if left_is_legal {
            let mut mine_board = self;
            mine_board.set(x, y, Cell::Quantum(Some(true)));
            let out = mine_board.collapse_inner(
                extend(list, true),
                depth + depth_increase,
                cells,
                pos + 1,
                max_bombs - 1,
            );
            assert(histories(out@) + Seq::<Seq<bool>>::empty() =~= histories(out@));
            out
        } else if right_is_legal {
            let mut safe_board = self;
            safe_board.set(x, y, Cell::Quantum(Some(false)));
            let out = safe_board.collapse_inner(
                extend(list, false),
                depth + depth_increase,
                cells,
                pos + 1,
                max_bombs,
            );
            assert(Seq::<Seq<bool>>::empty() + histories(out@) =~= histories(out@));
            out
        } else {
            let out: Vec<Arc<Cons>> = Vec::new();
            assert(histories(out@) =~= Seq::<Seq<bool>>::empty() + Seq::<Seq<bool>>::empty());
            out
        }
    }

    /// Every assignment of mine or safe to the squares `cells`, in their
    /// order, that the search reaches with `max_bombs` mines to place: the
    /// value of each square is admitted by the clues around it, given the
    /// values committed before it.
    pub fn enumerate(&self, cells: &Vec<(usize, usize)>, max_bombs: usize) -> (states: Vec<
        Vec<bool>,
    >)
        requires
            self@.holds_all(cells@, 0),
        ensures
            assignments(states@) == self@.terminals(cells@, 0, max_bombs as nat, Seq::empty()),
    {
        let found = self.clone().collapse_inner(Arc::new(Cons::Empty), 0, cells, 0, max_bombs);
        let mut states: Vec<Vec<bool>> = Vec::new();
        let mut i: usize = 0;
        while i < found.len()
            invariant
                i <= found@.len(),
                states@.len() == i,
                forall|j: int| 0 <= j < i ==> (#[trigger] states@[j])@ == found@[j]@,
            decreases found@.len() - i,
        {
            states.push(materialize(&found[i]));
            i += 1;
        }
        assert(assignments(states@) =~= histories(found@));
        states
    }
}

} // verus!
