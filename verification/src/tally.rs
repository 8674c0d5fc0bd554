use vstd::prelude::*;
use crate::search::assignments;

verus! {

/// The clues that an assignment would give to the revealed squares that
/// have none yet: what a player would see of it.
pub type Pattern = Vec<((usize, usize), u8)>;

/// The samples that gave one pattern.
#[derive(Debug)]
pub struct Group {
    /// The pattern that the samples of the group gave.
    pub key: Pattern,
    /// The number of samples that gave it.
    pub count: usize,
    /// The index of the assignment that gave it first.
    pub state: usize,
}

/// The mathematical value of a group.
pub struct Entry {
    pub key: Seq<((usize, usize), u8)>,
    pub count: nat,
    pub state: int,
}

impl View for Group {
    type V = Entry;

    open spec fn view(&self) -> Entry {
        Entry { key: self.key@, count: self.count as nat, state: self.state as int }
    }
}

/// The values of a sequence of groups.
pub open spec fn entries(groups: Seq<Group>) -> Seq<Entry> {
    Seq::new(groups.len(), |i: int| groups[i]@)
}

/// Whether `a` comes before `b` in the order of the dictionary, from the
/// place `i` on: at the first place where they differ `a` holds `false`, or
/// `a` ends there and `b` does not.
pub open spec fn precedes_from(a: Seq<bool>, b: Seq<bool>, i: int) -> bool
    decreases b.len() - i,
{
    if i >= b.len() {
        false
    } else if i >= a.len() {
        true
    } else if a[i] != b[i] {
        b[i]
    } else {
        precedes_from(a, b, i + 1)
    }
}

/// Whether `a` comes before `b` in the order of the dictionary, `false`
/// before `true`.
pub open spec fn precedes(a: Seq<bool>, b: Seq<bool>) -> bool {
    precedes_from(a, b, 0)
}

/// The place of the first group from `from` on that has the pattern `key`,
/// or the number of groups where there is none.
pub open spec fn position_from(groups: Seq<Entry>, key: Seq<((usize, usize), u8)>, from: int) -> int
    decreases groups.len() - from,
{
    if from >= groups.len() {
        groups.len() as int
    } else if groups[from].key == key {
        from
    } else {
        position_from(groups, key, from + 1)
    }
}

/// The groups after one more sample, drawn as the assignment `state`, gave
/// the pattern `key`: the group of that pattern counts one more, or a new
/// group of one sample follows the others.
pub open spec fn recorded(groups: Seq<Entry>, key: Seq<((usize, usize), u8)>, state: int) -> Seq<
    Entry,
> {
    let at = position_from(groups, key, 0);
    if 0 <= at < groups.len() {
        groups.update(
            at,
            Entry { key: groups[at].key, count: groups[at].count + 1, state: groups[at].state },
        )
    } else {
        groups.push(Entry { key: key, count: 1, state: state })
    }
}

/// Whether the group `a` is to be chosen over the group `b`: it has more
/// samples, or as many and an assignment that comes later in the order of
/// the dictionary.
pub open spec fn outranks(a: Entry, b: Entry, states: Seq<Seq<bool>>) -> bool {
    a.count > b.count || (a.count == b.count && precedes(states[b.state], states[a.state]))
}

/// The place of the group to choose among the first `n`: the last one that
/// no earlier group outranks.
pub open spec fn best_upto(groups: Seq<Entry>, states: Seq<Seq<bool>>, n: int) -> int
    decreases n,
{
    if n <= 1 {
        0
    } else {
        let before = best_upto(groups, states, n - 1);
        if outranks(groups[before], groups[n - 1], states) {
            before
        } else {
            n - 1
        }
    }
}

/// The assignment to commit: that of the chosen group, or none where
/// there is no group.
pub open spec fn modal_state(groups: Seq<Entry>, states: Seq<Seq<bool>>) -> Option<int> {
    if groups.len() == 0 {
        None
    } else {
        Some(groups[best_upto(groups, states, groups.len() as int)].state)
    }
}

/// The number of samples of the chosen group, and 0 where there is no
/// group.
pub open spec fn modal_count(groups: Seq<Entry>, states: Seq<Seq<bool>>) -> nat {
    if groups.len() == 0 {
        0
    } else {
        groups[best_upto(groups, states, groups.len() as int)].count
    }
}

/// The groups that the first `n` of the samples `draws` give, where the
/// assignment `i` gives the pattern `patterns[i]`.
pub open spec fn tally_upto(
    patterns: Seq<Seq<((usize, usize), u8)>>,
    draws: Seq<int>,
    n: int,
) -> Seq<Entry>
    decreases n,
{
    if n <= 0 {
        Seq::empty()
    } else {
        recorded(tally_upto(patterns, draws, n - 1), patterns[draws[n - 1]], draws[n - 1])
    }
}

/// The assignment to commit after the samples `draws`.
pub open spec fn modal_choice(
    patterns: Seq<Seq<((usize, usize), u8)>>,
    states: Seq<Seq<bool>>,
    draws: Seq<int>,
) -> Option<int> {
    modal_state(tally_upto(patterns, draws, draws.len() as int), states)
}

/// Whether every group stands for at least one and at most `limit` samples
/// and for one of the first `bound` assignments.
pub open spec fn groups_within(groups: Seq<Entry>, limit: int, bound: int) -> bool {
    forall|j: int|
        0 <= j < groups.len() ==> 1 <= (#[trigger] groups[j]).count <= limit && 0
            <= groups[j].state < bound
}

/// The place that `best_upto` gives is one of the first `n`.
pub proof fn lemma_best_upto(groups: Seq<Entry>, states: Seq<Seq<bool>>, n: int)
    requires
        1 <= n <= groups.len(),
    ensures
        0 <= best_upto(groups, states, n) < n,
        forall|j: int|
            0 <= j < n ==> (#[trigger] groups[j]).count <= groups[best_upto(groups, states, n)].count,
    decreases n,
{
    if n > 1 {
        lemma_best_upto(groups, states, n - 1);
    }
}

/// One more sample keeps the groups within their bounds: no group counts
/// more samples than were drawn, and each stands for a drawn assignment.
pub proof fn lemma_recorded_within(
    groups: Seq<Entry>,
    key: Seq<((usize, usize), u8)>,
    state: int,
    limit: int,
    bound: int,
)
    requires
        groups_within(groups, limit, bound),
        0 <= state < bound,
        0 <= limit,
        groups.len() <= limit,
    ensures
        groups_within(recorded(groups, key, state), limit + 1, bound),
        recorded(groups, key, state).len() <= limit + 1,
        recorded(groups, key, state).len() >= 1,
{
    lemma_position_from(groups, key, 0);
}

/// The groups of the first `n` samples are within their bounds: there is a
/// group as soon as there is a sample, no group counts more samples than
/// were drawn, and each stands for a drawn assignment.
pub proof fn lemma_tally_within(
    patterns: Seq<Seq<((usize, usize), u8)>>,
    draws: Seq<int>,
    n: int,
    bound: int,
)
    requires
        0 <= n <= draws.len(),
        forall|k: int| 0 <= k < draws.len() ==> 0 <= #[trigger] draws[k] < bound,
    ensures
        groups_within(tally_upto(patterns, draws, n), n, bound),
        tally_upto(patterns, draws, n).len() <= n,
        n > 0 ==> tally_upto(patterns, draws, n).len() > 0,
    decreases n,
{
    if n > 0 {
        lemma_tally_within(patterns, draws, n - 1, bound);
        lemma_recorded_within(
            tally_upto(patterns, draws, n - 1),
            patterns[draws[n - 1]],
            draws[n - 1],
            n - 1,
            bound,
        );
    }
}

/// An assignment is chosen as soon as there is one sample, and it is one of
/// the first `bound` where every sample is.
pub proof fn lemma_modal_choice(
    patterns: Seq<Seq<((usize, usize), u8)>>,
    states: Seq<Seq<bool>>,
    draws: Seq<int>,
    bound: int,
)
    requires
        forall|k: int| 0 <= k < draws.len() ==> 0 <= #[trigger] draws[k] < bound,
    ensures
        modal_choice(patterns, states, draws).is_some() <==> draws.len() > 0,
        modal_choice(patterns, states, draws).is_some() ==> 0 <= modal_choice(
            patterns,
            states,
            draws,
        ).unwrap() < bound,
{
    let groups = tally_upto(patterns, draws, draws.len() as int);
    lemma_tally_within(patterns, draws, draws.len() as int, bound);
    if groups.len() > 0 {
        lemma_best_upto(groups, states, groups.len() as int);
    }
}

/// `position_from` gives a place from `from` on at which the pattern is
/// `key`, or the number of groups.
pub proof fn lemma_position_from(groups: Seq<Entry>, key: Seq<((usize, usize), u8)>, from: int)
    requires
        0 <= from,
    ensures
        from <= position_from(groups, key, from) || position_from(groups, key, from)
            == groups.len(),
        position_from(groups, key, from) <= groups.len() || from > groups.len(),
        position_from(groups, key, from) < groups.len() ==> groups[position_from(
            groups,
            key,
            from,
        )].key == key,
    decreases groups.len() - from,
{
    if from < groups.len() && groups[from].key != key {
        lemma_position_from(groups, key, from + 1);
    }
}

/// Whether two patterns are equal.
pub fn same_pattern(a: &Pattern, b: &Pattern) -> (r: bool)
    ensures
        r == (a@ == b@),
{
    if a.len() != b.len() {
        return false;
    }
    let mut i: usize = 0;
    while i < a.len()
        invariant
            i <= a@.len(),
            a@.len() == b@.len(),
            forall|j: int| 0 <= j < i ==> a@[j] == b@[j],
        decreases a@.len() - i,
    {
        let ((ax, ay), an) = a[i];
        let ((bx, by), bn) = b[i];
        if ax != bx || ay != by || an != bn {
            assert(a@[i as int] != b@[i as int]);
            return false;
        }
        i += 1;
    }
    assert(a@ =~= b@);
    true
}

/// Whether `a` comes before `b` in the order of the dictionary, `false`
/// before `true`.
pub fn precedes_in_order(a: &Vec<bool>, b: &Vec<bool>) -> (r: bool)
    ensures
        r == precedes(a@, b@),
{
    let mut i: usize = 0;
    while i < a.len() && i < b.len()
        invariant
            i <= a@.len(),
            i <= b@.len(),
            precedes(a@, b@) == precedes_from(a@, b@, i as int),
        decreases a@.len() - i,
    {
        if a[i] != b[i] {
            return b[i];
        }
        i += 1;
    }
    i < b.len()
}

/// Counts one more sample, drawn as the assignment `state`, that gave the
/// pattern `key`.
pub fn record(groups: &mut Vec<Group>, key: Pattern, state: usize)
    requires
        forall|j: int|
            0 <= j < old(groups)@.len() ==> (#[trigger] old(groups)@[j]).count < usize::MAX,
    ensures
        entries(final(groups)@) == recorded(entries(old(groups)@), key@, state as int),
{
    let mut at: usize = 0;
    while at < groups.len() && !same_pattern(&groups[at].key, &key)
        invariant
            at <= groups@.len(),
            groups@ == old(groups)@,
            position_from(entries(groups@), key@, 0) == position_from(
                entries(groups@),
                key@,
                at as int,
            ),
        decreases groups@.len() - at,
    {
        at += 1;
    }
    if at < groups.len() {
        let ghost before = groups@;
        let ghost found = groups@[at as int]@;
        groups[at].count += 1;
        proof {
            assert(entries(groups@) =~= entries(before).update(
                at as int,
                Entry { key: found.key, count: found.count + 1, state: found.state },
            ));
        }
    } else {
        let ghost before = groups@;
        groups.push(Group { key, count: 1, state });
        proof {
            assert(entries(groups@) =~= entries(before).push(
                Entry { key: key@, count: 1, state: state as int },
            ));
        }
    }
}

/// The place of the group to choose: the group with the most samples, and
/// among such groups the one whose assignment comes last in the order of
/// the dictionary; none where there is no group.
pub fn best_place(groups: &Vec<Group>, states: &Vec<Vec<bool>>) -> (place: Option<usize>)
    requires
        forall|j: int| 0 <= j < groups@.len() ==> (#[trigger] groups@[j]).state < states@.len(),
    ensures
        place.is_some() == (groups@.len() > 0),
        place.is_some() ==> place.unwrap() as int == best_upto(
            entries(groups@),
            assignments(states@),
            groups@.len() as int,
        ),
        place.is_some() ==> place.unwrap() < groups@.len(),
{
    if groups.len() == 0 {
        return None;
    }
    let mut top: usize = 0;
    let mut n: usize = 1;
    while n < groups.len()
        invariant
            1 <= n <= groups@.len(),
            top < n,
            top as int == best_upto(entries(groups@), assignments(states@), n as int),
            forall|j: int| 0 <= j < groups@.len() ==> (#[trigger] groups@[j]).state < states@.len(),
        decreases groups@.len() - n,
    {
        let leader = &groups[top];
        let rival = &groups[n];
        let leads = leader.count > rival.count || (leader.count == rival.count
            && precedes_in_order(&states[rival.state], &states[leader.state]));
        if !leads {
            top = n;
        }
        n += 1;
    }
    Some(top)
}

/// The assignment to commit: that of the group with the most samples, and
/// among such groups that of the one whose assignment comes last in the
/// order of the dictionary; none where there is no group.
pub fn best(groups: &Vec<Group>, states: &Vec<Vec<bool>>) -> (chosen: Option<usize>)
    requires
        forall|j: int| 0 <= j < groups@.len() ==> (#[trigger] groups@[j]).state < states@.len(),
    ensures
        chosen.is_some() == modal_state(entries(groups@), assignments(states@)).is_some(),
        chosen.is_some() ==> chosen.unwrap() as int == modal_state(
            entries(groups@),
            assignments(states@),
        ).unwrap(),
        chosen.is_some() ==> chosen.unwrap() < states@.len(),
{
    match best_place(groups, states) {
        Some(top) => Some(groups[top].state),
        None => None,
    }
}

} // verus!
