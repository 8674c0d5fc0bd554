use vstd::prelude::*;

verus! {

/// The key by which the candidates of a search are ordered: the sum of the
/// two coordinates.
pub open spec fn coordinate_sum(p: (usize, usize)) -> int {
    p.0 + p.1
}

/// Whether the coordinate sums of `s` never fall from one entry to the next.
pub open spec fn ordered_by_sum(s: Seq<(usize, usize)>) -> bool {
    forall|i: int, j: int| 0 <= i <= j < s.len() ==> coordinate_sum(s[i]) <= coordinate_sum(s[j])
}

/// `sorted` with `p` put in behind the last entry whose sum is not greater
/// than that of `p`.
pub open spec fn inserted(sorted: Seq<(usize, usize)>, p: (usize, usize)) -> Seq<(usize, usize)>
    decreases sorted.len(),
{
    if sorted.len() == 0 || coordinate_sum(sorted.last()) <= coordinate_sum(p) {
        sorted.push(p)
    } else {
        inserted(sorted.drop_last(), p).push(sorted.last())
    }
}

/// The entries of `s` ordered by their coordinate sums, entries of equal sum
/// in the order that they have in `s`.
pub open spec fn sorted_by_sum(s: Seq<(usize, usize)>) -> Seq<(usize, usize)>
    decreases s.len(),
{
    if s.len() == 0 {
        Seq::empty()
    } else {
        inserted(sorted_by_sum(s.drop_last()), s.last())
    }
}

/// Putting `p` in at `at` is what `inserted` does, where every entry from
/// `at` on has a greater sum than `p` and the entry before `at` has not.
pub proof fn lemma_inserted_at(sorted: Seq<(usize, usize)>, p: (usize, usize), at: int)
    requires
        0 <= at <= sorted.len(),
        forall|k: int| at <= k < sorted.len() ==> coordinate_sum(sorted[k]) > coordinate_sum(p),
        at > 0 ==> coordinate_sum(sorted[at - 1]) <= coordinate_sum(p),
    ensures
        inserted(sorted, p) == sorted.insert(at, p),
    decreases sorted.len(),
{
    if at == sorted.len() {
        assert(sorted.push(p) =~= sorted.insert(at, p));
    } else {
        lemma_inserted_at(sorted.drop_last(), p, at);
        assert(sorted.drop_last().insert(at, p).push(sorted.last()) =~= sorted.insert(at, p));
    }
}

/// `inserted` keeps the order, adds one entry, and holds `p` and what
/// `sorted` held.
pub proof fn lemma_inserted(sorted: Seq<(usize, usize)>, p: (usize, usize))
    ensures
        inserted(sorted, p).len() == sorted.len() + 1,
        inserted(sorted, p).contains(p),
        forall|q: (usize, usize)| #[trigger] sorted.contains(q) ==> inserted(sorted, p).contains(q),
        forall|q: (usize, usize)| #[trigger]
            inserted(sorted, p).contains(q) ==> q == p || sorted.contains(q),
        ordered_by_sum(sorted) ==> ordered_by_sum(inserted(sorted, p)),
    decreases sorted.len(),
{
    let r = inserted(sorted, p);
    if sorted.len() == 0 || coordinate_sum(sorted.last()) <= coordinate_sum(p) {
        assert(r == sorted.push(p));
        assert forall|q: (usize, usize)| r.contains(q) <==> (q == p || sorted.contains(q)) by {
            if r.contains(q) {
                let i = choose|i: int| 0 <= i < r.len() && r[i] == q;
                if i < sorted.len() {
                    assert(sorted[i] == q);
                }
            }
            if q == p {
                assert(r[sorted.len() as int] == q);
            }
            if sorted.contains(q) {
                let i = choose|i: int| 0 <= i < sorted.len() && sorted[i] == q;
                assert(r[i] == q);
            }
        }
    } else {
        let rest = sorted.drop_last();
        let inner = inserted(rest, p);
        lemma_inserted(rest, p);
        assert(r == inner.push(sorted.last()));
        assert forall|q: (usize, usize)| r.contains(q) <==> (q == p || sorted.contains(q)) by {
            if r.contains(q) {
                let i = choose|i: int| 0 <= i < r.len() && r[i] == q;
                if i < inner.len() {
                    assert(inner.contains(q));
                    if rest.contains(q) {
                        let j = choose|j: int| 0 <= j < rest.len() && rest[j] == q;
                        assert(sorted[j] == q);
                    }
                } else {
                    assert(sorted[sorted.len() - 1] == q);
                }
            }
            if q == p {
                assert(inner.contains(q));
                let i = choose|i: int| 0 <= i < inner.len() && inner[i] == q;
                assert(r[i] == q);
            }
            if sorted.contains(q) {
                let i = choose|i: int| 0 <= i < sorted.len() && sorted[i] == q;
                if i < rest.len() {
                    assert(rest[i] == q);
                    assert(rest.contains(q));
                    assert(inner.contains(q));
                    let j = choose|j: int| 0 <= j < inner.len() && inner[j] == q;
                    assert(r[j] == q);
                } else {
                    assert(r[r.len() - 1] == q);
                }
            }
        }
        if ordered_by_sum(sorted) {
            assert(ordered_by_sum(rest)) by {
                assert forall|i: int, j: int| 0 <= i <= j < rest.len() implies coordinate_sum(
                    rest[i],
                ) <= coordinate_sum(rest[j]) by {
                    assert(rest[i] == sorted[i] && rest[j] == sorted[j]);
                }
            }
            assert forall|i: int, j: int| 0 <= i <= j < r.len() implies coordinate_sum(r[i])
                <= coordinate_sum(r[j]) by {
                if j < inner.len() {
                    assert(r[i] == inner[i] && r[j] == inner[j]);
                } else if i < inner.len() {
                    assert(inner.contains(inner[i]));
                    if inner[i] != p {
                        let k = choose|k: int| 0 <= k < rest.len() && rest[k] == inner[i];
                        assert(sorted[k] == inner[i]);
                    }
                }
            }
        }
    }
}

/// Sorting keeps the length and the entries, and orders them.
pub proof fn lemma_sorted_by_sum(s: Seq<(usize, usize)>)
    ensures
        sorted_by_sum(s).len() == s.len(),
        forall|q: (usize, usize)| #[trigger] s.contains(q) ==> sorted_by_sum(s).contains(q),
        forall|q: (usize, usize)| #[trigger] sorted_by_sum(s).contains(q) ==> s.contains(q),
        ordered_by_sum(sorted_by_sum(s)),
    decreases s.len(),
{
    if s.len() > 0 {
        let rest = s.drop_last();
        lemma_sorted_by_sum(rest);
        lemma_inserted(sorted_by_sum(rest), s.last());
        assert forall|q: (usize, usize)| sorted_by_sum(s).contains(q) <==> s.contains(q) by {
            if s.contains(q) {
                let i = choose|i: int| 0 <= i < s.len() && s[i] == q;
                if i < rest.len() {
                    assert(rest[i] == q);
                }
            }
            if rest.contains(q) {
                let i = choose|i: int| 0 <= i < rest.len() && rest[i] == q;
                assert(s[i] == q);
            }
            if q == s.last() {
                assert(s[s.len() - 1] == q);
            }
        }
    }
}

/// Whether the coordinate sum of `p` is greater than that of `q`.
fn sum_exceeds(p: (usize, usize), q: (usize, usize)) -> (r: bool)
    ensures
        r == (coordinate_sum(p) > coordinate_sum(q)),
{
    let a: u128 = p.0 as u128 + p.1 as u128;
    let b: u128 = q.0 as u128 + q.1 as u128;
    a > b
}

/// Orders `cells` by the sum of the coordinates, keeping entries of equal
/// sum in the order in which they came.
pub fn sort_by_sum(cells: &Vec<(usize, usize)>) -> (sorted: Vec<(usize, usize)>)
    ensures
        sorted@ == sorted_by_sum(cells@),
{
    let mut sorted: Vec<(usize, usize)> = Vec::new();
    let mut i: usize = 0;
    while i < cells.len()
        invariant
            i <= cells@.len(),
            sorted@ == sorted_by_sum(cells@.subrange(0, i as int)),
        decreases cells@.len() - i,
    {
        let p = cells[i];
        let mut at: usize = sorted.len();
        while at > 0 && sum_exceeds(sorted[at - 1], p)
            invariant
                at <= sorted@.len(),
                forall|k: int|
                    at <= k < sorted@.len() ==> coordinate_sum(sorted@[k]) > coordinate_sum(p),
            decreases at,
        {
            at -= 1;
        }
        proof {
            lemma_inserted_at(sorted@, p, at as int);
            assert(cells@.subrange(0, i + 1).drop_last() =~= cells@.subrange(0, i as int));
        }
        sorted.insert(at, p);
        i += 1;
    }
    assert(cells@.subrange(0, i as int) =~= cells@);
    sorted
}

} // verus!
