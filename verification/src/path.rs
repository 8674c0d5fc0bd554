use vstd::prelude::*;
use std::sync::Arc;

verus! {

/// The choices made along one branch of the search, newest first. A branch
/// extends a history by putting one node in front of it, so the branches that
/// fork from one point share their common history.
#[derive(Debug)]
pub enum Cons {
    Empty,
    Cell(bool, Arc<Cons>),
}

impl Cons {
    /// The choices in the order in which they were made.
    pub open spec fn choices(self) -> Seq<bool>
        decreases self,
    {
        match self {
            Cons::Empty => Seq::empty(),
            Cons::Cell(b, rest) => (*rest).choices().push(b),
        }
    }
}

impl View for Cons {
    type V = Seq<bool>;

    open spec fn view(&self) -> Seq<bool> {
        self.choices()
    }
}

/// `Arc::clone`: a second handle to the same history.
#[verifier::external_body]
pub(crate) fn share(list: &Arc<Cons>) -> (r: Arc<Cons>)
    ensures
        r == *list,
{
    Arc::clone(list)
}

/// The history `list` with the choice `b` made after it.
pub fn extend(list: Arc<Cons>, b: bool) -> (r: Arc<Cons>)
    ensures
        r@ == list@.push(b),
{
    Arc::new(Cons::Cell(b, list))
}

/// The choices of a history as a vector, in the order in which they were
/// made.
pub fn materialize(list: &Arc<Cons>) -> (v: Vec<bool>)
    ensures
        v@ == list@,
{
    let mut newest_first: Vec<bool> = Vec::new();
    let mut cur: &Arc<Cons> = list;
    loop
        invariant
            list@ == cur@ + newest_first@.reverse(),
        ensures
            list@ == newest_first@.reverse(),
        decreases cur@.len(),
    {
        match &**cur {
            Cons::Cell(b, rest) => {
                assert(cur@ == rest@.push(*b));
                assert(rest@.push(*b) + newest_first@.reverse() =~= rest@ + newest_first@.push(
                    *b,
                ).reverse());
                newest_first.push(*b);
                cur = rest;
            },
            Cons::Empty => {
                assert(cur@ + newest_first@.reverse() =~= newest_first@.reverse());
                break ;
            },
        }
    }
    let mut v: Vec<bool> = Vec::new();
    let mut i: usize = newest_first.len();
    while i > 0
        invariant
            i <= newest_first@.len(),
            v@.len() == newest_first@.len() - i,
            forall|j: int|
                0 <= j < v@.len() ==> v@[j] == newest_first@[newest_first@.len() - 1 - j],
        decreases i,
    {
        i -= 1;
        v.push(newest_first[i]);
    }
    assert(v@ =~= newest_first@.reverse());
    v
}

} // verus!
