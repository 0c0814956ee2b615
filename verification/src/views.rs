//! Copies and views of lists and optional values.
use vstd::prelude::*;

verus! {

/// Values that are copied without a change of what they stand for.
pub trait Duplicate: View + Sized {
    fn duplicate(&self) -> (r: Self)
        ensures
            r@ == self@,
    ;
}

/// What the elements of a list stand for.
pub open spec fn views<T: View>(list: Seq<T>) -> Seq<T::V> {
    Seq::new(list.len(), |i: int| list[i]@)
}

/// What an optional value stands for.
pub open spec fn opt<T: View>(value: Option<T>) -> Option<T::V> {
    match value {
        Some(v) => Some(v@),
        None => None,
    }
}

/// Copies a list.
pub fn duplicate_all<T: Duplicate>(list: &Vec<T>) -> (r: Vec<T>)
    ensures
        views(r@) == views(list@),
{
    let mut r: Vec<T> = Vec::new();
    let mut i: usize = 0;
    while i < list.len()
        invariant
            i <= list.len(),
            r@.len() == i,
            forall|j: int| 0 <= j < i ==> (#[trigger] r@[j])@ == list@[j]@,
        decreases list.len() - i,
    {
        r.push(list[i].duplicate());
        i = i + 1;
    }
    proof {
        assert(views(r@) =~= views(list@));
    }
    r
}

/// Copies an optional value.
pub fn duplicate_opt<T: Duplicate>(value: &Option<T>) -> (r: Option<T>)
    ensures
        opt(r) == opt(*value),
{
    match value {
        Some(v) => Some(v.duplicate()),
        None => None,
    }
}

impl Duplicate for String {
    fn duplicate(&self) -> (r: Self) {
        self.clone()
    }
}

/// Appending an element appends its view.
pub proof fn lemma_views_push<T: View>(list: Seq<T>, x: T)
    ensures
        views(list.push(x)) == views(list).push(x@),
{
    assert(views(list.push(x)) =~= views(list).push(x@));
}

} // verus!
