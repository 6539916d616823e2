//! Copies of values and of lists of values.
use vstd::prelude::*;

use crate::sorting;

verus! {

/// Values of which copies can be made.
pub trait Copied: View + Sized {
    /// A copy of the value.
    fn copied(&self) -> (r: Self)
        ensures
            r@ == self@,
    ;
}

/// A copy of a list.
pub fn copy_list<T: Copied>(list: &Vec<T>) -> (r: Vec<T>)
    ensures
        sorting::views(r@) == sorting::views(list@),
{
    let mut r: Vec<T> = Vec::new();
    let mut i: usize = 0;
    while i < list.len()
        invariant
            i <= list@.len(),
            r@.len() == i,
            forall|k: int| 0 <= k < i ==> (#[trigger] r@[k])@ == list@[k]@,
        decreases list@.len() - i,
    {
        r.push(list[i].copied());
        i = i + 1;
    }
    assert(sorting::views(r@) =~= sorting::views(list@));
    r
}

/// The view of an optional value.
pub open spec fn opt_view<T: View>(value: Option<T>) -> Option<T::V> {
    match value {
        Some(value) => Some(value@),
        None => None,
    }
}

/// A copy of an optional value.
pub fn copy_opt<T: Copied>(value: &Option<T>) -> (r: Option<T>)
    ensures
        opt_view(r) == opt_view(*value),
{
    match value {
        Some(value) => Some(value.copied()),
        None => None,
    }
}

/// The list of the views with one more.
pub proof fn lemma_views_push<T: View>(list: Seq<T>, x: T)
    ensures
        sorting::views(list.push(x)) == sorting::views(list).push(x@),
{
    assert(sorting::views(list.push(x)) =~= sorting::views(list).push(x@));
}

} // verus!
