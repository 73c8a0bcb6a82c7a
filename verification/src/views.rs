//! Lists of values seen as lists of their views.

use vstd::prelude::*;

verus! {

/// The view of each element.
pub open spec fn views<T: View>(v: Seq<T>) -> Seq<T::V> {
    Seq::new(v.len(), |i: int| v[i].view())
}

/// One more element is one more view.
pub broadcast proof fn lemma_views_push<T: View>(v: Seq<T>, x: T)
    ensures
        #[trigger] views(v.push(x)) == views(v).push(x.view()),
{
    assert(views(v.push(x)) =~= views(v).push(x.view()));
}

} // verus!
