//! Which of the profiles found on disk is the one to open.
//!
//! The identity directory's name is not fixed, and neither is that of the
//! directory above it, so every profile is looked at and none is assumed.

use vstd::prelude::*;
use crate::order;

verus! {

/// Profiles are ordered by the size of their database, the largest first.
pub open spec fn largest_first<T>() -> spec_fn((u64, T)) -> int {
    |p: (u64, T)| -(p.0 as int)
}

/// The profiles in the order in which they are likely to be in use.
pub open spec fn in_order<T>(found: Seq<(u64, T)>) -> Seq<T> {
    let sorted = order::sorted_by(found, largest_first());
    Seq::new(sorted.len(), |i: int| sorted[i].1)
}

fn sort_key<T>(found: &(u64, T)) -> (r: i128)
    ensures
        r == largest_first::<T>()(*found),
{
    -(found.0 as i128)
}

/// Every profile's data directory, largest database first as a proxy for "most
/// likely the one in use".
pub fn data_dirs<T>(found: Vec<(u64, T)>) -> (r: Vec<T>)
    ensures
        r@ == in_order(found@),
{
    let ghost want = in_order(found@);
    let sorted: Vec<(u64, T)> = order::sort_by_key(found, sort_key, Ghost(largest_first()));
    let mut out: Vec<T> = Vec::new();
    assert(out@ =~= want.take(0));
    for p in it: sorted
        invariant
            it.seq() == sorted@,
            want.len() == sorted@.len(),
            forall|i: int| 0 <= i < want.len() ==> #[trigger] want[i] == sorted@[i].1,
            out@ == want.take(it.index()),
    {
        let ghost k = it.index();
        assert(want[k] == p.1);
        assert(want.take(k + 1) =~= want.take(k).push(want[k]));
        out.push(p.1);
    }
    assert(want.take(want.len() as int) =~= want);
    out
}

/// The profile to open when none was named explicitly.
pub fn primary<T>(found: Vec<(u64, T)>) -> (r: Option<T>)
    ensures
        r == (if found@.len() == 0 {
            None
        } else {
            Some(in_order(found@)[0])
        }),
{
    proof {
        order::lemma_sorted_by(found@, largest_first());
    }
    let mut dirs: Vec<T> = data_dirs(found);
    if dirs.len() == 0 {
        None
    } else {
        Some(dirs.swap_remove(0))
    }
}

/// The profile opened by default is one of those found, and none of the others
/// has a larger database.
pub proof fn lemma_primary_is_largest<T>(found: Seq<(u64, T)>)
    requires
        found.len() > 0,
    ensures
        exists|i: int|
            0 <= i < found.len() && (#[trigger] found[i]).1 == in_order(found)[0] && forall|j: int|
                0 <= j < found.len() ==> (#[trigger] found[j]).0 <= found[i].0,
{
    let sorted = order::sorted_by(found, largest_first());
    order::lemma_sorted_by(found, largest_first());
    sorted.to_multiset_ensures();
    found.to_multiset_ensures();
    let top = sorted[0];
    assert(sorted.contains(top));
    assert(sorted.to_multiset().count(top) > 0);
    assert(found.contains(top));
    let i = choose|i: int| 0 <= i < found.len() && found[i] == top;
    assert forall|j: int| 0 <= j < found.len() implies (#[trigger] found[j]).0 <= found[i].0 by {
        assert(found.contains(found[j]));
        assert(found.to_multiset().count(found[j]) > 0);
        assert(sorted.contains(found[j]));
        let k = choose|k: int| 0 <= k < sorted.len() && sorted[k] == found[j];
        assert(largest_first::<T>()(sorted[0]) <= largest_first::<T>()(sorted[k]));
    }
}

} // verus!
