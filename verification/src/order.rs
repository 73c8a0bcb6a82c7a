//! Stable sorting by an integer key, stated as repeated insertion.

use vstd::prelude::*;
use crate::views;

verus! {

/// `s` with `x` put behind the last element whose key is not greater.
pub open spec fn insert_sorted<T>(s: Seq<T>, x: T, key: spec_fn(T) -> int) -> Seq<T>
    decreases s.len(),
{
    if s.len() == 0 || key(s.last()) <= key(x) {
        s.push(x)
    } else {
        insert_sorted(s.drop_last(), x, key).push(s.last())
    }
}

/// `s` in ascending order of `key`, equal keys in the order they came in.
pub open spec fn sorted_by<T>(s: Seq<T>, key: spec_fn(T) -> int) -> Seq<T>
    decreases s.len(),
{
    if s.len() == 0 {
        s
    } else {
        insert_sorted(sorted_by(s.drop_last(), key), s.last(), key)
    }
}

/// Where the elements from `p` on have greater keys and the one before has not,
/// inserting at `p` is inserting in order.
pub proof fn lemma_insert_at<T>(s: Seq<T>, x: T, key: spec_fn(T) -> int, p: int)
    requires
        0 <= p <= s.len(),
        p > 0 ==> key(s[p - 1]) <= key(x),
        forall|i: int| p <= i < s.len() ==> key(#[trigger] s[i]) > key(x),
    ensures
        insert_sorted(s, x, key) == s.insert(p, x),
    decreases s.len(),
{
    if p == s.len() {
        assert(s.insert(p, x) =~= s.push(x));
    } else {
        assert(key(s[s.len() - 1]) > key(x));
        lemma_insert_at(s.drop_last(), x, key, p);
        assert(s.insert(p, x) =~= s.drop_last().insert(p, x).push(s.last()));
    }
}

proof fn lemma_insert_sorted<T>(s: Seq<T>, x: T, key: spec_fn(T) -> int)
    requires
        forall|i: int, j: int| 0 <= i <= j < s.len() ==> key(#[trigger] s[i]) <= key(#[trigger] s[j]),
    ensures
        forall|i: int, j: int|
            0 <= i <= j < insert_sorted(s, x, key).len() ==> key(
                #[trigger] insert_sorted(s, x, key)[i],
            ) <= key(#[trigger] insert_sorted(s, x, key)[j]),
        forall|y: int|
            0 <= y < insert_sorted(s, x, key).len() ==> key(x) >= key(
                #[trigger] insert_sorted(s, x, key)[y],
            ) || (s.len() > 0 && key(s.last()) >= key(insert_sorted(s, x, key)[y])),
        insert_sorted(s, x, key).to_multiset() == s.to_multiset().insert(x),
        insert_sorted(s, x, key).len() == s.len() + 1,
    decreases s.len(),
{
    broadcast use vstd::seq_lib::group_to_multiset_ensures;

    if s.len() == 0 || key(s.last()) <= key(x) {
        assert(s.push(x).to_multiset() =~= s.to_multiset().insert(x));
    } else {
        let front = s.drop_last();
        lemma_insert_sorted(front, x, key);
        assert(s =~= front.push(s.last()));
        assert(s.to_multiset() =~= front.to_multiset().insert(s.last()));
        assert(insert_sorted(s, x, key).to_multiset() =~= s.to_multiset().insert(x));
    }
}

/// Sorting puts the keys in ascending order and neither loses nor adds anything.
pub proof fn lemma_sorted_by<T>(s: Seq<T>, key: spec_fn(T) -> int)
    ensures
        sorted_by(s, key).len() == s.len(),
        sorted_by(s, key).to_multiset() == s.to_multiset(),
        forall|i: int, j: int|
            0 <= i <= j < s.len() ==> key(#[trigger] sorted_by(s, key)[i]) <= key(
                #[trigger] sorted_by(s, key)[j],
            ),
    decreases s.len(),
{
    broadcast use vstd::seq_lib::group_to_multiset_ensures;

    if s.len() > 0 {
        lemma_sorted_by(s.drop_last(), key);
        lemma_insert_sorted(sorted_by(s.drop_last(), key), s.last(), key);
        assert(s =~= s.drop_last().push(s.last()));
        assert(s.to_multiset() =~= s.drop_last().to_multiset().insert(s.last()));
    }
}

/// Inserting `x` adds `x` and nothing else.
proof fn lemma_insert_sorted_holds<T>(s: Seq<T>, x: T, key: spec_fn(T) -> int, i: int)
    requires
        0 <= i < insert_sorted(s, x, key).len(),
    ensures
        insert_sorted(s, x, key)[i] == x || s.contains(insert_sorted(s, x, key)[i]),
    decreases s.len(),
{
    if s.len() == 0 || key(s.last()) <= key(x) {
        if i < s.len() {
            assert(s[i] == s.push(x)[i]);
        }
    } else {
        let front = insert_sorted(s.drop_last(), x, key);
        if i < front.len() {
            lemma_insert_sorted_holds(s.drop_last(), x, key, i);
            if front[i] != x {
                let j = choose|j: int| 0 <= j < s.drop_last().len() && s.drop_last()[j] == front[i];
                assert(s[j] == front[i]);
            }
        } else {
            assert(s[s.len() - 1] == s.last());
        }
    }
}

/// Sorting adds nothing.
pub proof fn lemma_sorted_by_holds<T>(s: Seq<T>, key: spec_fn(T) -> int, i: int)
    requires
        0 <= i < s.len(),
    ensures
        s.contains(sorted_by(s, key)[i]),
{
    broadcast use vstd::seq_lib::group_to_multiset_ensures;

    let sorted = sorted_by(s, key);
    lemma_sorted_by(s, key);
    assert(sorted.contains(sorted[i]));
    assert(sorted.to_multiset().count(sorted[i]) > 0);
}

/// No two elements at different places are related.
pub open spec fn pairwise_apart<T>(s: Seq<T>, related: spec_fn(T, T) -> bool) -> bool {
    forall|i: int, j: int|
        0 <= i < s.len() && 0 <= j < s.len() && i != j ==> !related(
            #[trigger] s[i],
            #[trigger] s[j],
        )
}

proof fn lemma_insert_keeps_apart<T>(
    s: Seq<T>,
    x: T,
    key: spec_fn(T) -> int,
    related: spec_fn(T, T) -> bool,
)
    requires
        pairwise_apart(s, related),
        forall|i: int| 0 <= i < s.len() ==> !related(#[trigger] s[i], x) && !related(x, s[i]),
    ensures
        pairwise_apart(insert_sorted(s, x, key), related),
    decreases s.len(),
{
    if !(s.len() == 0 || key(s.last()) <= key(x)) {
        let front = s.drop_last();
        let inner = insert_sorted(front, x, key);
        let last = s[s.len() - 1];
        assert(forall|i: int| 0 <= i < front.len() ==> #[trigger] front[i] == s[i]);
        lemma_insert_keeps_apart(front, x, key, related);
        assert forall|i: int| 0 <= i < inner.len() implies !related(#[trigger] inner[i], last)
            && !related(last, inner[i]) by {
            lemma_insert_sorted_holds(front, x, key, i);
            if inner[i] != x {
                let j = choose|j: int| 0 <= j < front.len() && front[j] == inner[i];
                assert(s[j] == inner[i]);
            }
        }
    }
}

/// Sorting relates nothing that was not related before.
pub proof fn lemma_sorting_keeps_apart<T>(
    s: Seq<T>,
    key: spec_fn(T) -> int,
    related: spec_fn(T, T) -> bool,
)
    requires
        pairwise_apart(s, related),
    ensures
        pairwise_apart(sorted_by(s, key), related),
    decreases s.len(),
{
    if s.len() > 0 {
        let front = s.drop_last();
        let sorted = sorted_by(front, key);
        let last = s[s.len() - 1];
        assert(forall|i: int| 0 <= i < front.len() ==> #[trigger] front[i] == s[i]);
        lemma_sorting_keeps_apart(front, key, related);
        lemma_sorted_by(front, key);
        assert forall|i: int| 0 <= i < sorted.len() implies !related(#[trigger] sorted[i], last)
            && !related(last, sorted[i]) by {
            lemma_sorted_by_holds(front, key, i);
            let j = choose|j: int| 0 <= j < front.len() && front[j] == sorted[i];
            assert(s[j] == sorted[i]);
        }
        lemma_insert_keeps_apart(sorted, last, key, related);
    }
}

/// Inserting by a key of the view is inserting the view.
proof fn lemma_insert_sorted_views<T: View>(
    s: Seq<T>,
    x: T,
    key: spec_fn(T) -> int,
    key_of_view: spec_fn(T::V) -> int,
)
    requires
        forall|y: T| #[trigger] key(y) == key_of_view(y.view()),
    ensures
        views::views(insert_sorted(s, x, key)) == insert_sorted(
            views::views(s),
            x.view(),
            key_of_view,
        ),
    decreases s.len(),
{
    broadcast use views::lemma_views_push;

    if s.len() > 0 {
        assert(views::views(s).last() == s.last().view());
        assert(views::views(s).drop_last() =~= views::views(s.drop_last()));
        lemma_insert_sorted_views(s.drop_last(), x, key, key_of_view);
    }
}

/// Sorting by a key of the view is sorting the views.
pub proof fn lemma_sorted_views<T: View>(
    s: Seq<T>,
    key: spec_fn(T) -> int,
    key_of_view: spec_fn(T::V) -> int,
)
    requires
        forall|y: T| #[trigger] key(y) == key_of_view(y.view()),
    ensures
        views::views(sorted_by(s, key)) == sorted_by(views::views(s), key_of_view),
    decreases s.len(),
{
    if s.len() == 0 {
        assert(views::views(sorted_by(s, key)) =~= views::views(s));
    } else {
        assert(views::views(s).last() == s.last().view());
        assert(views::views(s).drop_last() =~= views::views(s.drop_last()));
        lemma_sorted_views(s.drop_last(), key, key_of_view);
        lemma_insert_sorted_views(sorted_by(s.drop_last(), key), s.last(), key, key_of_view);
    }
}

/// `v` in ascending order of the key that `key_of` reads off an element, equal
/// keys in the order they came in.
pub(crate) fn sort_by_key<T, F: Fn(&T) -> i128>(
    v: Vec<T>,
    key_of: F,
    Ghost(key): Ghost<spec_fn(T) -> int>,
) -> (r: Vec<T>)
    requires
        forall|x: &T| #[trigger] call_requires(key_of, (x,)),
        forall|x: &T, k: i128| #[trigger] call_ensures(key_of, (x,), k) ==> k == key(*x),
    ensures
        r@ == sorted_by(v@, key),
{
    let ghost all = v@;
    let mut out: Vec<T> = Vec::new();
    assert(all.take(0) =~= seq![]);
    for x in it: v
        invariant
            it.seq() == all,
            out@ == sorted_by(all.take(it.index()), key),
            forall|y: &T| #[trigger] call_requires(key_of, (y,)),
            forall|y: &T, k: i128| #[trigger] call_ensures(key_of, (y,), k) ==> k == key(*y),
    {
        let ghost n = it.index();
        let k: i128 = key_of(&x);
        let mut at: usize = out.len();
        while at > 0 && key_of(&out[at - 1]) > k
            invariant
                at <= out@.len(),
                k == key(x),
                forall|y: &T| #[trigger] call_requires(key_of, (y,)),
                forall|y: &T, n: i128| #[trigger] call_ensures(key_of, (y,), n) ==> n == key(*y),
                forall|j: int| at <= j < out@.len() ==> key(#[trigger] out@[j]) > k,
            decreases at,
        {
            at = at - 1;
        }
        proof {
            lemma_insert_at(out@, x, key, at as int);
            assert(all.take(n + 1).drop_last() =~= all.take(n));
            assert(all.take(n + 1).last() == x);
        }
        out.insert(at, x);
    }
    assert(all.take(all.len() as int) =~= all);
    out
}

/// The first element of `s` with key `k`, if there is one.
pub open spec fn first_with<T>(s: Seq<T>, key: spec_fn(T) -> int, k: int) -> Option<T>
    decreases s.len(),
{
    if s.len() == 0 {
        None
    } else if first_with(s.drop_last(), key, k) is Some {
        first_with(s.drop_last(), key, k)
    } else if key(s.last()) == k {
        Some(s.last())
    } else {
        None
    }
}

proof fn lemma_first_with_none<T>(s: Seq<T>, key: spec_fn(T) -> int, k: int)
    requires
        forall|i: int| 0 <= i < s.len() ==> key(#[trigger] s[i]) != k,
    ensures
        first_with(s, key, k) is None,
    decreases s.len(),
{
    if s.len() > 0 {
        assert(key(s[s.len() - 1]) != k);
        lemma_first_with_none(s.drop_last(), key, k);
    }
}

proof fn lemma_first_with_insert<T>(s: Seq<T>, x: T, key: spec_fn(T) -> int, k: int)
    requires
        forall|i: int, j: int| 0 <= i <= j < s.len() ==> key(#[trigger] s[i]) <= key(#[trigger] s[j]),
    ensures
        first_with(insert_sorted(s, x, key), key, k) == first_with(s.push(x), key, k),
    decreases s.len(),
{
    reveal_with_fuel(first_with, 3);
    if !(s.len() == 0 || key(s.last()) <= key(x)) {
        let front = s.drop_last();
        lemma_first_with_insert(front, x, key, k);
        assert(insert_sorted(s, x, key).last() == s.last());
        assert(insert_sorted(s, x, key).drop_last() =~= insert_sorted(front, x, key));
        assert(s.push(x).drop_last() =~= s);
        assert(front.push(x).drop_last() =~= front);
    }
}

/// Sorting keeps the first element of each key first among its equals.
pub proof fn lemma_sorting_is_stable<T>(s: Seq<T>, key: spec_fn(T) -> int, k: int)
    ensures
        first_with(sorted_by(s, key), key, k) == first_with(s, key, k),
    decreases s.len(),
{
    if s.len() > 0 {
        let front = s.drop_last();
        lemma_sorting_is_stable(front, key, k);
        lemma_sorted_by(front, key);
        lemma_first_with_insert(sorted_by(front, key), s.last(), key, k);
        assert(sorted_by(front, key).push(s.last()).drop_last() =~= sorted_by(front, key));
    }
}

/// Where the first element with key `k` stands.
pub proof fn lemma_first_with_at<T>(s: Seq<T>, key: spec_fn(T) -> int, k: int, i: int)
    requires
        0 <= i < s.len(),
        key(s[i]) == k,
        forall|j: int| 0 <= j < i ==> key(#[trigger] s[j]) != k,
    ensures
        first_with(s, key, k) == Some(s[i]),
    decreases s.len(),
{
    if i == s.len() - 1 {
        lemma_first_with_none(s.drop_last(), key, k);
    } else {
        lemma_first_with_at(s.drop_last(), key, k, i);
    }
}

/// No element has key `k` exactly when there is no first one.
pub proof fn lemma_first_with_absent<T>(s: Seq<T>, key: spec_fn(T) -> int, k: int)
    ensures
        first_with(s, key, k) is None <==> forall|i: int|
            0 <= i < s.len() ==> key(#[trigger] s[i]) != k,
        first_with(s, key, k) matches Some(x) ==> s.contains(x) && key(x) == k,
    decreases s.len(),
{
    if s.len() > 0 {
        lemma_first_with_absent(s.drop_last(), key, k);
        assert(s.last() == s[s.len() - 1]);
        assert(forall|i: int| 0 <= i < s.len() - 1 ==> s.drop_last()[i] == s[i]);
        if first_with(s.drop_last(), key, k) is None {
            assert(forall|i: int| 0 <= i < s.len() - 1 ==> key(#[trigger] s[i]) != k) by {
                assert(forall|i: int| 0 <= i < s.len() - 1 ==> s[i] == #[trigger] s.drop_last()[i]);
            }
        }
    }
}

} // verus!
