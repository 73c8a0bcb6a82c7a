//! First and last occurrences of one sequence in another.

use vstd::prelude::*;

verus! {

/// Whether `n` stands in `h` at offset `i`.
pub open spec fn stands_at<T>(h: Seq<T>, n: Seq<T>, i: int) -> bool {
    0 <= i && i + n.len() <= h.len() && h.subrange(i, i + n.len()) == n
}

/// The first offset from `i` on at which `n` stands in `h`.
pub open spec fn first_from<T>(h: Seq<T>, n: Seq<T>, i: int) -> Option<int>
    decreases h.len() - i,
{
    if i + n.len() > h.len() || i < 0 || i >= h.len() {
        None
    } else if stands_at(h, n, i) {
        Some(i)
    } else {
        first_from(h, n, i + 1)
    }
}

/// The first offset at which `n` stands in `h`.
pub open spec fn first<T>(h: Seq<T>, n: Seq<T>) -> Option<int> {
    first_from(h, n, 0)
}

/// The last offset below `i` at which `n` stands in `h`.
pub open spec fn last_below<T>(h: Seq<T>, n: Seq<T>, i: int) -> Option<int>
    decreases i,
{
    if i <= 0 {
        None
    } else if stands_at(h, n, i - 1) {
        Some(i - 1)
    } else {
        last_below(h, n, i - 1)
    }
}

/// The last offset at which `n` stands in `h`.
pub open spec fn last<T>(h: Seq<T>, n: Seq<T>) -> Option<int> {
    last_below(h, n, h.len() as int)
}

/// The first occurrence is one, lies inside, and none stands before it.
pub proof fn lemma_first_from<T>(h: Seq<T>, n: Seq<T>, i: int)
    requires
        0 <= i,
        n.len() > 0,
    ensures
        match first_from(h, n, i) {
            Some(p) => i <= p && stands_at(h, n, p) && forall|k: int|
                i <= k < p ==> !#[trigger] stands_at(h, n, k),
            None => forall|k: int| i <= k ==> !#[trigger] stands_at(h, n, k),
        },
    decreases h.len() - i,
{
    if !(i + n.len() > h.len()) && !stands_at(h, n, i) {
        lemma_first_from(h, n, i + 1);
    }
}

fn bytes_at(h: &[u8], n: &[u8], i: usize) -> (r: bool)
    requires
        i + n@.len() <= h@.len(),
    ensures
        r == stands_at(h@, n@, i as int),
{
    let ghost part = h@.subrange(i as int, i + n@.len());
    let mut k: usize = 0;
    assert(h@.len() == h.len());
    while k < n.len()
        invariant
            k <= n@.len(),
            i + n@.len() <= h@.len() <= usize::MAX,
            part == h@.subrange(i as int, i + n@.len()),
            forall|j: int| 0 <= j < k ==> #[trigger] part[j] == n@[j],
        decreases n@.len() - k,
    {
        assert(part[k as int] == h@[i + k]);
        if h[i + k] != n[k] {
            return false;
        }
        k = k + 1;
    }
    assert(part =~= n@);
    true
}

fn chars_at(h: &[char], n: &[char], i: usize) -> (r: bool)
    requires
        i + n@.len() <= h@.len(),
    ensures
        r == stands_at(h@, n@, i as int),
{
    let ghost part = h@.subrange(i as int, i + n@.len());
    let mut k: usize = 0;
    assert(h@.len() == h.len());
    while k < n.len()
        invariant
            k <= n@.len(),
            i + n@.len() <= h@.len() <= usize::MAX,
            part == h@.subrange(i as int, i + n@.len()),
            forall|j: int| 0 <= j < k ==> #[trigger] part[j] == n@[j],
        decreases n@.len() - k,
    {
        assert(part[k as int] == h@[i + k]);
        if h[i + k] != n[k] {
            return false;
        }
        k = k + 1;
    }
    assert(part =~= n@);
    true
}

/// The first offset from `from` on at which `n` stands in `h`.
pub fn find_bytes_from(h: &[u8], n: &[u8], from: usize) -> (r: Option<usize>)
    requires
        n@.len() > 0,
        from <= h@.len(),
    ensures
        match r {
            Some(p) => first_from(h@, n@, from as int) == Some(p as int) && from <= p && p
                + n@.len() <= h@.len() <= usize::MAX,
            None => first_from(h@, n@, from as int) is None,
        },
{
    let mut i: usize = from;
    while i < h.len() && n.len() <= h.len() - i
        invariant
            n@.len() > 0,
            from <= i <= h@.len(),
            first_from(h@, n@, i as int) == first_from(h@, n@, from as int),
        decreases h@.len() - i,
    {
        if h[i] == n[0] && bytes_at(h, n, i) {
            return Some(i);
        }
        assert(!stands_at(h@, n@, i as int)) by {
            if stands_at(h@, n@, i as int) {
                assert(h@.subrange(i as int, i + n@.len())[0] == h@[i as int]);
            }
        }
        i = i + 1;
    }
    None
}

/// The first offset at which `n` stands in `h`.
pub fn find_bytes(h: &[u8], n: &[u8]) -> (r: Option<usize>)
    requires
        n@.len() > 0,
    ensures
        match r {
            Some(p) => first(h@, n@) == Some(p as int) && p + n@.len() <= h@.len() <= usize::MAX,
            None => first(h@, n@) is None,
        },
{
    find_bytes_from(h, n, 0)
}

/// The first offset from `from` on at which `n` stands in `h`.
pub fn find_chars_from(h: &[char], n: &[char], from: usize) -> (r: Option<usize>)
    requires
        n@.len() > 0,
        from <= h@.len(),
    ensures
        match r {
            Some(p) => first_from(h@, n@, from as int) == Some(p as int) && from <= p && p
                + n@.len() <= h@.len() <= usize::MAX,
            None => first_from(h@, n@, from as int) is None,
        },
{
    let mut i: usize = from;
    while i < h.len() && n.len() <= h.len() - i
        invariant
            n@.len() > 0,
            from <= i <= h@.len(),
            first_from(h@, n@, i as int) == first_from(h@, n@, from as int),
        decreases h@.len() - i,
    {
        if chars_at(h, n, i) {
            return Some(i);
        }
        i = i + 1;
    }
    None
}

/// The last offset at which `n` stands in `h`.
pub fn rfind_chars(h: &[char], n: &[char]) -> (r: Option<usize>)
    requires
        n@.len() > 0,
    ensures
        match r {
            Some(p) => last(h@, n@) == Some(p as int) && p + n@.len() <= h@.len() <= usize::MAX,
            None => last(h@, n@) is None,
        },
{
    let mut i: usize = h.len();
    while i > 0
        invariant
            n@.len() > 0,
            i <= h@.len(),
            last_below(h@, n@, i as int) == last(h@, n@),
        decreases i,
    {
        if n.len() <= h.len() - (i - 1) && chars_at(h, n, i - 1) {
            return Some(i - 1);
        }
        i = i - 1;
    }
    None
}

/// Whether `s` begins with `p`.
pub open spec fn has_prefix<T>(s: Seq<T>, p: Seq<T>) -> bool {
    stands_at(s, p, 0)
}

pub fn starts_with(s: &[char], p: &[char]) -> (r: bool)
    ensures
        r == has_prefix(s@, p@),
{
    p.len() <= s.len() && chars_at(s, p, 0)
}

/// Whether `n` stands somewhere in `h`.
pub open spec fn occurs<T>(h: Seq<T>, n: Seq<T>) -> bool {
    first(h, n) is Some
}

/// The lesser of two offsets that may be missing.
pub open spec fn sooner(a: Option<int>, b: Option<int>) -> Option<int> {
    match (a, b) {
        (Some(x), Some(y)) => if x <= y {
            a
        } else {
            b
        },
        (Some(_), None) => a,
        (None, _) => b,
    }
}

/// An offset that may be missing.
pub open spec fn place(o: Option<usize>) -> Option<int> {
    match o {
        Some(x) => Some(x as int),
        None => None,
    }
}

pub fn sooner_of(a: Option<usize>, b: Option<usize>) -> (r: Option<usize>)
    ensures
        place(r) == sooner(place(a), place(b)),
        r == a || r == b,
{
    match (a, b) {
        (Some(x), Some(y)) => if x <= y {
            Some(x)
        } else {
            Some(y)
        },
        (Some(x), None) => Some(x),
        (None, y) => y,
    }
}

} // verus!
