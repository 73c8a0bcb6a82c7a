//! Laws of finding stores: which files and which registry values name one, and in
//! what order they are offered.

use vstd::prelude::*;
use crate::discover;
use crate::discover::{Candidate, DirEntry, Found, OfficeVersion, ProfileKey, RegValue};
use crate::laws::encoding;
use crate::laws::same_text;
use crate::laws::texts::{alike, small};
use crate::order;
use crate::text;
use crate::views;

verus! {

/// A name that ends in `.ost` or `.pst`, whatever the case.
pub open spec fn names_store(path: Seq<char>) -> bool {
    path.len() >= 4 && (alike(path.skip(path.len() - 4), seq!['.', 'o', 's', 't']) || alike(
        path.skip(path.len() - 4),
        seq!['.', 'p', 's', 't'],
    ))
}

proof fn lemma_names_store(path: Seq<char>)
    ensures
        names_store(path) == discover::store_name(path),
{
    reveal_strlit(".ost");
    reveal_strlit(".pst");
    if path.len() >= 4 {
        let tail = path.skip(path.len() - 4);
        let low = text::ascii_lowered(tail);
        let ost = seq!['.', 'o', 's', 't'];
        let pst = seq!['.', 'p', 's', 't'];
        assert(".ost"@ =~= ost);
        assert(".pst"@ =~= pst);
        assert forall|i: int| 0 <= i < 4 implies low[i] == small(#[trigger] tail[i]) by {}
        assert forall|i: int| 0 <= i < 4 implies small(#[trigger] ost[i]) == ost[i] && small(pst[i])
            == pst[i] by {}
        if alike(tail, ost) {
            assert forall|i: int| 0 <= i < 4 implies low[i] == ost[i] by {
                assert(small(tail[i]) == small(ost[i]));
            }
            assert(low =~= ost);
        }
        if alike(tail, pst) {
            assert forall|i: int| 0 <= i < 4 implies low[i] == pst[i] by {
                assert(small(tail[i]) == small(pst[i]));
            }
            assert(low =~= pst);
        }
        if low == ost {
            assert forall|i: int| 0 <= i < 4 implies small(#[trigger] tail[i]) == small(ost[i]) by {
                assert(low[i] == ost[i]);
            }
        }
        if low == pst {
            assert forall|i: int| 0 <= i < 4 implies small(#[trigger] tail[i]) == small(pst[i]) by {
                assert(low[i] == pst[i]);
            }
        }
    }
}

/// A store is known by how its name ends.
pub proof fn lemma_store_by_name(path: &str, r: bool)
    requires
        call_ensures(discover::is_store, (path,), r),
    ensures
        r == names_store(path@),
{
    lemma_names_store(path@);
}

/// A registry value is read up to its first zero.
pub proof fn lemma_value_is_read_to_its_zero(
    s: Seq<char>,
    w: Vec<u16>,
    n: int,
    r: Option<String>,
)
    requires
        0 <= n <= w@.len(),
        w@.take(n) == encoding::utf16(s),
        forall|i: int| 0 <= i < n ==> #[trigger] w@[i] != 0,
        n == w@.len() || w@[n] == 0,
        call_ensures(discover::decode, (&RegValue::Wide(w),), r),
    ensures
        r matches Some(t) && t@ == s,
{
    lemma_before_zero(w@, n);
    encoding::lemma_utf16_text(s);
}

proof fn lemma_before_zero(w: Seq<u16>, n: int)
    requires
        0 <= n <= w.len(),
        forall|i: int| 0 <= i < n ==> #[trigger] w[i] != 0,
        n == w.len() || w[n] == 0,
    ensures
        discover::before_zero(w) == w.take(n),
    decreases n,
{
    if n > 0 {
        assert(w[0] != 0);
        let rest = w.skip(1);
        assert forall|i: int| 0 <= i < n - 1 implies #[trigger] rest[i] != 0 by {
            assert(rest[i] == w[i + 1]);
        }
        lemma_before_zero(rest, n - 1);
        assert(seq![w[0]] + rest.take(n - 1) =~= w.take(n));
    } else {
        assert(w.take(0) =~= seq![]);
    }
}

/// `f` is the store that a directory entry is.
pub open spec fn found_there<P>(f: Found<P>, e: DirEntry<P>) -> bool {
    &&& names_store(e.file_name@)
    &&& e.bytes matches Some(n) && f.bytes == n
    &&& f.path == e.path
    &&& f.name@ == e.name@
    &&& f.account is None
    &&& f.source@ == "directory"@
}

proof fn lemma_store_entries<P>(entries: Seq<DirEntry<P>>)
    ensures
        forall|i: int|
            0 <= i < discover::store_entries(entries).len() ==> entries.contains(
                #[trigger] discover::store_entries(entries)[i],
            ) && names_store(discover::store_entries(entries)[i].file_name@)
                && discover::store_entries(entries)[i].bytes is Some,
        forall|k: int|
            0 <= k < entries.len() && names_store((#[trigger] entries[k]).file_name@)
                && entries[k].bytes is Some ==> discover::store_entries(entries).contains(
                entries[k],
            ),
    decreases entries.len(),
{
    if entries.len() > 0 {
        let front = entries.drop_last();
        let last = entries.len() - 1;
        lemma_store_entries(front);
        lemma_names_store(entries[last].file_name@);
        let all = discover::store_entries(entries);
        let before = discover::store_entries(front);
        assert forall|i: int| 0 <= i < all.len() implies entries.contains(#[trigger] all[i])
            && names_store(all[i].file_name@) && all[i].bytes is Some by {
            if i < before.len() {
                assert(all[i] == before[i]);
                let k = choose|k: int| 0 <= k < front.len() && front[k] == before[i];
                assert(entries[k] == all[i]);
            } else {
                assert(entries[last] == all[i]);
            }
        }
        assert forall|k: int|
            0 <= k < entries.len() && names_store((#[trigger] entries[k]).file_name@)
                && entries[k].bytes is Some implies all.contains(entries[k]) by {
            if k < last {
                assert(front[k] == entries[k]);
                let i = choose|i: int| 0 <= i < before.len() && before[i] == entries[k];
                assert(all[i] == entries[k]);
            } else {
                assert(all[all.len() - 1] == entries[k]);
            }
        }
    }
}

/// Listing a directory finds every store in it and nothing else, the largest first.
pub proof fn lemma_directory_is_listed<P>(entries: Vec<DirEntry<P>>, r: Vec<Found<P>>)
    requires
        call_ensures(discover::from_directory, (entries,), r),
    ensures
        forall|i: int, j: int|
            0 <= i < j < r@.len() ==> (#[trigger] r@[i]).bytes >= (#[trigger] r@[j]).bytes,
        forall|i: int|
            0 <= i < r@.len() ==> exists|k: int|
                0 <= k < entries@.len() && found_there(#[trigger] r@[i], #[trigger] entries@[k]),
        forall|k: int|
            0 <= k < entries@.len() && names_store((#[trigger] entries@[k]).file_name@)
                && entries@[k].bytes is Some ==> exists|i: int|
                0 <= i < r@.len() && found_there(#[trigger] r@[i], entries@[k]),
{
    broadcast use vstd::seq_lib::group_to_multiset_ensures;

    let key = discover::largest_first::<P>();
    let stores = discover::store_entries(entries@);
    let found = choose|found: Seq<Found<P>>| #[trigger] discover::are_entries(stores, found) && r@
        == order::sorted_by(found, key);
    order::lemma_sorted_by(found, key);
    lemma_store_entries(entries@);
    assert forall|i: int, j: int| 0 <= i < j < r@.len() implies (#[trigger] r@[i]).bytes >= (
    #[trigger] r@[j]).bytes by {
        assert(key(order::sorted_by(found, key)[i]) <= key(order::sorted_by(found, key)[j]));
    }
    assert forall|i: int| 0 <= i < r@.len() implies exists|k: int|
        0 <= k < entries@.len() && found_there(#[trigger] r@[i], #[trigger] entries@[k]) by {
        order::lemma_sorted_by_holds(found, key, i);
        let m = choose|m: int| 0 <= m < found.len() && found[m] == r@[i];
        assert(discover::is_entry(stores[m], found[m]));
        assert(entries@.contains(stores[m]));
        let k = choose|k: int| 0 <= k < entries@.len() && entries@[k] == stores[m];
        assert(found_there(r@[i], entries@[k]));
    }
    assert forall|k: int|
        0 <= k < entries@.len() && names_store((#[trigger] entries@[k]).file_name@)
            && entries@[k].bytes is Some implies exists|i: int|
        0 <= i < r@.len() && found_there(#[trigger] r@[i], entries@[k]) by {
        assert(stores.contains(entries@[k]));
        let m = choose|m: int| 0 <= m < stores.len() && stores[m] == entries@[k];
        assert(discover::is_entry(stores[m], found[m]));
        assert(found.contains(found[m]));
        assert(found.to_multiset().count(found[m]) > 0);
        assert(r@.to_multiset().count(found[m]) > 0);
        assert(r@.contains(found[m]));
        let i = choose|i: int| 0 <= i < r@.len() && r@[i] == found[m];
        assert(found_there(r@[i], entries@[k]));
    }
}

/// The stores are offered in the order in which they were named, those of profiles
/// first; each is one of those named, each that was named is there, and none is there
/// twice: two names that are the same in small letters are one store.
pub proof fn lemma_stores_are_offered_once<P>(
    profiles: Vec<Found<P>>,
    directory: Vec<Found<P>>,
    r: Vec<Found<P>>,
) -> (at: Seq<int>)
    requires
        call_ensures(discover::stores, (profiles, directory), r),
    ensures
        at.len() == r@.len(),
        forall|i: int|
            0 <= i < r@.len() ==> 0 <= #[trigger] at[i] < profiles@.len() + directory@.len() && r@[i]
                == (profiles@ + directory@)[at[i]],
        forall|i: int, j: int|
            0 <= i < j < at.len() ==> #[trigger] at[i] < #[trigger] at[j] && discover::lowercase(
                r@[i].name@,
            ) != discover::lowercase(r@[j].name@),
        forall|k: int|
            0 <= k < profiles@.len() + directory@.len() ==> exists|i: int|
                0 <= i < r@.len() && at[i] <= k && discover::lowercase((#[trigger] r@[i]).name@)
                    == discover::lowercase((#[trigger] (profiles@ + directory@)[k]).name@),
{
    let all = profiles@ + directory@;
    let keys = discover::store_keys(all);
    let at = discover::firsts(keys);
    discover::lemma_firsts_range(keys);
    assert forall|i: int, j: int| 0 <= i < j < at.len() implies #[trigger] at[i] < #[trigger] at[j]
        && discover::lowercase(r@[i].name@) != discover::lowercase(r@[j].name@) by {
        discover::lemma_firsts_distinct(keys, i, j);
        assert(keys[at[i]] == discover::lowercase(all[at[i]].name@));
        assert(keys[at[j]] == discover::lowercase(all[at[j]].name@));
    }
    assert forall|k: int| 0 <= k < all.len() implies exists|i: int|
        0 <= i < r@.len() && at[i] <= k && discover::lowercase((#[trigger] r@[i]).name@)
            == discover::lowercase((#[trigger] all[k]).name@) by {
        let i = discover::lemma_firsts_cover(keys, k);
        assert(keys[at[i]] == discover::lowercase(all[at[i]].name@));
        assert(keys[k] == discover::lowercase(all[k].name@));
        assert(r@[i] == all[at[i]]);
    }
    at
}

/// The store that is opened unasked is the first of the profiles', else the first of
/// the directory's.
pub proof fn lemma_first_store_is_opened<P>(
    profiles: Vec<Found<P>>,
    directory: Vec<Found<P>>,
    r: Option<P>,
)
    requires
        call_ensures(discover::primary, (profiles, directory), r),
    ensures
        profiles@.len() > 0 ==> r == Some(profiles@[0].path),
        profiles@.len() == 0 && directory@.len() > 0 ==> r == Some(directory@[0].path),
        profiles@.len() == 0 && directory@.len() == 0 ==> r is None,
{
}

/// The key that lies along a way of subkeys under another.
pub open spec fn key_along(key: ProfileKey, way: Seq<int>) -> Option<ProfileKey>
    decreases way.len(),
{
    if way.len() == 0 {
        Some(key)
    } else if 0 <= way[0] < key.keys@.len() {
        key_along(key.keys@[way[0]], way.skip(1))
    } else {
        None
    }
}

/// The account that a key files its stores under: the text of the first value that is
/// called 001f3001, if it is not empty. `at` is that value, or the number of values.
pub open spec fn account_of(key: ProfileKey, at: int, account: Option<String>) -> bool {
    let name = seq!['0', '0', '1', 'f', '3', '0', '0', '1'];
    &&& 0 <= at <= key.values@.len()
    &&& forall|k: int| 0 <= k < at ==> !alike((#[trigger] key.values@[k]).0@, name)
    &&& at < key.values@.len() ==> alike(key.values@[at].0@, name)
    &&& if at < key.values@.len() {
        match discover::value_text(key.values@[at].1) {
            Some(t) => if t.len() > 0 {
                account matches Some(a) && a@ == t
            } else {
                account is None
            },
            None => account is None,
        }
    } else {
        account is None
    }
}

proof fn lemma_named_text(key: ProfileKey, from: int, at: int, account: Option<String>)
    requires
        0 <= from <= at,
        account_of(key, at, account),
    ensures
        discover::named_text(key.values@, "001f3001"@, from) == text::opt_text(account),
    decreases at - from,
{
    reveal_strlit("001f3001");
    let name = seq!['0', '0', '1', 'f', '3', '0', '0', '1'];
    assert("001f3001"@ =~= name);
    if from < key.values@.len() {
        crate::laws::texts::lemma_alike(key.values@[from].0@, name);
    }
    if from < at {
        assert(!alike(key.values@[from].0@, name));
        lemma_named_text(key, from + 1, at, account);
    }
}

proof fn lemma_value_listed(
    values: Seq<(String, RegValue)>,
    n: int,
    k: int,
    account: Option<Seq<char>>,
    source: Seq<char>,
    path: Seq<char>,
)
    requires
        0 <= k < n <= values.len(),
        discover::value_text(values[k].1) == Some(path),
        names_store(path),
    ensures
        discover::value_paths(values, n, account, source).contains(
            discover::CandidateV { path, account, source },
        ),
    decreases n,
{
    lemma_names_store(path);
    let all = discover::value_paths(values, n, account, source);
    let before = discover::value_paths(values, n - 1, account, source);
    let c = discover::CandidateV { path, account, source };
    if k < n - 1 {
        lemma_value_listed(values, n - 1, k, account, source, path);
        let i = choose|i: int| 0 <= i < before.len() && before[i] == c;
        assert(all[i] == c);
    } else {
        assert(all == before.push(c));
        assert(all[before.len() as int] == c);
    }
}

proof fn lemma_in_subkeys(
    keys: Seq<ProfileKey>,
    n: int,
    k: int,
    depth: nat,
    source: Seq<char>,
    c: discover::CandidateV,
)
    requires
        depth > 0,
        0 <= k < n <= keys.len(),
        discover::key_paths(keys[k], (depth - 1) as nat, source).contains(c),
    ensures
        discover::subkey_paths(keys, n, depth, source).contains(c),
    decreases n,
{
    let before = discover::subkey_paths(keys, n - 1, depth, source);
    let last = discover::key_paths(keys[n - 1], (depth - 1) as nat, source);
    let all = discover::subkey_paths(keys, n, depth, source);
    assert(all == before + last);
    if k < n - 1 {
        lemma_in_subkeys(keys, n - 1, k, depth, source, c);
        let i = choose|i: int| 0 <= i < before.len() && before[i] == c;
        assert(all[i] == c);
    } else {
        let i = choose|i: int| 0 <= i < last.len() && last[i] == c;
        assert(all[before.len() + i] == c);
    }
}

proof fn lemma_along(
    key: ProfileKey,
    way: Seq<int>,
    depth: nat,
    source: Seq<char>,
    k: int,
    at: int,
    account: Option<String>,
    path: Seq<char>,
)
    requires
        way.len() <= depth,
        key_along(key, way) matches Some(inner) && 0 <= k < inner.values@.len() && account_of(
            inner,
            at,
            account,
        ) && discover::value_text(inner.values@[k].1) == Some(path),
        names_store(path),
    ensures
        discover::key_paths(key, depth, source).contains(
            discover::CandidateV { path, account: text::opt_text(account), source },
        ),
    decreases way.len(),
{
    let c = discover::CandidateV { path, account: text::opt_text(account), source };
    let own_account = discover::named_text(key.values@, "001f3001"@, 0);
    let own = discover::value_paths(
        key.values@,
        key.values@.len() as int,
        own_account,
        source,
    );
    let all = discover::key_paths(key, depth, source);
    if way.len() == 0 {
        lemma_named_text(key, 0, at, account);
        lemma_value_listed(
            key.values@,
            key.values@.len() as int,
            k,
            text::opt_text(account),
            source,
            path,
        );
        let i = choose|i: int| 0 <= i < own.len() && own[i] == c;
        assert(all[i] == c);
    } else {
        lemma_along(
            key.keys@[way[0]],
            way.skip(1),
            (depth - 1) as nat,
            source,
            k,
            at,
            account,
            path,
        );
        let n = key.keys@.len() as int;
        lemma_in_subkeys(key.keys@, n, way[0], depth, source, c);
        let sub = discover::subkey_paths(key.keys@, n, depth, source);
        let i = choose|i: int| 0 <= i < sub.len() && sub[i] == c;
        assert(all == own + sub);
        assert(all[own.len() + i] == c);
    }
}

proof fn lemma_in_profiles(v: OfficeVersion, n: int, p: int, c: discover::CandidateV)
    requires
        0 <= p < n <= v.profiles@.len(),
        discover::key_paths(
            v.profiles@[p].key,
            3,
            discover::source_of(v.profiles@[p].name@),
        ).contains(c),
    ensures
        discover::profile_paths(
            v.profiles@,
            n,
            v.default,
            discover::is_default(v.default, v.profiles@[p].name@),
        ).contains(c),
    decreases n,
{
    let leading = discover::is_default(v.default, v.profiles@[p].name@);
    let before = discover::profile_paths(v.profiles@, n - 1, v.default, leading);
    let all = discover::profile_paths(v.profiles@, n, v.default, leading);
    if p < n - 1 {
        lemma_in_profiles(v, n - 1, p, c);
        let i = choose|i: int| 0 <= i < before.len() && before[i] == c;
        assert(all[i] == c);
    } else {
        let last = discover::key_paths(
            v.profiles@[p].key,
            3,
            discover::source_of(v.profiles@[p].name@),
        );
        let i = choose|i: int| 0 <= i < last.len() && last[i] == c;
        assert(all[before.len() + i] == c);
    }
}

proof fn lemma_in_versions(versions: Seq<OfficeVersion>, n: int, v: int, c: discover::CandidateV)
    requires
        0 <= v < n <= versions.len(),
        discover::version_paths(versions[v]).contains(c),
    ensures
        discover::versions_paths(versions, n).contains(c),
    decreases n,
{
    let before = discover::versions_paths(versions, n - 1);
    let last = discover::version_paths(versions[n - 1]);
    let all = discover::versions_paths(versions, n);
    if v < n - 1 {
        lemma_in_versions(versions, n - 1, v, c);
        let i = choose|i: int| 0 <= i < before.len() && before[i] == c;
        assert(all[i] == c);
    } else {
        let i = choose|i: int| 0 <= i < last.len() && last[i] == c;
        assert(all[before.len() + i] == c);
    }
}

/// Every store that a profile names is found: in whichever of its values the path
/// stands, up to three subkeys down, under the account of the key that names it and
/// the name of the profile.
pub proof fn lemma_every_named_store_is_found(
    versions: &Vec<OfficeVersion>,
    v: int,
    p: int,
    way: Seq<int>,
    k: int,
    at: int,
    account: Option<String>,
    path: Seq<char>,
    r: Vec<Candidate>,
)
    requires
        0 <= v < versions@.len(),
        0 <= p < versions@[v].profiles@.len(),
        way.len() <= 3,
        key_along(versions@[v].profiles@[p].key, way) matches Some(inner) && 0 <= k
            < inner.values@.len() && account_of(inner, at, account) && discover::value_text(
            inner.values@[k].1,
        ) == Some(path),
        names_store(path),
        call_ensures(discover::from_profiles, (versions,), r),
    ensures
        exists|i: int|
            0 <= i < r@.len() && (#[trigger] r@[i]).path@ == path && same_text(
                r@[i].account,
                account,
            ) && r@[i].source@ == "profile "@ + text::debug_of(versions@[v].profiles@[p].name@),
{
    let version = versions@[v];
    let profile = version.profiles@[p];
    let source = discover::source_of(profile.name@);
    let c = discover::CandidateV { path, account: text::opt_text(account), source };
    lemma_along(profile.key, way, 3, source, k, at, account, path);
    let n = version.profiles@.len() as int;
    lemma_in_profiles(version, n, p, c);
    let first = discover::profile_paths(version.profiles@, n, version.default, true);
    let then = discover::profile_paths(version.profiles@, n, version.default, false);
    let both = discover::version_paths(version);
    assert(both == first + then);
    if discover::is_default(version.default, profile.name@) {
        let i = choose|i: int| 0 <= i < first.len() && first[i] == c;
        assert(both[i] == c);
    } else {
        let i = choose|i: int| 0 <= i < then.len() && then[i] == c;
        assert(both[first.len() + i] == c);
    }
    lemma_in_versions(versions@, versions@.len() as int, v, c);
    let vs = views::views(r@);
    let i = choose|i: int| 0 <= i < vs.len() && vs[i] == c;
    assert(vs[i] == r@[i]@);
    assert(r@[i]@.account == text::opt_text(r@[i].account));
    assert(r@[i].path@ == path);
}

} // verus!
