//! Finding the mailbox file when the caller does not name one.
//!
//! Outlook records the full path of every store it has open in the profile
//! registry, so that is what counts. The filename is not derivable: it is usually
//! the account's name, but it is whatever the profile says, and a directory listing
//! cannot tell a primary mailbox from a leftover copy or from the `.nst` Groups
//! store sitting beside it. The directory is kept only as a fallback for a file no
//! profile mentions.
//!
//! ```text
//! HKCU\Software\Microsoft\Office\<ver>\Outlook
//!   DefaultProfile                 = REG_SZ, the profile Outlook opens
//!   Profiles\<profile>\<service>
//!     001f6610                     = REG_BINARY, UTF-16 store path
//!     001f3001                     = REG_BINARY, UTF-16 account display name
//! ```
//!
//! `<service>` is an opaque key name, so the whole profile subtree is walked.

use vstd::prelude::*;
use crate::order;
use crate::search;
use crate::text;

verus! {

/// A store this machine says exists.
#[derive(Clone, Debug)]
pub struct Found<P> {
    /// Where it is.
    pub path: P,
    /// The path as text.
    pub name: String,
    pub bytes: u64,
    /// The account the profile files this store under, when it came from one.
    pub account: Option<String>,
    /// `profile "Outlook"`, or `directory` for a file found by listing one.
    pub source: String,
}

/// What `str::to_lowercase` makes of a text.
pub uninterp spec fn lowercase(s: Seq<char>) -> Seq<char>;

/// Calls `str::to_lowercase`: the text in small letters, as Unicode maps them. The
/// result is a function of the text, named [`lowercase`]; nothing more is claimed
/// of it.
#[verifier::external_body]
fn to_lowercase(s: &str) -> (r: String)
    ensures
        r@ == lowercase(s@),
{
    s.to_lowercase()
}

/// Which of the candidates, each with a key, come before all others of the same
/// key: their positions.
pub open spec fn firsts(keys: Seq<Seq<char>>) -> Seq<int>
    decreases keys.len(),
{
    if keys.len() == 0 {
        seq![]
    } else if keys.drop_last().contains(keys.last()) {
        firsts(keys.drop_last())
    } else {
        firsts(keys.drop_last()).push(keys.len() - 1)
    }
}

/// The keys under which stores are the same: their paths in small letters.
pub open spec fn store_keys<P>(found: Seq<Found<P>>) -> Seq<Seq<char>> {
    Seq::new(found.len(), |i: int| lowercase(found[i].name@))
}

/// The candidates at these positions.
pub open spec fn picked<P>(found: Seq<Found<P>>, at: Seq<int>) -> Seq<Found<P>> {
    Seq::new(at.len(), |i: int| found[at[i]])
}

/// Whatever is listed was named, and the first that was comes first.
pub proof fn lemma_firsts_range(keys: Seq<Seq<char>>)
    ensures
        forall|i: int| 0 <= i < firsts(keys).len() ==> 0 <= #[trigger] firsts(keys)[i] < keys.len(),
        keys.len() > 0 ==> firsts(keys).len() > 0 && firsts(keys)[0] == 0,
    decreases keys.len(),
{
    if keys.len() > 0 {
        let front = keys.drop_last();
        let f = firsts(front);
        lemma_firsts_range(front);
        if front.contains(keys.last()) {
            assert(firsts(keys) == f);
            assert(front.len() > 0);
        } else {
            assert(firsts(keys) == f.push(keys.len() - 1));
            assert(front.len() == 0 ==> f =~= seq![]);
        }
        assert forall|i: int| 0 <= i < firsts(keys).len() implies 0 <= #[trigger] firsts(keys)[i]
            < keys.len() by {
            if i < f.len() {
                assert(firsts(keys)[i] == f[i]);
            }
        }
    }
}

/// Of two stores that are listed the first was named first, and no two share a key.
pub proof fn lemma_firsts_distinct(keys: Seq<Seq<char>>, i: int, j: int)
    requires
        0 <= i < j < firsts(keys).len(),
    ensures
        0 <= firsts(keys)[i] < firsts(keys)[j] < keys.len(),
        keys[firsts(keys)[i]] != keys[firsts(keys)[j]],
    decreases keys.len(),
{
    let front = keys.drop_last();
    let f = firsts(front);
    lemma_firsts_range(front);
    if j < f.len() {
        lemma_firsts_distinct(front, i, j);
    } else {
        assert(firsts(keys)[i] == f[i]);
        assert(front[f[i]] == keys[f[i]]);
        assert(front.contains(front[f[i]]));
    }
}

/// Each key is listed, at the place of its first candidate or before.
pub proof fn lemma_firsts_cover(keys: Seq<Seq<char>>, k: int) -> (i: int)
    requires
        0 <= k < keys.len(),
    ensures
        0 <= i < firsts(keys).len(),
        0 <= firsts(keys)[i] <= k,
        keys[firsts(keys)[i]] == keys[k],
    decreases keys.len(),
{
    let front = keys.drop_last();
    let f = firsts(front);
    lemma_firsts_range(front);
    if k < front.len() {
        let i = lemma_firsts_cover(front, k);
        assert(firsts(keys)[i] == f[i]);
        i
    } else if front.contains(keys.last()) {
        let m = choose|m: int| 0 <= m < front.len() && front[m] == keys.last();
        let i = lemma_firsts_cover(front, m);
        i
    } else {
        f.len() as int
    }
}

fn seen_before(keys: &Vec<String>, key: &str) -> (r: bool)
    ensures
        r == crate::views::views(keys@).contains(key@),
{
    let ghost all = crate::views::views(keys@);
    let wanted: Vec<char> = text::chars_of(key);
    let mut i: usize = 0;
    while i < keys.len()
        invariant
            i <= keys@.len(),
            all == crate::views::views(keys@),
            wanted@ == key@,
            forall|k: int| 0 <= k < i ==> #[trigger] all[k] != key@,
        decreases keys@.len() - i,
    {
        assert(all[i as int] == keys@[i as int]@);
        if text::same_chars(text::chars_of(keys[i].as_str()).as_slice(), wanted.as_slice()) {
            return true;
        }
        i = i + 1;
    }
    false
}

fn keep_firsts<P>(found: Vec<Found<P>>) -> (r: Vec<Found<P>>)
    ensures
        r@ == picked(found@, firsts(store_keys(found@))),
{
    broadcast use crate::views::lemma_views_push;

    let ghost all = found@;
    let ghost keys = store_keys(all);
    let mut seen: Vec<String> = Vec::new();
    let mut out: Vec<Found<P>> = Vec::new();
    assert(keys.take(0) =~= seq![]);
    assert(crate::views::views(seen@) =~= seq![]);
    assert(out@ =~= picked(all, firsts(keys.take(0))));
    for f in it: found
        invariant
            it.seq() == all,
            keys == store_keys(all),
            crate::views::views(seen@) == keys.take(it.index()),
            out@ == picked(all, firsts(keys.take(it.index()))),
    {
        let ghost k = it.index();
        let key: String = to_lowercase(f.name.as_str());
        proof {
            assert(f == all[k]);
            assert(keys.take(k + 1).drop_last() =~= keys.take(k));
            assert(keys.take(k + 1).last() == key@);
            assert(keys.take(k + 1) =~= keys.take(k).push(key@));
        }
        let known: bool = seen_before(&seen, key.as_str());
        seen.push(key);
        if !known {
            let ghost before = out@;
            out.push(f);
            assert(out@ =~= picked(all, firsts(keys.take(k + 1))));
        }
    }
    assert(keys.take(keys.len() as int) =~= keys);
    out
}

/// Every store worth opening, best first: the default profile's stores, then the
/// other profiles', then anything left in the Outlook directory. A path named more
/// than once, in whatever case, is listed once.
pub fn stores<P>(profiles: Vec<Found<P>>, directory: Vec<Found<P>>) -> (r: Vec<Found<P>>)
    ensures
        r@ == picked(
            profiles@ + directory@,
            firsts(store_keys(profiles@ + directory@)),
        ),
{
    let mut all: Vec<Found<P>> = profiles;
    let mut rest: Vec<Found<P>> = directory;
    all.append(&mut rest);
    keep_firsts(all)
}

/// The store to open when none was given on the command line.
pub fn primary<P>(profiles: Vec<Found<P>>, directory: Vec<Found<P>>) -> (r: Option<P>)
    ensures
        r == (if profiles@.len() + directory@.len() == 0 {
            None
        } else {
            Some((profiles@ + directory@)[0].path)
        }),
{
    proof {
        lemma_firsts_range(store_keys(profiles@ + directory@));
    }
    let mut all: Vec<Found<P>> = stores(profiles, directory);
    if all.len() == 0 {
        None
    } else {
        let first: Found<P> = all.swap_remove(0);
        Some(first.path)
    }
}

/// A store's file name ends in `.ost` or `.pst`, in whatever case.
pub open spec fn store_name(path: Seq<char>) -> bool {
    let tail = text::ascii_lowered(path.skip(path.len() - 4));
    path.len() >= 4 && (tail == ".ost"@ || tail == ".pst"@)
}

pub fn is_store(path: &str) -> (r: bool)
    ensures
        r == store_name(path@),
{
    let cs: Vec<char> = text::chars_of(path);
    let n: usize = cs.len();
    if n < 4 {
        return false;
    }
    let end: &[char] = vstd::slice::slice_subrange(cs.as_slice(), n - 4, n);
    assert(end@ =~= path@.skip(path@.len() - 4));
    let tail: Vec<char> = text::to_ascii_lower(end);
    text::same_chars(tail.as_slice(), text::chars_of(".ost").as_slice()) || text::same_chars(
        tail.as_slice(),
        text::chars_of(".pst").as_slice(),
    )
}

/// Whether a file extension is that of a PFF store.
pub fn is_ost_or_pst(extension: Option<&str>) -> (r: bool)
    ensures
        r == (extension matches Some(e) && (text::ascii_lowered(e@) == text::ascii_lowered("ost"@)
            || text::ascii_lowered(e@) == text::ascii_lowered("pst"@))),
{
    match extension {
        Some(e) => text::eq_ignore_ascii_case(e, "ost") || text::eq_ignore_ascii_case(e, "pst"),
        None => false,
    }
}

/// An entry of the Outlook directory.
#[derive(Clone, Debug)]
pub struct DirEntry<P> {
    pub path: P,
    /// The path as text.
    pub name: String,
    /// The file name as text.
    pub file_name: String,
    /// The size of the file, if it resolves to one.
    pub bytes: Option<u64>,
}

/// Stores are ordered by size, the largest first: a secondary store is generally
/// much smaller than the primary one.
pub open spec fn largest_first<P>() -> spec_fn(Found<P>) -> int {
    |f: Found<P>| -(f.bytes as int)
}

/// What a directory entry says of a store, if it is one. An entry that no longer
/// resolves to a file is dropped.
pub open spec fn is_entry<P>(e: DirEntry<P>, f: Found<P>) -> bool {
    &&& f.path == e.path
    &&& f.name@ == e.name@
    &&& e.bytes == Some(f.bytes)
    &&& f.account is None
    &&& f.source@ == "directory"@
}

/// The entries that are stores, in the order of the listing.
pub open spec fn store_entries<P>(entries: Seq<DirEntry<P>>) -> Seq<DirEntry<P>>
    decreases entries.len(),
{
    if entries.len() == 0 {
        seq![]
    } else if store_name(entries.last().file_name@) && entries.last().bytes is Some {
        store_entries(entries.drop_last()).push(entries.last())
    } else {
        store_entries(entries.drop_last())
    }
}

/// Whether each of the found stores is the entry at its place.
pub open spec fn are_entries<P>(entries: Seq<DirEntry<P>>, found: Seq<Found<P>>) -> bool {
    found.len() == entries.len() && forall|i: int|
        0 <= i < found.len() ==> is_entry(#[trigger] entries[i], found[i])
}

fn read_entries<P>(entries: Vec<DirEntry<P>>) -> (r: Vec<Found<P>>)
    ensures
        are_entries(store_entries(entries@), r@),
{
    let ghost all = entries@;
    let mut out: Vec<Found<P>> = Vec::new();
    assert(all.take(0) =~= seq![]);
    for e in it: entries
        invariant
            it.seq() == all,
            are_entries(store_entries(all.take(it.index())), out@),
    {
        let ghost k = it.index();
        assert(all.take(k + 1).drop_last() =~= all.take(k));
        assert(all.take(k + 1).last() == e);
        let ghost before = out@;
        if is_store(e.file_name.as_str()) {
            if let Some(bytes) = e.bytes {
                out.push(
                    Found {
                        path: e.path,
                        name: e.name,
                        bytes,
                        account: None,
                        source: "directory".to_owned(),
                    },
                );
            }
        }
    }
    assert(all.take(all.len() as int) =~= all);
    out
}

fn sort_key<P>(f: &Found<P>) -> (r: i128)
    ensures
        r == largest_first::<P>()(*f),
{
    -(f.bytes as i128)
}

/// Every `.ost` and `.pst` in the default Outlook directory, largest first.
pub fn from_directory<P>(entries: Vec<DirEntry<P>>) -> (r: Vec<Found<P>>)
    ensures
        exists|found: Seq<Found<P>>|
            #[trigger] are_entries(store_entries(entries@), found) && r@ == order::sorted_by(
                found,
                largest_first(),
            ),
{
    let found: Vec<Found<P>> = read_entries(entries);
    order::sort_by_key(found, sort_key, Ghost(largest_first()))
}

/// A registry value: text as 16-bit units, as both string and binary values of a
/// profile hold it, or something that is no text.
#[derive(Clone, Debug)]
pub enum RegValue {
    Wide(Vec<u16>),
    Other,
}

/// A key of a profile: its values, by name, and its subkeys.
pub struct ProfileKey {
    pub values: Vec<(String, RegValue)>,
    pub keys: Vec<ProfileKey>,
}

/// One profile of an Office version.
pub struct ProfileRecord {
    pub name: String,
    pub key: ProfileKey,
}

/// The Outlook profiles of one Office version.
pub struct OfficeVersion {
    pub default: Option<String>,
    pub profiles: Vec<ProfileRecord>,
}

/// A store path that a profile names.
#[derive(Clone, Debug)]
pub struct Candidate {
    pub path: String,
    pub account: Option<String>,
    pub source: String,
}

/// A store path with its texts as sequences of characters.
pub struct CandidateV {
    pub path: Seq<char>,
    pub account: Option<Seq<char>>,
    pub source: Seq<char>,
}

impl View for Candidate {
    type V = CandidateV;

    open spec fn view(&self) -> CandidateV {
        CandidateV {
            path: self.path@,
            account: text::opt_text(self.account),
            source: self.source@,
        }
    }
}

/// The units up to the first zero.
pub open spec fn before_zero(w: Seq<u16>) -> Seq<u16>
    decreases w.len(),
{
    if w.len() == 0 || w[0] == 0 {
        seq![]
    } else {
        seq![w[0]] + before_zero(w.skip(1))
    }
}

/// The text of a registry value: NUL-terminated UTF-16. Anything numeric is not a
/// path.
pub open spec fn value_text(v: RegValue) -> Option<Seq<char>> {
    match v {
        RegValue::Wide(w) => Some(text::utf16_text(before_zero(w@))),
        RegValue::Other => None,
    }
}

/// Decode a registry value.
pub fn decode(v: &RegValue) -> (r: Option<String>)
    ensures
        text::opt_text(r) == value_text(*v),
{
    match v {
        RegValue::Wide(w) => {
            let n: usize = w.len();
            let mut units: Vec<u16> = Vec::new();
            let mut i: usize = 0;
            assert(w@.skip(0) =~= w@);
            assert(units@ + before_zero(w@) =~= before_zero(w@));
            while i < n && w[i] != 0
                invariant
                    n == w@.len(),
                    i <= n,
                    units@ + before_zero(w@.skip(i as int)) == before_zero(w@),
                decreases n - i,
            {
                proof {
                    let rest = w@.skip(i as int);
                    assert(rest.skip(1) =~= w@.skip(i + 1));
                    assert(units@ + (seq![rest[0]] + before_zero(rest.skip(1))) =~= units@.push(
                        rest[0],
                    ) + before_zero(rest.skip(1)));
                }
                units.push(w[i]);
                i = i + 1;
            }
            assert(units@ + before_zero(w@.skip(i as int)) =~= units@);
            Some(text::from_utf16_lossy(units.as_slice()))
        },
        RegValue::Other => None,
    }
}

/// The first value with this name, in whatever case, from position `i` on, if it
/// has a text that is not empty.
pub open spec fn named_text(values: Seq<(String, RegValue)>, name: Seq<char>, i: int) -> Option<
    Seq<char>,
>
    decreases values.len() - i,
{
    if i < 0 || i >= values.len() {
        None
    } else if text::ascii_lowered(values[i].0@) == text::ascii_lowered(name) {
        match value_text(values[i].1) {
            Some(t) => if t.len() > 0 {
                Some(t)
            } else {
                None
            },
            None => None,
        }
    } else {
        named_text(values, name, i + 1)
    }
}

fn find_text(values: &Vec<(String, RegValue)>, name: &str) -> (r: Option<String>)
    ensures
        text::opt_text(r) == named_text(values@, name@, 0),
{
    let mut i: usize = 0;
    while i < values.len()
        invariant
            i <= values@.len(),
            named_text(values@, name@, i as int) == named_text(values@, name@, 0),
        decreases values@.len() - i,
    {
        let value: &(String, RegValue) = &values[i];
        if text::eq_ignore_ascii_case(value.0.as_str(), name) {
            return match decode(&value.1) {
                Some(t) => if t.as_str().unicode_len() > 0 {
                    Some(t)
                } else {
                    None
                },
                None => None,
            };
        }
        i = i + 1;
    }
    None
}

/// The store paths among the first `n` values of a key. Any value whose text names
/// a `.ost` or `.pst` file is one: there are several tags for such paths, and
/// matching on the extension picks up every one without guessing at numbers.
pub open spec fn value_paths(
    values: Seq<(String, RegValue)>,
    n: int,
    account: Option<Seq<char>>,
    source: Seq<char>,
) -> Seq<CandidateV>
    decreases n,
{
    if n <= 0 {
        seq![]
    } else {
        let before = value_paths(values, n - 1, account, source);
        match value_text(values[n - 1].1) {
            Some(path) => if store_name(path) {
                before.push(CandidateV { path, account, source })
            } else {
                before
            },
            None => before,
        }
    }
}

/// The store paths of a profile subtree, `depth` levels down: those of the key
/// itself, under the account that it names, then those of its subkeys.
pub open spec fn key_paths(key: ProfileKey, depth: nat, source: Seq<char>) -> Seq<CandidateV>
    decreases depth, 1int, 0int,
{
    let account = named_text(key.values@, "001f3001"@, 0);
    let own = value_paths(key.values@, key.values@.len() as int, account, source);
    if depth == 0 {
        own
    } else {
        own + subkey_paths(key.keys@, key.keys@.len() as int, depth, source)
    }
}

/// The store paths of the first `n` subkeys.
pub open spec fn subkey_paths(
    keys: Seq<ProfileKey>,
    n: int,
    depth: nat,
    source: Seq<char>,
) -> Seq<CandidateV>
    decreases depth, 0int, n,
{
    if n <= 0 || depth == 0 {
        seq![]
    } else {
        subkey_paths(keys, n - 1, depth, source) + key_paths(
            keys[n - 1],
            (depth - 1) as nat,
            source,
        )
    }
}

/// Collect the store paths in one profile subtree.
pub fn walk(key: &ProfileKey, depth: u32, source: &String, out: &mut Vec<Candidate>)
    ensures
        crate::views::views(final(out)@) == crate::views::views(old(out)@) + key_paths(
            *key,
            depth as nat,
            source@,
        ),
    decreases depth,
{
    broadcast use crate::views::lemma_views_push;

    let ghost start = crate::views::views(out@);
    // The display name of the service, which is the account the store belongs to.
    let account: Option<String> = find_text(&key.values, "001f3001");
    let ghost acc = text::opt_text(account);
    let mut i: usize = 0;
    assert(start + value_paths(key.values@, 0, acc, source@) =~= start);
    while i < key.values.len()
        invariant
            i <= key.values@.len(),
            acc == text::opt_text(account),
            crate::views::views(out@) == start + value_paths(
                key.values@,
                i as int,
                acc,
                source@,
            ),
        decreases key.values@.len() - i,
    {
        let value: &(String, RegValue) = &key.values[i];
        if let Some(path) = decode(&value.1) {
            if is_store(path.as_str()) {
                let copy: Option<String> = match &account {
                    Some(a) => Some(a.clone()),
                    None => None,
                };
                let c: Candidate = Candidate { path, account: copy, source: source.clone() };
                proof {
                    let before = value_paths(key.values@, i as int, acc, source@);
                    assert(start + before.push(c@) =~= (start + before).push(c@));
                }
                out.push(c);
            }
        }
        i = i + 1;
    }
    if depth == 0 {
        return;
    }
    let ghost own = value_paths(key.values@, key.values@.len() as int, acc, source@);
    let mut k: usize = 0;
    assert(start + own + subkey_paths(key.keys@, 0, depth as nat, source@) =~= start + own);
    while k < key.keys.len()
        invariant
            depth > 0,
            k <= key.keys@.len(),
            crate::views::views(out@) == start + own + subkey_paths(
                key.keys@,
                k as int,
                depth as nat,
                source@,
            ),
        decreases key.keys@.len() - k,
    {
        proof {
            let before = subkey_paths(key.keys@, k as int, depth as nat, source@);
            let more = key_paths(key.keys@[k as int], (depth - 1) as nat, source@);
            assert(start + own + before + more =~= start + own + (before + more));
        }
        walk(&key.keys[k], depth - 1, source, out);
        k = k + 1;
    }
    assert(start + own + subkey_paths(
        key.keys@,
        key.keys@.len() as int,
        depth as nat,
        source@,
    ) =~= start + (own + subkey_paths(
        key.keys@,
        key.keys@.len() as int,
        depth as nat,
        source@,
    )));
}

/// Whether a profile is the one that Outlook opens.
pub open spec fn is_default(default: Option<String>, name: Seq<char>) -> bool {
    default matches Some(d) && text::ascii_lowered(d@) == text::ascii_lowered(name)
}

/// What a profile is called in the list of stores.
pub open spec fn source_of(name: Seq<char>) -> Seq<char> {
    "profile "@ + text::debug_of(name)
}

/// The store paths of the first `n` profiles that are, or are not, the default.
pub open spec fn profile_paths(
    profiles: Seq<ProfileRecord>,
    n: int,
    default: Option<String>,
    leading: bool,
) -> Seq<CandidateV>
    decreases n,
{
    if n <= 0 {
        seq![]
    } else {
        let before = profile_paths(profiles, n - 1, default, leading);
        let p = profiles[n - 1];
        if is_default(default, p.name@) == leading {
            before + key_paths(p.key, 3, source_of(p.name@))
        } else {
            before
        }
    }
}

/// The store paths of an Office version: those of the default profile, which is
/// the one Outlook actually opened, then those of the others.
pub open spec fn version_paths(v: OfficeVersion) -> Seq<CandidateV> {
    let n = v.profiles@.len() as int;
    profile_paths(v.profiles@, n, v.default, true) + profile_paths(
        v.profiles@,
        n,
        v.default,
        false,
    )
}

/// The store paths of the first `n` Office versions.
pub open spec fn versions_paths(versions: Seq<OfficeVersion>, n: int) -> Seq<CandidateV>
    decreases n,
{
    if n <= 0 {
        seq![]
    } else {
        versions_paths(versions, n - 1) + version_paths(versions[n - 1])
    }
}

fn default_profile(default: &Option<String>, name: &String) -> (r: bool)
    ensures
        r == is_default(*default, name@),
{
    match default {
        Some(d) => text::eq_ignore_ascii_case(d.as_str(), name.as_str()),
        None => false,
    }
}

fn add_profiles(v: &OfficeVersion, leading: bool, out: &mut Vec<Candidate>)
    ensures
        crate::views::views(final(out)@) == crate::views::views(old(out)@) + profile_paths(
            v.profiles@,
            v.profiles@.len() as int,
            v.default,
            leading,
        ),
{
    let ghost start = crate::views::views(out@);
    let mut i: usize = 0;
    assert(start + profile_paths(v.profiles@, 0, v.default, leading) =~= start);
    while i < v.profiles.len()
        invariant
            i <= v.profiles@.len(),
            crate::views::views(out@) == start + profile_paths(
                v.profiles@,
                i as int,
                v.default,
                leading,
            ),
        decreases v.profiles@.len() - i,
    {
        let p: &ProfileRecord = &v.profiles[i];
        if default_profile(&v.default, &p.name) == leading {
            let source: String = text::cat2(
                "profile ",
                text::debug_string(p.name.as_str()).as_str(),
            );
            proof {
                let before = profile_paths(v.profiles@, i as int, v.default, leading);
                let more = key_paths(p.key, 3, source@);
                assert(start + before + more =~= start + (before + more));
            }
            walk(&p.key, 3, &source, out);
        }
        i = i + 1;
    }
}

/// The store paths that the profiles name, the default profile of each Office
/// version first. Several versions can be registered at once.
pub fn from_profiles(versions: &Vec<OfficeVersion>) -> (r: Vec<Candidate>)
    ensures
        crate::views::views(r@) == versions_paths(versions@, versions@.len() as int),
{
    let mut out: Vec<Candidate> = Vec::new();
    let mut i: usize = 0;
    assert(crate::views::views(out@) =~= seq![]);
    while i < versions.len()
        invariant
            i <= versions@.len(),
            crate::views::views(out@) == versions_paths(versions@, i as int),
        decreases versions@.len() - i,
    {
        let v: &OfficeVersion = &versions[i];
        let ghost before = crate::views::views(out@);
        add_profiles(v, true, &mut out);
        add_profiles(v, false, &mut out);
        assert(crate::views::views(out@) =~= before + version_paths(*v));
        i = i + 1;
    }
    out
}

proof fn lemma_value_paths_are_stores(
    values: Seq<(String, RegValue)>,
    n: int,
    account: Option<Seq<char>>,
    source: Seq<char>,
)
    ensures
        forall|i: int|
            0 <= i < value_paths(values, n, account, source).len() ==> store_name(
                (#[trigger] value_paths(values, n, account, source)[i]).path,
            ),
    decreases n,
{
    if n > 0 {
        lemma_value_paths_are_stores(values, n - 1, account, source);
    }
}

/// Whatever a profile subtree yields is a store's path: the Groups store beside it
/// is left alone.
pub proof fn lemma_key_paths_are_stores(key: ProfileKey, depth: nat, source: Seq<char>)
    ensures
        forall|i: int|
            0 <= i < key_paths(key, depth, source).len() ==> store_name(
                (#[trigger] key_paths(key, depth, source)[i]).path,
            ),
    decreases depth, 1int, 0int,
{
    let account = named_text(key.values@, "001f3001"@, 0);
    lemma_value_paths_are_stores(key.values@, key.values@.len() as int, account, source);
    lemma_subkey_paths_are_stores(key.keys@, key.keys@.len() as int, depth, source);
}

proof fn lemma_subkey_paths_are_stores(
    keys: Seq<ProfileKey>,
    n: int,
    depth: nat,
    source: Seq<char>,
)
    ensures
        forall|i: int|
            0 <= i < subkey_paths(keys, n, depth, source).len() ==> store_name(
                (#[trigger] subkey_paths(keys, n, depth, source)[i]).path,
            ),
    decreases depth, 0int, n,
{
    if n > 0 && depth > 0 {
        lemma_subkey_paths_are_stores(keys, n - 1, depth, source);
        lemma_key_paths_are_stores(keys[n - 1], (depth - 1) as nat, source);
    }
}

} // verus!
