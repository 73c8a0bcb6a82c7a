//! What a profile shows: the folders and mail of `Outlook.sqlite` with the bodies
//! of its `.olk15*` files, and the messages recovered from `HxStore.hxd`.
//!
//! Recovered messages carry no folder identity and no attachment linkage: they
//! are shown in one synthetic folder, and have no attachments.

use vstd::prelude::*;
use crate::b64;
use crate::errors::ErrorV;
use crate::mac_outlook::hxrecord;
use crate::mac_outlook::hxrecord::{HxMessage, HxMessageV};
use crate::mac_outlook::hxstore;
use crate::mac_outlook::hxstore::{Block, BlockV};
use crate::mac_outlook::olk15;
use crate::mac_outlook::olk15::BodyKind;
use crate::mac_outlook::schema;
use crate::mac_outlook::schema::{LinkedBlock, LinkedBlockV, RawMail};
use crate::mailbox::{
    Attachment,
    AttachmentV,
    Error,
    Folder,
    FolderV,
    Message,
    MessageRow,
    MessageRowV,
    MessageV,
};
use crate::order;
use crate::text;
use crate::views;

verus! {

broadcast use views::lemma_views_push;

/// Synthetic folder id for messages recovered from `HxStore.hxd`, which carries no
/// folder identity of its own. Negative, so it can never collide with a record id,
/// always a positive SQLite rowid.
pub const HX_FOLDER_ID: i64 = -1;

/// Base for synthetic message ids drawn from the Hx cache: same reasoning, a
/// different negative range so the two synthetic id spaces stay visually
/// distinguishable in logs and error messages.
pub const HX_ID_BASE: i64 = -1_000_000;

/// How many recovered messages the synthetic ids reach for.
pub const HX_ID_COUNT: u64 = 0x4000_0000_0000_0000;

/// A byte as a hexadecimal digit.
pub open spec fn hex_value(c: u8) -> Option<int> {
    if 0x30 <= c <= 0x39 {
        Some(c - 0x30)
    } else if 0x41 <= c <= 0x46 {
        Some(c - 0x37)
    } else if 0x61 <= c <= 0x66 {
        Some(c - 0x57)
    } else {
        None
    }
}

/// The byte that the two characters behind a percent sign name: two hexadecimal
/// digits, or one behind a plus sign.
pub open spec fn escape_value(a: u8, b: u8) -> Option<int> {
    match (hex_value(a), hex_value(b)) {
        (Some(x), Some(y)) => Some(16 * x + y),
        (None, Some(y)) => if a == 0x2B {
            Some(y)
        } else {
            None
        },
        _ => None,
    }
}

/// The bytes from `i` on with their percent escapes read.
pub open spec fn unescaped_from(b: Seq<u8>, i: int) -> Seq<u8>
    decreases b.len() - i,
{
    if i < 0 || i >= b.len() {
        seq![]
    } else if b[i] == 0x25 && i + 2 < b.len() && escape_value(b[i + 1], b[i + 2]) is Some {
        seq![escape_value(b[i + 1], b[i + 2])->Some_0 as u8] + unescaped_from(b, i + 3)
    } else {
        seq![b[i]] + unescaped_from(b, i + 1)
    }
}

/// What a `PathToDataFile` value spells.
pub open spec fn unescaped(relative: Seq<char>) -> Seq<char> {
    text::lossy_text(unescaped_from(vstd::utf8::encode_utf8(relative), 0))
}

fn read_hex(c: u8) -> (r: Option<u8>)
    ensures
        match r {
            Some(v) => hex_value(c) == Some(v as int) && v < 16,
            None => hex_value(c) is None,
        },
{
    if 0x30 <= c && c <= 0x39 {
        Some(c - 0x30)
    } else if 0x41 <= c && c <= 0x46 {
        Some(c - 0x37)
    } else if 0x61 <= c && c <= 0x66 {
        Some(c - 0x57)
    } else {
        None
    }
}

fn read_escape(a: u8, b: u8) -> (r: Option<u8>)
    ensures
        match r {
            Some(v) => escape_value(a, b) == Some(v as int),
            None => escape_value(a, b) is None,
        },
{
    match (read_hex(a), read_hex(b)) {
        (Some(x), Some(y)) => Some(16 * x + y),
        (None, Some(y)) => if a == 0x2B {
            Some(y)
        } else {
            None
        },
        _ => None,
    }
}

proof fn lemma_nothing_to_unescape(b: Seq<u8>, i: int)
    requires
        0 <= i <= b.len(),
        forall|k: int| 0 <= k < b.len() ==> #[trigger] b[k] != 0x25,
    ensures
        unescaped_from(b, i) == b.skip(i),
    decreases b.len() - i,
{
    if i < b.len() {
        lemma_nothing_to_unescape(b, i + 1);
        assert(b[i] != 0x25);
        assert(seq![b[i]] + b.skip(i + 1) =~= b.skip(i));
    } else {
        assert(b.skip(i) =~= seq![]);
    }
}

/// Read the URL escapes of a path. Text without a percent sign stays as it is.
pub fn percent_decode(s: &str) -> (r: String)
    ensures
        r@ == unescaped(s@),
        (forall|k: int| 0 <= k < vstd::utf8::encode_utf8(s@).len() ==> #[trigger] vstd::utf8::encode_utf8(s@)[k] != 0x25)
            ==> r@ == s@,
{
    let b: &[u8] = s.as_bytes();
    let n: usize = b.len();
    let mut out: Vec<u8> = Vec::new();
    let mut i: usize = 0;
    assert(out@ + unescaped_from(b@, 0) =~= unescaped_from(b@, 0));
    while i < n
        invariant
            n == b@.len(),
            i <= n,
            out@ + unescaped_from(b@, i as int) == unescaped_from(b@, 0),
        decreases n - i,
    {
        let mut read: Option<u8> = None;
        if b[i] == 0x25 && n - i > 2 {
            read = read_escape(b[i + 1], b[i + 2]);
        }
        match read {
            Some(v) => {
                proof {
                    let rest = unescaped_from(b@, i + 3);
                    assert(out@ + (seq![v] + rest) =~= out@.push(v) + rest);
                }
                out.push(v);
                i = i + 3;
            },
            None => {
                proof {
                    let rest = unescaped_from(b@, i + 1);
                    assert(out@ + (seq![b@[i as int]] + rest) =~= out@.push(b@[i as int]) + rest);
                }
                out.push(b[i]);
                i = i + 1;
            },
        }
    }
    assert(out@ + unescaped_from(b@, i as int) =~= out@);
    proof {
        if forall|k: int| 0 <= k < b@.len() ==> #[trigger] b@[k] != 0x25 {
            lemma_nothing_to_unescape(b@, 0);
            assert(b@.skip(0) =~= b@);
            vstd::utf8::encode_utf8_valid_utf8(s@);
            vstd::utf8::encode_utf8_decode_utf8(s@);
        }
    }
    text::lossy_string(out.as_slice())
}

/// A component of a path, as the operating system divides it.
#[derive(Clone, Copy, Debug)]
pub enum PathPart {
    /// A drive or server.
    Prefix,
    /// The root.
    RootDir,
    /// `.`
    CurDir,
    /// `..`
    ParentDir,
    /// A name.
    Normal,
}

/// A component that is a plain name.
pub open spec fn stays_inside(p: PathPart) -> bool {
    p is Normal
}

/// Text that every operating system divides alike: it names no drive, and slashes
/// alone separate it.
pub open spec fn plain_path(s: Seq<char>) -> bool {
    forall|k: int| 0 <= k < s.len() ==> #[trigger] s[k] != ':' && s[k] != '\\'
}

/// Two dots between slashes, or an end, at `i`.
pub open spec fn parent_at(s: Seq<char>, i: int) -> bool {
    &&& 0 <= i && i + 2 <= s.len()
    &&& s[i] == '.' && s[i + 1] == '.'
    &&& i == 0 || s[i - 1] == '/'
    &&& i + 2 == s.len() || s[i + 2] == '/'
}

/// A path that starts at the root or goes up somewhere.
pub open spec fn leads_out(s: Seq<char>) -> bool {
    (s.len() > 0 && s[0] == '/') || exists|i: int| #[trigger] parent_at(s, i)
}

/// A path whose first component is the directory it starts from.
pub open spec fn starts_here(s: Seq<char>) -> bool {
    s.len() > 0 && s[0] == '.' && (s.len() == 1 || s[1] == '/')
}

/// A path that shows in its text that some component of it is no plain name.
pub open spec fn strays(s: Seq<char>) -> bool {
    leads_out(s) || starts_here(s)
}

/// Some component of a path is no plain name: a root, a drive, `..` or `.`.
pub open spec fn escapes(parts: Seq<PathPart>) -> bool {
    exists|i: int| 0 <= i < parts.len() && !stays_inside(#[trigger] parts[i])
}

/// Calls `std::path::Path::components` and names what each component is. Where a
/// path divides depends on the operating system. On all of them a leading slash
/// is a root, or part of a prefix; two dots between slashes are a parent, unless a
/// prefix in front takes them for part of a name; and one dot in front of a slash
/// is a component where the path starts with it, and none elsewhere. So one of the
/// components is no plain name wherever the text shows it. Where the text has no
/// colon and no backslash, slashes alone separate it, and one is no plain name only
/// there. Which other paths with a colon or a backslash have such a component is
/// left open.
#[verifier::external_body]
fn path_parts(path: &str) -> (r: Vec<PathPart>)
    ensures
        strays(path@) ==> escapes(r@),
        plain_path(path@) ==> escapes(r@) == strays(path@),
{
    std::path::Path::new(path).components().map(
        |c| match c {
            std::path::Component::Prefix(_) => PathPart::Prefix,
            std::path::Component::RootDir => PathPart::RootDir,
            std::path::Component::CurDir => PathPart::CurDir,
            std::path::Component::ParentDir => PathPart::ParentDir,
            std::path::Component::Normal(_) => PathPart::Normal,
        },
    ).collect()
}

/// The error for a path that leads out of the profile.
pub open spec fn refusal(relative: Seq<char>) -> ErrorV {
    ErrorV::Format(
        "refusing to read outside the profile data directory: "@ + text::debug_of(relative),
    )
}

/// Refuse a path unless every component of it is a plain name.
///
/// The path comes straight out of the database. Joining sanitizes nothing, and an
/// absolute or root-relative path replaces the base outright, so without this a
/// crafted or corrupted row would let any tool read an arbitrary file. Rejecting
/// anything that is not a name covers a root, a drive prefix and a `..` alike.
pub fn check_parts(relative: &str, parts: &Vec<PathPart>) -> (r: Result<(), Error>)
    ensures
        match r {
            Ok(_) => !escapes(parts@),
            Err(e) => e@ == refusal(relative@) && escapes(parts@),
        },
{
    let mut i: usize = 0;
    while i < parts.len()
        invariant
            i <= parts@.len(),
            forall|k: int| 0 <= k < i ==> stays_inside(#[trigger] parts@[k]),
        decreases parts@.len() - i,
    {
        let inside: bool = match parts[i] {
            PathPart::Normal => true,
            _ => false,
        };
        if !inside {
            assert(!stays_inside(parts@[i as int]));
            return Err(
                Error::Format(
                    text::cat2(
                        "refusing to read outside the profile data directory: ",
                        text::debug_string(relative).as_str(),
                    ),
                ),
            );
        }
        i = i + 1;
    }
    Ok(())
}

/// What a `PathToDataFile` value spells: the path below the data directory, and
/// its components as the operating system divides it.
pub fn data_file_parts(relative: &str) -> (r: (String, Vec<PathPart>))
    ensures
        r.0@ == unescaped(relative@),
        strays(unescaped(relative@)) ==> escapes(r.1@),
        plain_path(unescaped(relative@)) ==> escapes(r.1@) == strays(unescaped(relative@)),
{
    let decoded: String = percent_decode(relative);
    let parts: Vec<PathPart> = path_parts(decoded.as_str());
    (decoded, parts)
}

/// The path of a data file below the data directory, as a `PathToDataFile` value
/// spells it, or the error that it leads elsewhere: some component of it is no
/// name. A text that starts at the root or with `.`, or goes up, is always refused.
/// Where the text names no drive and slashes alone separate it, nothing else is.
pub fn data_file_path(relative: &str) -> (r: Result<String, Error>)
    ensures
        match r {
            Ok(path) => path@ == unescaped(relative@),
            Err(e) => e@ == refusal(relative@),
        },
        strays(unescaped(relative@)) ==> r is Err,
        plain_path(unescaped(relative@)) ==> (r is Err <==> strays(unescaped(relative@))),
        exists|divided: (String, Vec<PathPart>)| #[trigger]
            call_ensures(data_file_parts, (relative,), divided) && (r is Err <==> escapes(
                divided.1@,
            )),
{
    let divided: (String, Vec<PathPart>) = data_file_parts(relative);
    assert(call_ensures(data_file_parts, (relative,), divided));
    check_parts(relative, &divided.1)?;
    Ok(divided.0)
}

/// The records of a list of blocks, block by block.
pub open spec fn block_records(blocks: Seq<BlockV>) -> Seq<HxMessageV>
    decreases blocks.len(),
{
    if blocks.len() == 0 {
        seq![]
    } else {
        block_records(blocks.drop_last()) + hxrecord::records(blocks.last().data)
    }
}

/// Messages are ordered by their send time, the newest first; those without one
/// come last.
pub open spec fn newest_first() -> spec_fn(HxMessageV) -> int {
    |m: HxMessageV|
        -(match m.sent_unix {
            Some(t) => t as int,
            None => i64::MIN as int,
        })
}

/// The messages of an HxStore file, the newest first; none where it is no such
/// file.
pub open spec fn recovered(data: Seq<u8>) -> Seq<HxMessageV> {
    if hxstore::header_of(data) is Err {
        seq![]
    } else {
        order::sorted_by(
            hxrecord::distinct_messages(block_records(hxstore::blocks_of(data))),
            newest_first(),
        )
    }
}

/// The id of the `i`-th recovered message.
pub open spec fn hx_id(i: int) -> i64 {
    (HX_ID_BASE - i) as i64
}

/// Recovered messages, each with its id.
pub open spec fn cache_view(cache: Seq<(i64, HxMessage)>) -> Seq<(i64, HxMessageV)> {
    Seq::new(cache.len(), |i: int| (cache[i].0, cache[i].1@))
}

/// Messages numbered downward from the base of the synthetic ids.
pub open spec fn numbered(ms: Seq<HxMessageV>) -> Seq<(i64, HxMessageV)> {
    let n = if ms.len() <= HX_ID_COUNT {
        ms.len()
    } else {
        HX_ID_COUNT as nat
    };
    Seq::new(n, |i: int| (hx_id(i), ms[i]))
}

/// Every send time can be told in microseconds.
pub open spec fn times_told(cache: Seq<(i64, HxMessage)>) -> bool {
    forall|i: int| 0 <= i < cache.len() ==> schema::tellable((#[trigger] cache[i]).1.sent_unix)
}

spec fn sane_times(ms: Seq<HxMessageV>) -> bool {
    forall|i: int|
        0 <= i < ms.len() ==> ((#[trigger] ms[i]).sent_unix matches Some(t) ==> 1_420_070_400 <= t
            < 1_798_761_600)
}

proof fn lemma_deduplicate_keeps_times(records: Seq<HxMessageV>)
    requires
        sane_times(records),
    ensures
        sane_times(hxrecord::distinct_messages(records)),
    decreases records.len(),
{
    if records.len() > 0 {
        let front = records.drop_last();
        assert(forall|i: int| 0 <= i < front.len() ==> front[i] == records[i]);
        lemma_deduplicate_keeps_times(front);
        assert(records.last() == records[records.len() - 1]);
        hxrecord::lemma_position_is_same(
            hxrecord::distinct_messages(front),
            records.last(),
            0,
        );
    }
}

proof fn lemma_block_records_times(blocks: Seq<BlockV>)
    ensures
        sane_times(block_records(blocks)),
    decreases blocks.len(),
{
    if blocks.len() > 0 {
        lemma_block_records_times(blocks.drop_last());
        let blob = blocks.last().data;
        let anchors = hxrecord::anchors_from(blob, 0);
        let more = hxrecord::records(blob);
        assert forall|i: int| 0 <= i < more.len() implies ((
        #[trigger] more[i]).sent_unix matches Some(t) ==> 1_420_070_400 <= t < 1_798_761_600) by {
            let prev = if i == 0 {
                0
            } else {
                anchors[i - 1]
            };
            hxrecord::lemma_send_time_in_range(
                blob.subrange(prev, hxrecord::next_anchor(blob, anchors[i])),
            );
        }
    }
}

proof fn lemma_recovered_times(data: Seq<u8>)
    ensures
        sane_times(recovered(data)),
{
    if hxstore::header_of(data) is Ok {
        let records = block_records(hxstore::blocks_of(data));
        let ms = hxrecord::distinct_messages(records);
        let sorted = order::sorted_by(ms, newest_first());
        lemma_block_records_times(hxstore::blocks_of(data));
        lemma_deduplicate_keeps_times(records);
        order::lemma_sorted_by(ms, newest_first());
        assert forall|i: int| 0 <= i < sorted.len() implies ((
        #[trigger] sorted[i]).sent_unix matches Some(t) ==> 1_420_070_400 <= t < 1_798_761_600) by {
            order::lemma_sorted_by_holds(ms, newest_first(), i);
            let j = choose|j: int| 0 <= j < ms.len() && ms[j] == sorted[i];
            assert(ms[j].sent_unix == sorted[i].sent_unix);
        }
    }
}

fn read_blocks(blocks: &Vec<Block>) -> (r: Vec<HxMessage>)
    requires
        forall|i: int|
            0 <= i < blocks@.len() ==> (#[trigger] blocks@[i]).data@.len()
                <= hxstore::MAX_INFLATED_LEN,
    ensures
        views::views(r@) == block_records(views::views(blocks@)),
{
    let ghost all = views::views(blocks@);
    let mut out: Vec<HxMessage> = Vec::new();
    let mut i: usize = 0;
    assert(all.take(0) =~= seq![]);
    assert(views::views(out@) =~= seq![]);
    while i < blocks.len()
        invariant
            i <= blocks@.len(),
            all == views::views(blocks@),
            forall|k: int|
                0 <= k < blocks@.len() ==> (#[trigger] blocks@[k]).data@.len()
                    <= hxstore::MAX_INFLATED_LEN,
            views::views(out@) == block_records(all.take(i as int)),
        decreases blocks@.len() - i,
    {
        assert(blocks@[i as int].data@.len() <= hxstore::MAX_INFLATED_LEN);
        let mut more: Vec<HxMessage> = hxrecord::extract(blocks[i].data.as_slice());
        let ghost before = views::views(out@);
        let ghost added = views::views(more@);
        out.append(&mut more);
        proof {
            assert(views::views(out@) =~= before + added);
            assert(all.take(i + 1).drop_last() =~= all.take(i as int));
            assert(all.take(i + 1).last() == blocks@[i as int]@);
        }
        i = i + 1;
    }
    assert(all.take(i as int) =~= all);
    out
}

fn sort_key(m: &HxMessage) -> (r: i128)
    ensures
        r == newest_first()(m@),
{
    match m.sent_unix {
        Some(t) => -(t as i128),
        None => -(i64::MIN as i128),
    }
}

fn sort_newest_first(ms: Vec<HxMessage>) -> (r: Vec<HxMessage>)
    ensures
        views::views(r@) == order::sorted_by(views::views(ms@), newest_first()),
{
    let ghost key = |m: HxMessage| newest_first()(m@);
    proof {
        order::lemma_sorted_views(ms@, key, newest_first());
    }
    order::sort_by_key(ms, sort_key, Ghost(key))
}

/// The messages of an `HxStore.hxd` file, numbered. Anything that is no such file
/// holds none: that is the normal state of an account without such a cache, and
/// the empty result is what makes it honest. A torn block fails its checksums and
/// is left out.
pub fn hx_cache(data: &[u8]) -> (r: Vec<(i64, HxMessage)>)
    ensures
        cache_view(r@) == numbered(recovered(data@)),
        times_told(r@),
{
    let mut out: Vec<(i64, HxMessage)> = Vec::new();
    if hxstore::check_header(data).is_err() {
        assert(cache_view(out@) =~= numbered(recovered(data@)));
        return out;
    }
    let blocks: Vec<Block> = hxstore::scan_blocks(data);
    let records: Vec<HxMessage> = read_blocks(&blocks);
    let ghost sorted = recovered(data@);
    let distinct: Vec<HxMessage> = hxrecord::deduplicate(records);
    // Newest first, so a caller reading the folder without its own ordering still
    // sees recent mail before old.
    let messages: Vec<HxMessage> = sort_newest_first(distinct);
    proof {
        lemma_recovered_times(data@);
        assert forall|i: int| 0 <= i < messages@.len() implies schema::tellable(
            (#[trigger] messages@[i]).sent_unix,
        ) by {
            assert(sorted[i] == messages@[i]@);
        }
    }
    let ghost want = numbered(sorted);
    assert(cache_view(out@) =~= want.take(0));
    for m in it: messages
        invariant
            it.seq() == messages@,
            views::views(messages@) == sorted,
            want == numbered(sorted),
            forall|i: int|
                0 <= i < messages@.len() ==> schema::tellable((#[trigger] messages@[i]).sent_unix),
            out@.len() == (if it.index() <= HX_ID_COUNT {
                it.index()
            } else {
                HX_ID_COUNT as int
            }),
            cache_view(out@) == want.take(out@.len() as int),
            times_told(out@),
    {
        let ghost k = it.index();
        assert(m == messages@[k]);
        let n: u64 = out.len() as u64;
        if n < HX_ID_COUNT {
            let id: i64 = HX_ID_BASE - (n as i64);
            let ghost added = (id, m@);
            let ghost before = cache_view(out@);
            assert(sorted[k] == m@);
            out.push((id, m));
            proof {
                assert(cache_view(out@) =~= before.push(added));
                assert(want.take(k + 1) =~= want.take(k).push(want[k]));
            }
        }
    }
    assert(want.take(out@.len() as int) =~= want);
    out
}

/// The recovered messages of a profile, read once: a store is read as it was when
/// it was first asked for.
pub struct HxCache {
    kept: Option<Vec<(i64, HxMessage)>>,
}

impl HxCache {
    #[verifier::type_invariant]
    spec fn inv(self) -> bool {
        self.kept matches Some(v) ==> times_told(v@) && v@.len() <= HX_ID_COUNT
    }

    /// What has been read, if anything has.
    pub closed spec fn held(&self) -> Option<Seq<(i64, HxMessageV)>> {
        match self.kept {
            Some(v) => Some(cache_view(v@)),
            None => None,
        }
    }

    pub fn new() -> (r: HxCache)
        ensures
            r.held() is None,
    {
        HxCache { kept: None }
    }

    /// Keep the messages of a file that holds `data`, or none where there is no
    /// such file. Once anything is kept, nothing changes it.
    pub fn fill(&mut self, data: Option<&[u8]>)
        ensures
            final(self).held() == Some(
                match old(self).held() {
                    Some(kept) => kept,
                    None => match data {
                        Some(d) => numbered(recovered(d@)),
                        None => seq![],
                    },
                },
            ),
    {
        proof {
            use_type_invariant(&*self);
        }
        if self.kept.is_some() {
            return;
        }
        let found: Vec<(i64, HxMessage)> = match data {
            Some(d) => hx_cache(d),
            None => Vec::new(),
        };
        proof {
            assert(cache_view(found@).len() == found@.len());
            if data is None {
                assert(cache_view(found@) =~= seq![]);
            }
        }
        self.kept = Some(found);
    }

    /// The messages, once they have been read.
    pub fn messages(&self) -> (r: Option<&Vec<(i64, HxMessage)>>)
        ensures
            match r {
                Some(v) => self.held() == Some(cache_view(v@)) && times_told(v@) && v@.len()
                    <= HX_ID_COUNT,
                None => self.held() is None,
            },
    {
        proof {
            use_type_invariant(self);
        }
        self.kept.as_ref()
    }
}

/// Recovered messages have ids of their own, below those of any record and no two
/// the same.
pub proof fn lemma_hx_ids_distinct(data: Seq<u8>)
    ensures
        forall|i: int|
            0 <= i < numbered(recovered(data)).len() ==> (#[trigger] numbered(
                recovered(data),
            )[i]).0 == HX_ID_BASE - i,
        forall|i: int, j: int|
            0 <= i < j < numbered(recovered(data)).len() ==> (#[trigger] numbered(
                recovered(data),
            )[i]).0 != (#[trigger] numbered(recovered(data))[j]).0,
{
}

/// Recovered messages come the newest first.
pub proof fn lemma_hx_newest_first(data: Seq<u8>, i: int, j: int)
    requires
        0 <= i < j < recovered(data).len(),
    ensures
        recovered(data)[j].sent_unix matches Some(b) ==> (
        recovered(data)[i].sent_unix matches Some(a) && a >= b),
{
    if hxstore::header_of(data) is Ok {
        let ms = hxrecord::distinct_messages(block_records(hxstore::blocks_of(data)));
        order::lemma_sorted_by(ms, newest_first());
        lemma_recovered_times(data);
        assert(newest_first()(recovered(data)[i]) <= newest_first()(recovered(data)[j]));
    }
}

/// No two recovered messages have the same sender and the same time.
pub proof fn lemma_hx_messages_distinct(data: Seq<u8>)
    ensures
        hxrecord::all_distinct(recovered(data)),
{
    if hxstore::header_of(data) is Ok {
        let records = block_records(hxstore::blocks_of(data));
        let ms = hxrecord::distinct_messages(records);
        let related = |a: HxMessageV, b: HxMessageV| hxrecord::same_message(a, b);
        hxrecord::lemma_deduplicate_separates(records);
        assert forall|i: int, j: int| 0 <= i < ms.len() && 0 <= j < ms.len() && i != j implies !related(
            #[trigger] ms[i],
            #[trigger] ms[j],
        ) by {
            if i < j {
                assert(!hxrecord::same_message(ms[i], ms[j]));
            } else {
                assert(!hxrecord::same_message(ms[j], ms[i]));
            }
        }
        order::lemma_sorting_keeps_apart(ms, newest_first(), related);
        let sorted = recovered(data);
        assert forall|i: int, j: int| 0 <= i < j < sorted.len() implies !hxrecord::same_message(
            #[trigger] sorted[i],
            #[trigger] sorted[j],
        ) by {
            assert(!related(sorted[i], sorted[j]));
        }
    }
}

/// What the cache of recovered messages holds of a file: nothing where the file is
/// no such store; else messages of which no two have the same sender and time,
/// the newest first, under ids that count down.
pub proof fn lemma_hx_cache(data: &[u8], cache: Vec<(i64, HxMessage)>)
    requires
        call_ensures(hx_cache, (data,), cache),
    ensures
        hxstore::header_of(data@) is Err ==> cache@.len() == 0,
        forall|i: int| 0 <= i < cache@.len() ==> (#[trigger] cache@[i]).0 == HX_ID_BASE - i,
        forall|i: int, j: int|
            0 <= i < j < cache@.len() ==> !hxrecord::same_message(
                (#[trigger] cache@[i]).1@,
                (#[trigger] cache@[j]).1@,
            ),
        forall|i: int, j: int|
            0 <= i < j < cache@.len() ==> ((#[trigger] cache@[j]).1.sent_unix matches Some(b) ==> (
            (#[trigger] cache@[i]).1.sent_unix matches Some(a) && a >= b)),
{
    let held = cache_view(cache@);
    let ms = recovered(data@);
    lemma_hx_messages_distinct(data@);
    assert(held == numbered(ms));
    assert(held.len() == cache@.len());
    assert forall|i: int| 0 <= i < cache@.len() implies (#[trigger] cache@[i]).0 == HX_ID_BASE - i
        && cache@[i].1@ == ms[i] && i < ms.len() by {
        assert(held[i] == (cache@[i].0, cache@[i].1@));
    }
    assert forall|i: int, j: int| 0 <= i < j < cache@.len() implies ((
    #[trigger] cache@[j]).1.sent_unix matches Some(b) ==> ((
    #[trigger] cache@[i]).1.sent_unix matches Some(a) && a >= b)) by {
        lemma_hx_newest_first(data@, i, j);
        assert(cache@[i].1@ == ms[i] && cache@[j].1@ == ms[j]);
    }
}

/// A recovered message as it is listed.
pub open spec fn hx_row(id: i64, m: HxMessageV) -> MessageRowV {
    MessageRowV {
        id,
        folder_id: HX_FOLDER_ID,
        subject: m.subject,
        sender_name: m.sender_name,
        sender_email: m.sender_address,
        delivered_us: schema::in_us(m.sent_unix),
        submitted_us: schema::in_us(m.sent_unix),
        modified_us: None,
        size: None,
        unread: None,
        has_attachments: None,
        message_class: Some("IPM.Note"@),
    }
}

fn copy_text(o: &Option<String>) -> (r: Option<String>)
    ensures
        text::opt_text(r) == text::opt_text(*o),
{
    match o {
        Some(s) => Some(s.clone()),
        None => None,
    }
}

/// List a recovered message. Every record recovered here is anchored by the
/// literal class name, so that is no guess.
pub fn hx_message_row(id: i64, m: &HxMessage) -> (r: MessageRow)
    requires
        schema::tellable(m.sent_unix),
    ensures
        r@ == hx_row(id, m@),
{
    MessageRow {
        id,
        folder_id: HX_FOLDER_ID,
        subject: copy_text(&m.subject),
        sender_name: copy_text(&m.sender_name),
        sender_email: copy_text(&m.sender_address),
        delivered_us: schema::to_us(m.sent_unix),
        submitted_us: schema::to_us(m.sent_unix),
        modified_us: None,
        size: None,
        unread: None,
        has_attachments: None,
        message_class: Some("IPM.Note".to_owned()),
    }
}

/// List all recovered messages.
pub fn hx_rows(cache: &Vec<(i64, HxMessage)>) -> (r: Vec<MessageRow>)
    requires
        times_told(cache@),
    ensures
        views::views(r@) == Seq::new(cache@.len(), |i: int| hx_row(cache@[i].0, cache@[i].1@)),
{
    let ghost all = Seq::new(cache@.len(), |i: int| hx_row(cache@[i].0, cache@[i].1@));
    let mut out: Vec<MessageRow> = Vec::new();
    let mut i: usize = 0;
    assert(views::views(out@) =~= all.take(0));
    while i < cache.len()
        invariant
            i <= cache@.len(),
            times_told(cache@),
            all == Seq::new(cache@.len(), |j: int| hx_row(cache@[j].0, cache@[j].1@)),
            views::views(out@) == all.take(i as int),
        decreases cache@.len() - i,
    {
        let entry: &(i64, HxMessage) = &cache[i];
        out.push(hx_message_row(entry.0, &entry.1));
        assert(all.take(i + 1) =~= all.take(i as int).push(all[i as int]));
        i = i + 1;
    }
    assert(all.take(i as int) =~= all);
    out
}

/// The synthetic folder of the recovered messages.
pub open spec fn hx_folder(count: nat) -> FolderV {
    FolderV {
        id: HX_FOLDER_ID,
        parent_id: None,
        name: Some("Recovered Mail (Hx cache)"@),
        path: "/Recovered Mail (Hx cache)"@,
        item_count: Some(count as i64),
        unread_count: None,
        has_subfolders: false,
        is_search_folder: false,
    }
}

/// The folders of a profile: those of the database, and the synthetic one only
/// when there is something to show. An account without recovered messages does
/// not gain an empty folder that implies some exist.
pub fn profile_folders(folders: Vec<Folder>, cache: &Vec<(i64, HxMessage)>) -> (r: Vec<Folder>)
    requires
        cache@.len() <= HX_ID_COUNT,
    ensures
        views::views(r@) == (if cache@.len() == 0 {
            views::views(folders@)
        } else {
            views::views(folders@).push(hx_folder(cache@.len()))
        }),
{
    let mut out: Vec<Folder> = folders;
    if cache.len() > 0 {
        out.push(
            Folder {
                id: HX_FOLDER_ID,
                parent_id: None,
                name: Some("Recovered Mail (Hx cache)".to_owned()),
                path: "/Recovered Mail (Hx cache)".to_owned(),
                item_count: Some(cache.len() as i64),
                unread_count: None,
                has_subfolders: false,
                is_search_folder: false,
            },
        );
    }
    out
}

/// The message with this id from position `i` on.
pub open spec fn cached_from(cache: Seq<(i64, HxMessage)>, id: i64, i: int) -> Option<HxMessageV>
    decreases cache.len() - i,
{
    if i < 0 || i >= cache.len() {
        None
    } else if cache[i].0 == id {
        Some(cache[i].1@)
    } else {
        cached_from(cache, id, i + 1)
    }
}

/// A recovered message in full. Its preview is shown only when there is no full
/// HTML copy: the preview is a truncated summary of the same content.
pub open spec fn hx_full(id: i64, m: HxMessageV) -> MessageV {
    MessageV {
        id,
        subject: m.subject,
        sender_name: m.sender_name,
        sender_email: m.sender_address,
        display_to: None,
        display_cc: None,
        display_bcc: None,
        delivered_us: schema::in_us(m.sent_unix),
        submitted_us: schema::in_us(m.sent_unix),
        modified_us: None,
        size: None,
        unread: None,
        message_class: Some("IPM.Note"@),
        internet_message_id: m.internet_message_id,
        conversation_topic: None,
        body_plain: if m.html is None {
            m.preview
        } else {
            None
        },
        body_html: m.html,
        body_rtf: None,
        recipients: seq![],
        attachments: seq![],
    }
}

/// A recovered message in full, by its id.
pub fn hx_message(cache: &Vec<(i64, HxMessage)>, id: i64) -> (r: Result<Message, Error>)
    requires
        times_told(cache@),
    ensures
        match r {
            Ok(m) => cached_from(cache@, id, 0) matches Some(h) && m@ == hx_full(id, h),
            Err(e) => cached_from(cache@, id, 0) is None && e@ == ErrorV::NotFound(
                "no Hx-cached message with id "@ + text::signed(id as int),
            ),
        },
{
    let mut i: usize = 0;
    while i < cache.len()
        invariant
            i <= cache@.len(),
            times_told(cache@),
            cached_from(cache@, id, i as int) == cached_from(cache@, id, 0),
        decreases cache@.len() - i,
    {
        let entry: &(i64, HxMessage) = &cache[i];
        if entry.0 == id {
            let m: &HxMessage = &entry.1;
            assert(schema::tellable(cache@[i as int].1.sent_unix));
            let message: Message = Message {
                id,
                subject: copy_text(&m.subject),
                sender_name: copy_text(&m.sender_name),
                sender_email: copy_text(&m.sender_address),
                display_to: None,
                display_cc: None,
                display_bcc: None,
                delivered_us: schema::to_us(m.sent_unix),
                submitted_us: schema::to_us(m.sent_unix),
                modified_us: None,
                size: None,
                unread: None,
                message_class: Some("IPM.Note".to_owned()),
                internet_message_id: copy_text(&m.internet_message_id),
                conversation_topic: None,
                body_plain: if m.html.is_none() {
                    copy_text(&m.preview)
                } else {
                    None
                },
                body_html: copy_text(&m.html),
                body_rtf: None,
                recipients: Vec::new(),
                attachments: Vec::new(),
            };
            proof {
                assert(message@.recipients =~= seq![]);
                assert(message@.attachments =~= seq![]);
            }
            return Ok(message);
        }
        i = i + 1;
    }
    Err(
        Error::NotFound(
            text::cat2("no Hx-cached message with id ", text::signed_string(id).as_str()),
        ),
    )
}

proof fn lemma_cached_at(cache: Seq<(i64, HxMessage)>, i: int, from: int)
    requires
        0 <= from <= i < cache.len(),
        forall|a: int, b: int|
            0 <= a < b < cache.len() ==> (#[trigger] cache[a]).0 != (#[trigger] cache[b]).0,
    ensures
        cached_from(cache, cache[i].0, from) == Some(cache[i].1@),
    decreases i - from,
{
    if from < i {
        lemma_cached_at(cache, i, from + 1);
    }
}

/// The id under which a recovered message is listed opens that message, and what
/// the list says of it is what the message says.
pub proof fn lemma_listed_hx_message_opens(cache: Seq<(i64, HxMessage)>, i: int)
    requires
        0 <= i < cache.len(),
        forall|a: int, b: int|
            0 <= a < b < cache.len() ==> (#[trigger] cache[a]).0 != (#[trigger] cache[b]).0,
    ensures
        ({
            let row = hx_row(cache[i].0, cache[i].1@);
            &&& cached_from(cache, row.id, 0) matches Some(m) && {
                let full = hx_full(row.id, m);
                &&& full.id == row.id
                &&& full.subject == row.subject
                &&& full.sender_name == row.sender_name
                &&& full.sender_email == row.sender_email
                &&& full.delivered_us == row.delivered_us
                &&& full.submitted_us == row.submitted_us
                &&& full.message_class == row.message_class
            }
        }),
{
    lemma_cached_at(cache, i, 0);
}

/// The three bodies that a message file gives: plain, HTML and RTF. A calendar
/// reads fine as plain text.
pub open spec fn bodies(data: Option<Seq<u8>>) -> (
    Option<Seq<char>>,
    Option<Seq<char>>,
    Option<Seq<char>>,
) {
    match data {
        None => (None, None, None),
        Some(d) => match olk15::message_body(d) {
            None => (None, None, None),
            Some(b) => match b.kind {
                BodyKind::Html => (None, Some(b.text), None),
                BodyKind::Rtf => (None, None, Some(b.text)),
                _ => (Some(b.text), None, None),
            },
        },
    }
}

/// A message of the database in full. Recipients are not told: the table holds
/// flat address lists of an unknown form.
pub open spec fn classic_full(
    row: MessageRowV,
    topic: Option<Seq<char>>,
    data: Option<Seq<u8>>,
    attachments: Seq<AttachmentV>,
) -> MessageV {
    let (body_plain, body_html, body_rtf) = bodies(data);
    MessageV {
        id: row.id,
        subject: row.subject,
        sender_name: row.sender_name,
        sender_email: row.sender_email,
        display_to: None,
        display_cc: None,
        display_bcc: None,
        delivered_us: row.delivered_us,
        submitted_us: row.submitted_us,
        modified_us: row.modified_us,
        size: row.size,
        unread: row.unread,
        message_class: row.message_class,
        internet_message_id: None,
        conversation_topic: topic,
        body_plain,
        body_html,
        body_rtf,
        recipients: seq![],
        attachments,
    }
}

/// A message of the database in full: its record, the contents of its body file
/// if that could be read, and its attachments.
pub fn classic_message(mail: RawMail, data: Option<Vec<u8>>, attachments: Vec<Attachment>) -> (r:
    Message)
    ensures
        r@ == classic_full(
            mail.row@,
            text::opt_text(mail.conversation_topic),
            crate::bytes::opt_bytes(data),
            views::views(attachments@),
        ),
{
    let mut body_plain: Option<String> = None;
    let mut body_html: Option<String> = None;
    let mut body_rtf: Option<String> = None;
    if let Some(d) = &data {
        if let Some(body) = olk15::parse_message(d.as_slice()) {
            match body.kind {
                BodyKind::Html => {
                    body_html = Some(body.text);
                },
                BodyKind::Rtf => {
                    body_rtf = Some(body.text);
                },
                _ => {
                    body_plain = Some(body.text);
                },
            }
        }
    }
    let row: MessageRow = mail.row;
    let message: Message = Message {
        id: row.id,
        subject: row.subject,
        sender_name: row.sender_name,
        sender_email: row.sender_email,
        display_to: None,
        display_cc: None,
        display_bcc: None,
        delivered_us: row.delivered_us,
        submitted_us: row.submitted_us,
        modified_us: row.modified_us,
        size: row.size,
        unread: row.unread,
        message_class: row.message_class,
        internet_message_id: None,
        conversation_topic: mail.conversation_topic,
        body_plain,
        body_html,
        body_rtf,
        recipients: Vec::new(),
        attachments,
    };
    assert(message@.recipients =~= seq![]);
    message
}

/// Whether a message id is one of a recovered message.
pub fn is_hx_message(id: i64) -> (r: bool)
    ensures
        r == (id <= HX_ID_BASE),
{
    id <= HX_ID_BASE
}

/// Whether a folder id is that of the recovered messages.
pub fn is_hx_folder(id: i64) -> (r: bool)
    ensures
        r == (id == HX_FOLDER_ID),
{
    id == HX_FOLDER_ID
}

/// An attachment as it is listed: what its file says of it, if that could be read
/// and made sense of.
pub open spec fn listed_attachment(b: LinkedBlockV, data: Option<Seq<u8>>) -> AttachmentV {
    let (filename, mime) = match data {
        Some(d) => match olk15::metadata_of(d) {
            Ok(pair) => pair,
            Err(_) => (None, None),
        },
        None => (None, None),
    };
    AttachmentV {
        id: b.id,
        filename,
        mime,
        content_id: None,
        declared_size: None,
        data_len: None,
    }
}

/// List the attachment of a linked block, whose file holds `data`.
pub fn attachment_entry(block: &LinkedBlock, data: Option<Vec<u8>>) -> (r: Attachment)
    ensures
        r@ == listed_attachment(block@, crate::bytes::opt_bytes(data)),
{
    let (filename, mime) = match &data {
        Some(d) => match olk15::attachment_metadata(d.as_slice()) {
            Ok(pair) => pair,
            Err(_) => (None, None),
        },
        None => (None, None),
    };
    Attachment {
        id: block.id,
        filename,
        mime,
        content_id: None,
        declared_size: None,
        data_len: None,
    }
}

/// The error for the attachments of a recovered message.
pub open spec fn no_linkage(message_id: i64) -> ErrorV {
    ErrorV::NotFound(
        "message "@ + text::signed(message_id as int)
            + " was recovered from HxStore.hxd, which carries no attachment linkage (docs/mac-outlook-format.md §2.8)"@,
    )
}

/// The first block with this id from position `i` on.
pub open spec fn block_from(blocks: Seq<LinkedBlockV>, id: i64, i: int) -> Option<LinkedBlockV>
    decreases blocks.len() - i,
{
    if i < 0 || i >= blocks.len() {
        None
    } else if blocks[i].id == id {
        Some(blocks[i])
    } else {
        block_from(blocks, id, i + 1)
    }
}

/// The attachments of a message as they are listed: none of a recovered message,
/// else one for each block linked to it.
pub open spec fn attachment_list(
    message_id: i64,
    linked: Seq<(LinkedBlock, Option<Vec<u8>>)>,
) -> Seq<AttachmentV> {
    if message_id <= HX_ID_BASE {
        seq![]
    } else {
        Seq::new(
            linked.len(),
            |i: int| listed_attachment(linked[i].0@, crate::bytes::opt_bytes(linked[i].1)),
        )
    }
}

/// List the attachments of a message, given the blocks linked to it and what their
/// files hold.
pub fn attachments(message_id: i64, linked: Vec<(LinkedBlock, Option<Vec<u8>>)>) -> (r: Vec<
    Attachment,
>)
    ensures
        views::views(r@) == attachment_list(message_id, linked@),
        message_id <= HX_ID_BASE ==> r@.len() == 0,
{
    broadcast use views::lemma_views_push;

    let ghost want = attachment_list(message_id, linked@);
    let mut out: Vec<Attachment> = Vec::new();
    assert(views::views(out@) =~= want.take(0));
    if message_id <= HX_ID_BASE {
        assert(views::views(out@) =~= want);
        return out;
    }
    for pair in it: linked
        invariant
            message_id > HX_ID_BASE,
            it.seq() == linked@,
            want == attachment_list(message_id, linked@),
            views::views(out@) == want.take(it.index()),
    {
        let ghost k = it.index();
        assert(want[k] == listed_attachment(pair.0@, crate::bytes::opt_bytes(pair.1)));
        assert(want.take(k + 1) =~= want.take(k).push(want[k]));
        out.push(attachment_entry(&pair.0, pair.1));
    }
    assert(want.take(want.len() as int) =~= want);
    out
}

/// The error for an attachment that is none of the message's.
pub open spec fn not_linked(message_id: i64, attachment_id: i64) -> ErrorV {
    ErrorV::NotFound(
        "attachment "@ + text::signed(attachment_id as int) + " is not linked to message "@
            + text::signed(message_id as int),
    )
}

/// The data file of an attachment, among the blocks linked to its message.
pub fn attachment_file(blocks: &Vec<LinkedBlock>, message_id: i64, attachment_id: i64) -> (r:
    Result<String, Error>)
    ensures
        match r {
            Ok(path) => block_from(views::views(blocks@), attachment_id, 0) matches Some(b) && path@
                == b.path_to_data_file,
            Err(e) => block_from(views::views(blocks@), attachment_id, 0) is None && e@
                == not_linked(message_id, attachment_id),
        },
{
    let mut i: usize = 0;
    while i < blocks.len()
        invariant
            i <= blocks@.len(),
            block_from(views::views(blocks@), attachment_id, i as int) == block_from(
                views::views(blocks@),
                attachment_id,
                0,
            ),
        decreases blocks@.len() - i,
    {
        assert(views::views(blocks@)[i as int] == blocks@[i as int]@);
        if blocks[i].id == attachment_id {
            return Ok(blocks[i].path_to_data_file.clone());
        }
        i = i + 1;
    }
    let head: String = text::cat3(
        "attachment ",
        text::signed_string(attachment_id).as_str(),
        " is not linked to message ",
    );
    Err(Error::NotFound(text::cat2(head.as_str(), text::signed_string(message_id).as_str())))
}

/// What reading the payload of an attachment file gives.
pub open spec fn is_payload(data: Seq<u8>, r: Result<Vec<u8>, Error>) -> bool {
    match olk15::headers_end(data) {
        Err(e) => r matches Err(f) && f@ == e,
        Ok(p) => match r {
            Ok(b) => b64::stands_for(olk15::payload_from(data, p + 2), b@),
            Err(e) => e@ == ErrorV::Format("olk15MsgAttachment: invalid base64"@) && forall|
                b: Seq<u8>,
            |
                !#[trigger] b64::stands_for(olk15::payload_from(data, p + 2), b),
        },
    }
}

/// The payload of an attachment file.
pub fn attachment_payload(data: &[u8]) -> (r: Result<Vec<u8>, Error>)
    ensures
        is_payload(data@, r),
{
    match olk15::parse_attachment(data) {
        Ok(a) => Ok(a.bytes),
        Err(e) => Err(e),
    }
}

/// The bytes of an attachment, given the blocks linked to its message and what
/// reading its file, if it has one among them, gave. A recovered message has no
/// attachments to give, whichever is asked for.
pub fn attachment_bytes(
    message_id: i64,
    attachment_id: i64,
    blocks: &Vec<LinkedBlock>,
    data: Result<Vec<u8>, Error>,
) -> (r: Result<Vec<u8>, Error>)
    ensures
        message_id <= HX_ID_BASE ==> (r matches Err(e) && e@ == no_linkage(message_id)),
        message_id > HX_ID_BASE ==> match block_from(views::views(blocks@), attachment_id, 0) {
            None => r matches Err(e) && e@ == not_linked(message_id, attachment_id),
            Some(_) => match data {
                Err(e) => r == Err::<Vec<u8>, Error>(e),
                Ok(d) => is_payload(d@, r),
            },
        },
{
    if message_id <= HX_ID_BASE {
        return Err(
            Error::NotFound(
                text::cat3(
                    "message ",
                    text::signed_string(message_id).as_str(),
                    " was recovered from HxStore.hxd, which carries no attachment linkage (docs/mac-outlook-format.md §2.8)",
                ),
            ),
        );
    }
    match attachment_file(blocks, message_id, attachment_id) {
        Err(e) => Err(e),
        Ok(_) => match data {
            Err(e) => Err(e),
            Ok(d) => attachment_payload(d.as_slice()),
        },
    }
}

/// A recovered message lists no attachments, and every request for one of them is
/// answered that there is no such thing.
pub proof fn lemma_recovered_has_no_attachments(
    message_id: i64,
    linked: Vec<(LinkedBlock, Option<Vec<u8>>)>,
    listed: Vec<Attachment>,
    attachment_id: i64,
    blocks: &Vec<LinkedBlock>,
    data: Result<Vec<u8>, Error>,
    answer: Result<Vec<u8>, Error>,
)
    requires
        message_id <= HX_ID_BASE,
        call_ensures(attachments, (message_id, linked), listed),
        call_ensures(attachment_bytes, (message_id, attachment_id, blocks, data), answer),
    ensures
        listed@.len() == 0,
        answer matches Err(e) && e@ is NotFound,
{
}

} // verus!
