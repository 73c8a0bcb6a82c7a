//! Extracting `IPM.Note` message records from a decompressed `HxStore.hxd`
//! block.
//!
//! A record is not a fixed struct: metadata is a sequence of NUL-terminated
//! UTF-16LE strings around the literal `"IPM.Note"` anchor, at byte offsets that
//! drift with every field's length, so a slot is identified by its *position in
//! the sequence*, confirmed by a type check, never by a fixed displacement.

use vstd::prelude::*;
use crate::bytes;
use crate::mac_outlook::classify;
use crate::search;
use crate::text;
use crate::views;

verus! {

/// One message recovered from the store. Every field is optional because the
/// store is a lossy cache.
#[derive(Debug, Clone)]
pub struct HxMessage {
    pub sender_address: Option<String>,
    pub sender_name: Option<String>,
    pub internet_message_id: Option<String>,
    pub subject: Option<String>,
    /// Outlook's own cached summary, capped at roughly 255 characters: the entire
    /// content the store holds for most messages.
    pub preview: Option<String>,
    /// The full HTML body, when this message is one of the minority the store
    /// keeps a complete copy of.
    pub html: Option<String>,
    pub sent_unix: Option<i64>,
}

/// A recovered message with its texts as sequences of characters.
pub struct HxMessageV {
    pub sender_address: Option<Seq<char>>,
    pub sender_name: Option<Seq<char>>,
    pub internet_message_id: Option<Seq<char>>,
    pub subject: Option<Seq<char>>,
    pub preview: Option<Seq<char>>,
    pub html: Option<Seq<char>>,
    pub sent_unix: Option<i64>,
}

impl View for HxMessage {
    type V = HxMessageV;

    open spec fn view(&self) -> HxMessageV {
        HxMessageV {
            sender_address: text::opt_text(self.sender_address),
            sender_name: text::opt_text(self.sender_name),
            internet_message_id: text::opt_text(self.internet_message_id),
            subject: text::opt_text(self.subject),
            preview: text::opt_text(self.preview),
            html: text::opt_text(self.html),
            sent_unix: self.sent_unix,
        }
    }
}

impl Default for HxMessage {
    fn default() -> (r: HxMessage)
        ensures
            r@ == (HxMessageV {
                sender_address: None,
                sender_name: None,
                internet_message_id: None,
                subject: None,
                preview: None,
                html: None,
                sent_unix: None,
            }),
    {
        HxMessage {
            sender_address: None,
            sender_name: None,
            internet_message_id: None,
            subject: None,
            preview: None,
            html: None,
            sent_unix: None,
        }
    }
}

/// A record's sender pair sits within this many bytes of the anchor; a match
/// further in front of it belongs to a neighbouring record, not this one.
pub const SENDER_MAX_DIST: isize = 320;

/// A display name sits within this many bytes of the address it belongs to.
pub const NAME_MAX_DIST: isize = 200;

/// A subject candidate this far past the anchor is body text, not a header
/// field.
pub const SUBJECT_MAX_REL: isize = 4096;

/// `IPM.Note` as it stands in a block: UTF-16LE.
pub open spec fn anchor_bytes() -> Seq<u8> {
    seq![
        0x49u8, 0, 0x50, 0, 0x4D, 0, 0x2E, 0, 0x4E, 0, 0x6F, 0, 0x74, 0, 0x65, 0,
    ]
}

fn anchor_needle() -> (r: Vec<u8>)
    ensures
        r@ == anchor_bytes(),
{
    vec![0x49u8, 0, 0x50, 0, 0x4D, 0, 0x2E, 0, 0x4E, 0, 0x6F, 0, 0x74, 0, 0x65, 0]
}

/// One run of text, with its byte offset relative to an anchor.
#[derive(Debug, Clone)]
pub struct Field {
    pub rel: isize,
    pub text: Vec<char>,
}

/// A field with its text as a sequence of characters.
pub struct FieldV {
    pub rel: int,
    pub text: Seq<char>,
}

impl View for Field {
    type V = FieldV;

    open spec fn view(&self) -> FieldV {
        FieldV { rel: self.rel as int, text: self.text@ }
    }
}

/// A printable ASCII character in UTF-16LE.
pub open spec fn ascii_pair(blob: Seq<u8>, i: int) -> bool {
    blob[i + 1] == 0 && 0x20 <= blob[i] < 0x7F
}

/// The character of a text run at `i` and how many bytes it takes, if there is
/// one that ends at or before `hi`.
pub open spec fn run_char(blob: Seq<u8>, i: int, hi: int) -> Option<(char, int)> {
    let u = bytes::le16(blob, i);
    let low = bytes::le16(blob, i + 2);
    if i + 1 >= hi {
        None
    } else if ascii_pair(blob, i) {
        Some((blob[i] as char, 2))
    } else if 0xA0 <= u < 0xD800 || 0xE000 <= u < 0xFFFD {
        Some((u as char, 2))
    } else if 0xD800 <= u < 0xDC00 && i + 3 < hi && 0xDC00 <= low < 0xE000 {
        Some(((0x1_0000 + (u - 0xD800) * 0x400 + (low - 0xDC00)) as char, 4))
    } else {
        None
    }
}

/// The text run at `i`, and the offset just past it.
pub open spec fn run(blob: Seq<u8>, i: int, hi: int) -> (Seq<char>, int)
    decreases hi - i,
{
    match run_char(blob, i, hi) {
        None => (seq![], i),
        Some((c, w)) => {
            let (rest, end) = run(blob, i + w, hi);
            (seq![c] + rest, end)
        },
    }
}

/// A run never ends before it starts, nor past the bound.
pub proof fn lemma_run_end(blob: Seq<u8>, i: int, hi: int)
    ensures
        i <= run(blob, i, hi).1,
        run_char(blob, i, hi) is Some ==> i < run(blob, i, hi).1,
        i <= hi ==> run(blob, i, hi).1 <= hi,
    decreases hi - i,
{
    match run_char(blob, i, hi) {
        None => {},
        Some((c, w)) => lemma_run_end(blob, i + w, hi),
    }
}

/// The text runs of `blob[i..hi]`: each begins with a printable ASCII character,
/// has at least three characters and is not binary.
pub open spec fn fields(blob: Seq<u8>, anchor: int, i: int, hi: int) -> Seq<FieldV>
    decreases hi - i,
{
    if i + 1 >= hi {
        seq![]
    } else if !ascii_pair(blob, i) {
        fields(blob, anchor, i + 1, hi)
    } else {
        let (s, end) = run(blob, i, hi);
        proof {
            lemma_run_end(blob, i, hi);
        }
        let rest = fields(blob, anchor, end, hi);
        if s.len() >= 3 && !classify::binary_run(s) {
            seq![FieldV { rel: i - anchor, text: s }] + rest
        } else {
            rest
        }
    }
}

fn read_run_char(blob: &[u8], i: usize, hi: usize) -> (r: Option<(char, usize)>)
    requires
        i <= hi <= blob@.len(),
    ensures
        match run_char(blob@, i as int, hi as int) {
            Some((c, w)) => r == Some((c, w as usize)) && (w == 2 || w == 4) && i + w <= hi,
            None => r is None,
        },
{
    if hi - i < 2 {
        return None;
    }
    if blob[i + 1] == 0 && 0x20 <= blob[i] && blob[i] < 0x7F {
        return Some((blob[i] as char, 2));
    }
    let u: u32 = bytes::u16le(blob, i) as u32;
    if (0xA0 <= u && u < 0xD800) || (0xE000 <= u && u < 0xFFFD) {
        return match char::from_u32(u) {
            Some(c) => Some((c, 2)),
            None => None,
        };
    }
    if 0xD800 <= u && u < 0xDC00 && hi - i >= 4 {
        let low: u32 = bytes::u16le(blob, i + 2) as u32;
        if 0xDC00 <= low && low < 0xE000 {
            return match char::from_u32(0x1_0000 + (u - 0xD800) * 0x400 + (low - 0xDC00)) {
                Some(c) => Some((c, 4)),
                None => None,
            };
        }
    }
    None
}

/// Walk UTF-16LE runs in `blob[lo..upto]`, as far as the block goes, tagging each
/// with its offset relative to `anchor`.
///
/// A run must decode entirely as printable ASCII, Latin-1/Extended, general
/// punctuation, currency symbols or emoji: this store's real text is Latin
/// script, so a run with a meaningful share of anything else is binary that
/// happened to decode without error, not a value.
fn walk_fields(blob: &[u8], anchor: usize, lo: usize, upto: usize) -> (r: Vec<Field>)
    requires
        anchor <= blob@.len() <= isize::MAX,
    ensures
        views::views(r@) == fields(
            blob@,
            anchor as int,
            lo as int,
            if upto < blob@.len() {
                upto as int
            } else {
                blob@.len() as int
            },
        ),
{
    broadcast use views::lemma_views_push;

    let hi: usize = if upto < blob.len() {
        upto
    } else {
        blob.len()
    };
    let mut out: Vec<Field> = Vec::new();
    let mut i: usize = lo;
    let ghost all = fields(blob@, anchor as int, lo as int, hi as int);
    assert(views::views(out@) =~= seq![]);
    assert(seq![] + all =~= all);
    while i < hi && hi - i >= 2
        invariant
            anchor <= blob@.len() <= isize::MAX,
            hi <= blob@.len(),
            i <= hi || i == lo,
            views::views(out@) + fields(blob@, anchor as int, i as int, hi as int) == all,
        decreases hi - i,
    {
        if blob[i + 1] != 0 || !(0x20 <= blob[i] && blob[i] < 0x7F) {
            i = i + 1;
            continue;
        }
        let start: usize = i;
        let ghost whole = run(blob@, start as int, hi as int);
        proof {
            lemma_run_end(blob@, start as int, hi as int);
        }
        let mut s: Vec<char> = Vec::new();
        let mut going: bool = true;
        assert((s@ + whole.0, whole.1) == whole) by {
            assert(s@ + whole.0 =~= whole.0);
        }
        while going
            invariant
                start <= i <= hi <= blob@.len(),
                whole == run(blob@, start as int, hi as int),
                going ==> (s@ + run(blob@, i as int, hi as int).0, run(
                    blob@,
                    i as int,
                    hi as int,
                ).1) == whole,
                !going ==> (s@, i as int) == whole,
            decreases hi - i, going as int,
        {
            match read_run_char(blob, i, hi) {
                Some((c, w)) => {
                    proof {
                        let rest = run(blob@, i + w, hi as int).0;
                        assert(s@ + (seq![c] + rest) =~= s@.push(c) + rest);
                    }
                    s.push(c);
                    i = i + w;
                },
                None => {
                    assert(s@ + run(blob@, i as int, hi as int).0 =~= s@);
                    going = false;
                },
            }
        }
        let ghost before = views::views(out@);
        let ghost rest = fields(blob@, anchor as int, i as int, hi as int);
        if s.len() >= 3 && !classify::is_binary_chars(s.as_slice()) {
            let field: Field = Field { rel: start as isize - anchor as isize, text: s };
            proof {
                assert(before + (seq![field@] + rest) =~= before.push(field@) + rest);
            }
            out.push(field);
        }
    }
    assert(views::views(out@) + fields(blob@, anchor as int, i as int, hi as int) =~= views::views(
        out@,
    ));
    out
}

/// The text of a field as it is read: trimmed, and once where it stands twice.
pub open spec fn value(f: FieldV) -> Seq<char> {
    classify::undoubled(text::trimmed(f.text))
}

fn field_value(f: &Field) -> (r: Vec<char>)
    ensures
        r@ == value(f@),
{
    classify::undouble(text::trim(f.text.as_slice()))
}

/// Whether a field is an address.
pub open spec fn is_address(f: FieldV) -> bool {
    classify::email_shaped(text::trimmed(f.text))
}

fn field_is_address(f: &Field) -> (r: bool)
    ensures
        r == is_address(f@),
{
    classify::is_email_chars(text::trim(f.text.as_slice()))
}

/// Whether a field reads as the display name that belongs to an address at `rel`.
pub open spec fn is_name_at(f: FieldV, rel: int) -> bool {
    f.rel != rel && -NAME_MAX_DIST <= f.rel - rel <= NAME_MAX_DIST && classify::person(value(f))
}

/// The first display name from position `i` on that belongs to an address at
/// `rel`.
pub open spec fn first_name(fs: Seq<FieldV>, rel: int, i: int) -> Option<Seq<char>>
    decreases fs.len() - i,
{
    if i < 0 || i >= fs.len() {
        None
    } else if is_name_at(fs[i], rel) {
        Some(value(fs[i]))
    } else {
        first_name(fs, rel, i + 1)
    }
}

/// The last display name that belongs to an address at `rel`.
pub open spec fn last_name(fs: Seq<FieldV>, rel: int) -> Option<Seq<char>>
    decreases fs.len(),
{
    if fs.len() == 0 {
        None
    } else if is_name_at(fs.last(), rel) {
        Some(value(fs.last()))
    } else {
        last_name(fs.drop_last(), rel)
    }
}

fn name_at(f: &Field, rel: isize) -> (r: Option<String>)
    ensures
        match r {
            Some(s) => is_name_at(f@, rel as int) && s@ == value(f@),
            None => !is_name_at(f@, rel as int),
        },
{
    let dist: i128 = f.rel as i128 - rel as i128;
    if dist == 0 || dist < -(NAME_MAX_DIST as i128) || dist > NAME_MAX_DIST as i128 {
        return None;
    }
    let v: Vec<char> = field_value(f);
    if classify::looks_like_person(v.as_slice()) {
        Some(text::string_of(v.as_slice()))
    } else {
        None
    }
}

fn find_first_name(fs: &Vec<Field>, rel: isize) -> (r: Option<String>)
    ensures
        text::opt_text(r) == first_name(views::views(fs@), rel as int, 0),
{
    let mut i: usize = 0;
    while i < fs.len()
        invariant
            i <= fs@.len(),
            first_name(views::views(fs@), rel as int, i as int) == first_name(
                views::views(fs@),
                rel as int,
                0,
            ),
        decreases fs@.len() - i,
    {
        assert(views::views(fs@)[i as int] == fs@[i as int]@);
        if let Some(s) = name_at(&fs[i], rel) {
            return Some(s);
        }
        i = i + 1;
    }
    None
}

fn find_last_name(fs: &Vec<Field>, rel: isize) -> (r: Option<String>)
    ensures
        text::opt_text(r) == last_name(views::views(fs@), rel as int),
{
    let ghost all = views::views(fs@);
    let mut i: usize = fs.len();
    assert(all.take(i as int) =~= all);
    while i > 0
        invariant
            i <= fs@.len(),
            all == views::views(fs@),
            last_name(all.take(i as int), rel as int) == last_name(all, rel as int),
        decreases i,
    {
        assert(all.take(i as int).last() == fs@[i - 1]@);
        assert(all.take(i as int).drop_last() =~= all.take(i - 1));
        if let Some(s) = name_at(&fs[i - 1], rel) {
            return Some(s);
        }
        i = i - 1;
    }
    None
}

/// The last address close enough to the anchor to belong to this record.
pub open spec fn near_address(fs: Seq<FieldV>) -> Option<FieldV>
    decreases fs.len(),
{
    if fs.len() == 0 {
        None
    } else if -SENDER_MAX_DIST <= fs.last().rel <= SENDER_MAX_DIST && is_address(fs.last()) {
        Some(fs.last())
    } else {
        near_address(fs.drop_last())
    }
}

/// The addresses among the fields.
pub open spec fn addresses(fs: Seq<FieldV>) -> Seq<FieldV>
    decreases fs.len(),
{
    if fs.len() == 0 {
        seq![]
    } else if is_address(fs.last()) {
        addresses(fs.drop_last()).push(fs.last())
    } else {
        addresses(fs.drop_last())
    }
}

/// The address of a field, as it is reported.
pub open spec fn address_of(f: FieldV) -> Seq<char> {
    text::ascii_lowered(value(f))
}

fn read_address(f: &Field) -> (r: String)
    ensures
        r@ == address_of(f@),
{
    text::string_of(text::to_ascii_lower(field_value(f).as_slice()).as_slice())
}

/// The sender's address and name. An address in front of the anchor is trusted;
/// one behind it only when it is the only one there.
pub open spec fn sender(before: Seq<FieldV>, after: Seq<FieldV>) -> (
    Option<Seq<char>>,
    Option<Seq<char>>,
) {
    match near_address(before) {
        Some(f) => (
            Some(address_of(f)),
            match last_name(before, f.rel) {
                Some(name) => Some(name),
                None => first_name(after, f.rel, 0),
            },
        ),
        None => if addresses(after).len() == 1 {
            (
                Some(address_of(addresses(after)[0])),
                first_name(after, addresses(after)[0].rel, 0),
            )
        } else {
            (None, None)
        },
    }
}

/// Where there is more than one address behind the anchor and none close in front
/// of it, nothing says which is the sender's, and none is reported.
pub proof fn lemma_ambiguous_sender_is_none(before: Seq<FieldV>, after: Seq<FieldV>)
    requires
        near_address(before) is None,
        addresses(after).len() != 1,
    ensures
        sender(before, after) == (None::<Seq<char>>, None::<Seq<char>>),
{
}

fn find_near_address(fs: &Vec<Field>) -> (r: Option<usize>)
    ensures
        match r {
            Some(i) => i < fs@.len() && near_address(views::views(fs@)) == Some(fs@[i as int]@),
            None => near_address(views::views(fs@)) is None,
        },
{
    let ghost all = views::views(fs@);
    let mut i: usize = fs.len();
    assert(all.take(i as int) =~= all);
    while i > 0
        invariant
            i <= fs@.len(),
            all == views::views(fs@),
            near_address(all.take(i as int)) == near_address(all),
        decreases i,
    {
        assert(all.take(i as int).last() == fs@[i - 1]@);
        assert(all.take(i as int).drop_last() =~= all.take(i - 1));
        let f: &Field = &fs[i - 1];
        if -SENDER_MAX_DIST <= f.rel && f.rel <= SENDER_MAX_DIST && field_is_address(f) {
            return Some(i - 1);
        }
        i = i - 1;
    }
    None
}

fn find_addresses(fs: &Vec<Field>) -> (r: Vec<usize>)
    ensures
        r@.len() == addresses(views::views(fs@)).len(),
        forall|k: int|
            0 <= k < r@.len() ==> (#[trigger] r@[k]) < fs@.len() && fs@[r@[k] as int]@ == addresses(
                views::views(fs@),
            )[k],
{
    let ghost all = views::views(fs@);
    let mut out: Vec<usize> = Vec::new();
    let mut i: usize = 0;
    assert(all.take(0) =~= seq![]);
    while i < fs.len()
        invariant
            i <= fs@.len(),
            all == views::views(fs@),
            out@.len() == addresses(all.take(i as int)).len(),
            forall|k: int|
                0 <= k < out@.len() ==> (#[trigger] out@[k]) < fs@.len() && fs@[out@[k] as int]@
                    == addresses(all.take(i as int))[k],
        decreases fs@.len() - i,
    {
        assert(all.take(i + 1).last() == fs@[i as int]@);
        assert(all.take(i + 1).drop_last() =~= all.take(i as int));
        if field_is_address(&fs[i]) {
            out.push(i);
        }
        i = i + 1;
    }
    assert(all.take(i as int) =~= all);
    out
}

/// The sender address/name pair: the last address in front of the anchor (within
/// [`SENDER_MAX_DIST`]), and the display name beside it.
///
/// An address behind the anchor is another matter: there can be two of them, a
/// participant's and the true sender's, with nothing to tell which is which, so
/// when more than one exists there, this reports none rather than the nearer
/// guess: a wrong sender that looks plausible is worse than no sender.
fn find_sender(before: &Vec<Field>, after: &Vec<Field>) -> (r: (Option<String>, Option<String>))
    ensures
        (text::opt_text(r.0), text::opt_text(r.1)) == sender(
            views::views(before@),
            views::views(after@),
        ),
{
    if let Some(i) = find_near_address(before) {
        let rel: isize = before[i].rel;
        let addr: String = read_address(&before[i]);
        let name: Option<String> = match find_last_name(before, rel) {
            Some(name) => Some(name),
            None => find_first_name(after, rel),
        };
        return (Some(addr), name);
    }
    let found: Vec<usize> = find_addresses(after);
    if found.len() == 1 {
        let only: usize = found[0];
        assert(after@[only as int]@ == addresses(views::views(after@))[0]);
        let addr: String = read_address(&after[only]);
        (Some(addr), find_first_name(after, after[only].rel))
    } else {
        (None, None)
    }
}

/// How many fields carry the subject with this key.
pub open spec fn copies(fs: Seq<FieldV>, key: Seq<char>) -> nat
    decreases fs.len(),
{
    if fs.len() == 0 {
        0
    } else {
        copies(fs.drop_last(), key) + if classify::subject_key(value(fs.last())) == key {
            1nat
        } else {
            0nat
        }
    }
}

/// Whether a field is the subject: it reads as one, near the anchor, and the same
/// subject stands there more than once.
pub open spec fn is_subject(fs: Seq<FieldV>, f: FieldV) -> bool {
    &&& f.rel <= SUBJECT_MAX_REL
    &&& classify::subject(value(f))
    &&& copies(fs, classify::subject_key(value(f))) > 1
}

/// The first field from position `i` on that is the subject.
pub open spec fn subject_from(fs: Seq<FieldV>, i: int) -> Option<FieldV>
    decreases fs.len() - i,
{
    if i < 0 || i >= fs.len() {
        None
    } else if is_subject(fs, fs[i]) {
        Some(fs[i])
    } else {
        subject_from(fs, i + 1)
    }
}

fn count_copies(fs: &Vec<Field>, key: &Vec<char>) -> (r: usize)
    ensures
        r == copies(views::views(fs@), key@),
{
    let ghost all = views::views(fs@);
    let mut n: usize = 0;
    let mut i: usize = 0;
    assert(all.take(0) =~= seq![]);
    while i < fs.len()
        invariant
            i <= fs@.len(),
            n <= i,
            all == views::views(fs@),
            n == copies(all.take(i as int), key@),
        decreases fs@.len() - i,
    {
        assert(all.take(i + 1).last() == fs@[i as int]@);
        assert(all.take(i + 1).drop_last() =~= all.take(i as int));
        let k: Vec<char> = classify::key_of(field_value(&fs[i]).as_slice());
        if text::same_chars(k.as_slice(), key.as_slice()) {
            n = n + 1;
        }
        i = i + 1;
    }
    assert(all.take(i as int) =~= all);
    n
}

/// The subject is written twice back to back and near identical. That duplication,
/// not a heading, not a fixed offset, is what makes a subject identifiable at
/// all: a value appearing twice after the anchor is the subject, one appearing
/// once is the body preview.
fn find_subject(after: &Vec<Field>) -> (r: Option<usize>)
    ensures
        match r {
            Some(i) => i < after@.len() && subject_from(views::views(after@), 0) == Some(
                after@[i as int]@,
            ),
            None => subject_from(views::views(after@), 0) is None,
        },
{
    let mut i: usize = 0;
    while i < after.len()
        invariant
            i <= after@.len(),
            subject_from(views::views(after@), i as int) == subject_from(views::views(after@), 0),
        decreases after@.len() - i,
    {
        assert(views::views(after@)[i as int] == after@[i as int]@);
        if after[i].rel <= SUBJECT_MAX_REL {
            let t: Vec<char> = field_value(&after[i]);
            if classify::looks_like_subject(t.as_slice()) {
                let key: Vec<char> = classify::key_of(t.as_slice());
                if count_copies(after, &key) > 1 {
                    return Some(i);
                }
            }
        }
        i = i + 1;
    }
    None
}

/// The first message identifier from position `i` on, without its brackets.
pub open spec fn message_id_from(fs: Seq<FieldV>, i: int) -> Option<Seq<char>>
    decreases fs.len() - i,
{
    if i < 0 || i >= fs.len() {
        None
    } else if classify::message_id_shaped(text::trimmed(fs[i].text)) {
        Some(text::stripped(text::trimmed(fs[i].text), '<', '>'))
    } else {
        message_id_from(fs, i + 1)
    }
}

fn find_message_id(after: &Vec<Field>) -> (r: Option<String>)
    ensures
        text::opt_text(r) == message_id_from(views::views(after@), 0),
{
    let mut i: usize = 0;
    while i < after.len()
        invariant
            i <= after@.len(),
            message_id_from(views::views(after@), i as int) == message_id_from(
                views::views(after@),
                0,
            ),
        decreases after@.len() - i,
    {
        assert(views::views(after@)[i as int] == after@[i as int]@);
        let t: &[char] = text::trim(after[i].text.as_slice());
        if classify::is_message_id(t) {
            return Some(text::string_of(text::strip_pair(t, '<', '>')));
        }
        i = i + 1;
    }
    None
}

/// Whether a field can be the preview: it is not the subject and no markup.
pub open spec fn can_be_preview(f: FieldV, subject: Option<FieldV>) -> bool {
    let t = text::trimmed_start(f.text);
    &&& subject matches Some(s) ==> s.rel != f.rel
    &&& !(t.len() > 0 && t[0] == '<')
}

/// The longest of the fields that can be the preview, the last of equals.
pub open spec fn longest(fs: Seq<FieldV>, subject: Option<FieldV>) -> Option<FieldV>
    decreases fs.len(),
{
    if fs.len() == 0 {
        None
    } else {
        let before = longest(fs.drop_last(), subject);
        if can_be_preview(fs.last(), subject) && (before matches Some(b) ==> text::byte_len(b.text)
            <= text::byte_len(fs.last().text)) {
            Some(fs.last())
        } else {
            before
        }
    }
}

/// The preview: the longest field that can be it, trimmed.
pub open spec fn preview(fs: Seq<FieldV>, subject: Option<FieldV>) -> Option<Seq<char>> {
    match longest(fs, subject) {
        Some(f) => Some(text::trimmed(f.text)),
        None => None,
    }
}

fn find_preview(after: &Vec<Field>, subject: Option<usize>) -> (r: Option<String>)
    requires
        subject matches Some(i) ==> i < after@.len(),
    ensures
        text::opt_text(r) == preview(
            views::views(after@),
            match subject {
                Some(i) => Some(after@[i as int]@),
                None => None,
            },
        ),
{
    let ghost all = views::views(after@);
    let ghost claimed = match subject {
        Some(i) => Some(after@[i as int]@),
        None => None,
    };
    let mut best: Option<usize> = None;
    let mut best_len: u128 = 0;
    let mut i: usize = 0;
    assert(all.take(0) =~= seq![]);
    while i < after.len()
        invariant
            i <= after@.len(),
            all == views::views(after@),
            subject matches Some(j) ==> j < after@.len(),
            claimed == (match subject {
                Some(j) => Some(after@[j as int]@),
                None => None,
            }),
            match best {
                Some(b) => b < after@.len() && longest(all.take(i as int), claimed) == Some(
                    after@[b as int]@,
                ) && best_len == text::byte_len(after@[b as int].text@),
                None => longest(all.take(i as int), claimed) is None,
            },
        decreases after@.len() - i,
    {
        assert(all.take(i + 1).last() == after@[i as int]@);
        assert(all.take(i + 1).drop_last() =~= all.take(i as int));
        let f: &Field = &after[i];
        let t: &[char] = text::trim_start(f.text.as_slice());
        let markup: bool = t.len() > 0 && t[0] == '<';
        let is_claimed: bool = match subject {
            Some(j) => after[j].rel == f.rel,
            None => false,
        };
        if !is_claimed && !markup {
            let len: u128 = text::utf8_len(f.text.as_slice());
            if best.is_none() || best_len <= len {
                best = Some(i);
                best_len = len;
            }
        }
        i = i + 1;
    }
    assert(all.take(i as int) =~= all);
    match best {
        Some(b) => Some(text::string_of(text::trim(after[b].text.as_slice()))),
        None => None,
    }
}

/// 2015-01-01 in .NET ticks: 100-nanosecond steps from 0001-01-01.
pub const TICK_LO: u64 = 0x08d1_f36d_0530_8000;

/// 2027-01-01 in .NET ticks.
pub const TICK_HI: u64 = 0x08df_679a_2dbe_c000;

/// 1970-01-01 in .NET ticks.
pub const UNIX_EPOCH_TICKS: u64 = 621_355_968_000_000_000;

/// The earliest plausible tick among the first `n` 8-byte windows.
pub open spec fn earliest_tick(span: Seq<u8>, n: int) -> Option<int>
    decreases n,
{
    if n <= 0 {
        None
    } else {
        let before = earliest_tick(span, n - 1);
        let v = bytes::le64(span, n - 1);
        if TICK_LO <= v < TICK_HI && (before matches Some(b) ==> v < b) {
            Some(v)
        } else {
            before
        }
    }
}

/// The send time of a record: its earliest tick, as Unix seconds.
pub open spec fn send_time(span: Seq<u8>) -> Option<i64> {
    match earliest_tick(span, span.len() - 7) {
        Some(v) => Some(((v - UNIX_EPOCH_TICKS) / 10_000_000) as i64),
        None => None,
    }
}

proof fn lemma_earliest_tick(span: Seq<u8>, n: int)
    ensures
        earliest_tick(span, n) matches Some(v) ==> TICK_LO <= v < TICK_HI,
    decreases n,
{
    if n > 0 {
        lemma_earliest_tick(span, n - 1);
    }
}

/// A send time lies between 2015-01-01 and 2027-01-01.
pub proof fn lemma_send_time_in_range(span: Seq<u8>)
    ensures
        send_time(span) matches Some(t) ==> 1_420_070_400 <= t < 1_798_761_600,
{
    lemma_earliest_tick(span, span.len() - 7);
}

/// The earliest 100-nanosecond .NET tick value in `span`, as Unix seconds.
///
/// A record holds several ticks (send, delivery, last-modified, sync), and a
/// message is always sent before any of the others, so the earliest tick in its
/// span is the send time. The range bound (2015-01-01 .. 2027-01-01, in ticks) is
/// what makes scanning raw 8-byte windows for a plausible tick safe.
pub fn find_send_time(span: &[u8]) -> (r: Option<i64>)
    ensures
        r == send_time(span@),
{
    let total: usize = span.len();
    if total < 8 {
        return None;
    }
    let n: usize = total - 7;
    let mut best: Option<u64> = None;
    let mut i: usize = 0;
    while i < n
        invariant
            total == span@.len(),
            n == total - 7,
            total >= 8,
            i <= n,
            match best {
                Some(b) => earliest_tick(span@, i as int) == Some(b as int) && TICK_LO <= b
                    < TICK_HI,
                None => earliest_tick(span@, i as int) is None,
            },
        decreases n - i,
    {
        let v: u64 = bytes::u64le(span, i);
        if TICK_LO <= v && v < TICK_HI {
            match best {
                Some(b) => {
                    if v < b {
                        best = Some(v);
                    }
                },
                None => {
                    best = Some(v);
                },
            }
        }
        i = i + 1;
    }
    match best {
        Some(v) => Some(((v - UNIX_EPOCH_TICKS) / 10_000_000) as i64),
        None => None,
    }
}

/// Printable ASCII, a line break or a tab.
pub open spec fn printable(c: u8) -> bool {
    0x20 <= c < 0x7F || c == 0x0A || c == 0x0D || c == 0x09
}

/// How many of these bytes are printable.
pub open spec fn printables(b: Seq<u8>) -> nat
    decreases b.len(),
{
    if b.len() == 0 {
        0
    } else {
        printables(b.drop_last()) + if printable(b.last()) {
            1nat
        } else {
            0nat
        }
    }
}

/// The first 32-byte window from `i` on that is less than three quarters
/// printable; the end of the buffer if there is none.
pub open spec fn text_end_from(b: Seq<u8>, i: int) -> int
    decreases b.len() - i,
{
    if i < 0 || i + 32 > b.len() {
        b.len() as int
    } else if printables(b.subrange(i, i + 32)) * 4 < 96 {
        i
    } else {
        text_end_from(b, i + 32)
    }
}

fn count_printables(b: &[u8], i: usize) -> (r: usize)
    requires
        i + 32 <= b@.len(),
    ensures
        r == printables(b@.subrange(i as int, i + 32)),
        r <= 32,
{
    let ghost part = b@.subrange(i as int, i + 32);
    let mut n: usize = 0;
    let mut k: usize = 0;
    assert(b@.len() == b.len());
    assert(part.take(0) =~= seq![]);
    while k < 32
        invariant
            k <= 32,
            n <= k,
            i + 32 <= b@.len() <= usize::MAX,
            part == b@.subrange(i as int, i + 32),
            n == printables(part.take(k as int)),
        decreases 32 - k,
    {
        assert(part.take(k + 1).drop_last() =~= part.take(k as int));
        let c: u8 = b[i + k];
        assert(part.take(k + 1).last() == c);
        if (0x20 <= c && c < 0x7F) || c == 0x0A || c == 0x0D || c == 0x09 {
            n = n + 1;
        }
        k = k + 1;
    }
    assert(part.take(32) =~= part);
    n
}

/// Where a byte run stops looking like printable text: used to bound an HTML body
/// that has no closing tag, so the scan does not run into the following record's
/// binary framing.
pub fn text_run_end(b: &[u8]) -> (r: usize)
    ensures
        r == text_end_from(b@, 0),
        r <= b@.len(),
{
    let n: usize = b.len();
    let mut i: usize = 0;
    while n - i >= 32
        invariant
            n == b@.len(),
            i <= n,
            text_end_from(b@, i as int) == text_end_from(b@, 0),
        decreases n - i,
    {
        if count_printables(b, i) * 4 < 96 {
            return i;
        }
        i = i + 32;
    }
    n
}

/// Where a text first stands in a byte run.
pub open spec fn mark(region: Seq<u8>, m: Seq<char>) -> Option<int> {
    search::first(region, text::ascii_bytes(m))
}

/// Where a text that first stands in a byte run ends there.
pub open spec fn mark_end(region: Seq<u8>, m: Seq<char>) -> Option<int> {
    match mark(region, m) {
        Some(p) => Some(p + m.len()),
        None => None,
    }
}

/// Where markup begins.
pub open spec fn html_start(region: Seq<u8>) -> Option<int> {
    search::sooner(
        search::sooner(
            search::sooner(
                search::sooner(mark(region, "<html"@), mark(region, "<!DOCTYPE"@)),
                mark(region, "<body"@),
            ),
            mark(region, "<div"@),
        ),
        mark(region, "<table"@),
    )
}

/// Where the markup that begins a byte run ends: behind the closing tag that ends
/// first, or where the text does.
pub open spec fn html_end(tail: Seq<u8>) -> int {
    match search::sooner(mark_end(tail, "</html>"@), mark_end(tail, "</body>"@)) {
        Some(e) => e,
        None => text_end_from(tail, 0),
    }
}

/// The HTML body of a record, if it has one.
pub open spec fn html(region: Seq<u8>) -> Option<Seq<char>> {
    match html_start(region) {
        None => None,
        Some(s) => {
            let tail = region.skip(s);
            Some(text::lossy_text(tail.take(html_end(tail))))
        },
    }
}

fn find_mark(region: &[u8], m: &str) -> (r: Option<usize>)
    requires
        m@.len() > 0,
    ensures
        match r {
            Some(p) => mark(region@, m@) == Some(p as int) && p + m@.len() <= region@.len() <= usize::MAX,
            None => mark(region@, m@) is None,
        },
{
    search::find_bytes(region, text::ascii_of(m).as_slice())
}

/// The HTML body, if this record has one: from the first recognised HTML marker
/// to the nearest closing tag, bounded so it never runs into the next record.
pub fn find_html(region: &[u8]) -> (r: Option<String>)
    ensures
        text::opt_text(r) == html(region@),
{
    proof {
        reveal_strlit("<html");
        reveal_strlit("<!DOCTYPE");
        reveal_strlit("<body");
        reveal_strlit("<div");
        reveal_strlit("<table");
        reveal_strlit("</html>");
        reveal_strlit("</body>");
    }
    let a: Option<usize> = search::sooner_of(find_mark(region, "<html"), find_mark(region, "<!DOCTYPE"));
    let b: Option<usize> = search::sooner_of(a, find_mark(region, "<body"));
    let c: Option<usize> = search::sooner_of(b, find_mark(region, "<div"));
    let d: Option<usize> = search::sooner_of(c, find_mark(region, "<table"));
    match d {
        None => None,
        Some(start) => {
            let tail: &[u8] = vstd::slice::slice_subrange(region, start, region.len());
            assert(tail@ =~= region@.skip(start as int));
            let e1: Option<usize> = match find_mark(tail, "</html>") {
                Some(p) => Some(p + 7),
                None => None,
            };
            let e2: Option<usize> = match find_mark(tail, "</body>") {
                Some(p) => Some(p + 7),
                None => None,
            };
            let end: usize = match search::sooner_of(e1, e2) {
                Some(e) => e,
                None => text_run_end(tail),
            };
            // The body itself is genuine UTF-8, so it is decoded directly rather
            // than through the path that reads the UTF-16LE metadata runs.
            let body: &[u8] = vstd::slice::slice_subrange(tail, 0, end);
            assert(body@ =~= tail@.take(end as int));
            Some(text::lossy_string(body))
        },
    }
}

/// A field's shape, with its text redacted: for diagnosing extraction behaviour
/// against a real store without exposing real content.
#[derive(Debug, Clone, Copy)]
pub struct FieldShape {
    pub rel: isize,
    pub is_email: bool,
    pub is_person_name: bool,
    pub char_len: usize,
}

/// What a field's shape says of it.
pub open spec fn has_shape(shape: FieldShape, f: FieldV) -> bool {
    let t = text::trimmed(f.text);
    &&& shape.rel == f.rel
    &&& shape.is_email == classify::email_shaped(t)
    &&& shape.is_person_name == classify::person(t)
    &&& shape.char_len == t.len()
}

/// The shapes are those of the fields, in order.
pub open spec fn have_shapes(shapes: Seq<FieldShape>, fs: Seq<FieldV>) -> bool {
    shapes.len() == fs.len() && forall|i: int|
        0 <= i < fs.len() ==> has_shape(#[trigger] shapes[i], fs[i])
}

impl Field {
    /// The field without its text.
    pub fn shape(&self) -> (r: FieldShape)
        ensures
            has_shape(r, self@),
    {
        let t: &[char] = text::trim(self.text.as_slice());
        FieldShape {
            rel: self.rel,
            is_email: classify::is_email_chars(t),
            is_person_name: classify::looks_like_person(t),
            char_len: t.len(),
        }
    }
}

fn push_shapes(fs: &Vec<Field>, out: &mut Vec<FieldShape>)
    ensures
        final(out)@.len() == old(out)@.len() + fs@.len(),
        forall|i: int| 0 <= i < old(out)@.len() ==> final(out)@[i] == #[trigger] old(out)@[i],
        forall|i: int|
            0 <= i < fs@.len() ==> has_shape(
                final(out)@[old(out)@.len() + i],
                (#[trigger] fs@[i])@,
            ),
{
    let ghost start = out@;
    let mut i: usize = 0;
    while i < fs.len()
        invariant
            i <= fs@.len(),
            out@.len() == start.len() + i,
            forall|k: int| 0 <= k < start.len() ==> out@[k] == #[trigger] start[k],
            forall|k: int| 0 <= k < i ==> has_shape(out@[start.len() + k], (#[trigger] fs@[k])@),
        decreases fs@.len() - i,
    {
        let shape: FieldShape = fs[i].shape();
        out.push(shape);
        i = i + 1;
    }
}

/// The fields that stand before an anchor, close enough to hold its sender.
pub open spec fn fields_before(blob: Seq<u8>, anchor: int) -> Seq<FieldV> {
    fields(
        blob,
        anchor,
        if anchor < SENDER_MAX_DIST + 32 {
            0
        } else {
            anchor - (SENDER_MAX_DIST + 32)
        },
        anchor,
    )
}

/// The fields between an anchor and the next.
pub open spec fn fields_after(blob: Seq<u8>, anchor: int, next: int) -> Seq<FieldV> {
    fields(blob, anchor, anchor + 16, next)
}

/// Where the record of an anchor ends: at the next anchor, or with the block.
pub open spec fn next_anchor(blob: Seq<u8>, anchor: int) -> int {
    match search::first_from(blob, anchor_bytes(), anchor + 16) {
        Some(p) => p,
        None => blob.len() as int,
    }
}

/// The record at an anchor. The send time is looked for from the previous anchor
/// on, the true start of the record's span.
pub open spec fn record(blob: Seq<u8>, prev: int, anchor: int) -> HxMessageV {
    let next = next_anchor(blob, anchor);
    let before = fields_before(blob, anchor);
    let after = fields_after(blob, anchor, next);
    let (address, name) = sender(before, after);
    let subject = subject_from(after, 0);
    HxMessageV {
        sender_address: address,
        sender_name: name,
        internet_message_id: message_id_from(after, 0),
        subject: match subject {
            Some(f) => Some(value(f)),
            None => None,
        },
        preview: preview(after, subject),
        html: html(blob.subrange(anchor, next)),
        sent_unix: send_time(blob.subrange(prev, next)),
    }
}

/// The fields that the record at an anchor was read from.
pub open spec fn record_fields(blob: Seq<u8>, anchor: int) -> Seq<FieldV> {
    fields_before(blob, anchor) + fields_after(blob, anchor, next_anchor(blob, anchor))
}

/// The anchors from offset `from` on.
pub open spec fn anchors_from(blob: Seq<u8>, from: int) -> Seq<int>
    decreases blob.len() - from,
{
    if from < 0 {
        seq![]
    } else {
        proof {
            search::lemma_first_from(blob, anchor_bytes(), from);
        }
        match search::first_from(blob, anchor_bytes(), from) {
            None => seq![],
            Some(a) => seq![a] + anchors_from(blob, a + 16),
        }
    }
}

/// The records of a block, one per anchor.
pub open spec fn records(blob: Seq<u8>) -> Seq<HxMessageV> {
    let anchors = anchors_from(blob, 0);
    Seq::new(
        anchors.len(),
        |i: int|
            record(
                blob,
                if i == 0 {
                    0
                } else {
                    anchors[i - 1]
                },
                anchors[i],
            ),
    )
}

fn read_record(blob: &[u8], prev: usize, anchor: usize) -> (r: (HxMessage, Vec<FieldShape>, usize))
    requires
        blob@.len() <= isize::MAX,
        prev <= anchor,
        search::stands_at(blob@, anchor_bytes(), anchor as int),
    ensures
        r.0@ == record(blob@, prev as int, anchor as int),
        have_shapes(r.1@, record_fields(blob@, anchor as int)),
        r.2 == next_anchor(blob@, anchor as int),
        anchor + 16 <= r.2 <= blob@.len(),
{
    let needle: Vec<u8> = anchor_needle();
    let n: usize = blob.len();
    proof {
        search::lemma_first_from(blob@, anchor_bytes(), anchor + 16);
    }
    let next: usize = match search::find_bytes_from(blob, needle.as_slice(), anchor + 16) {
        Some(p) => p,
        None => n,
    };
    let reach: usize = SENDER_MAX_DIST as usize + 32;
    let lo: usize = if anchor < reach {
        0
    } else {
        anchor - reach
    };
    let before: Vec<Field> = walk_fields(blob, anchor, lo, anchor);
    let after: Vec<Field> = walk_fields(blob, anchor, anchor + 16, next);
    let mut shapes: Vec<FieldShape> = Vec::new();
    push_shapes(&before, &mut shapes);
    let ghost first_part = shapes@;
    push_shapes(&after, &mut shapes);
    proof {
        let fs = record_fields(blob@, anchor as int);
        assert(fs == views::views(before@) + views::views(after@));
        assert forall|i: int| 0 <= i < fs.len() implies has_shape(#[trigger] shapes@[i], fs[i]) by {
            if i < before@.len() {
                assert(fs[i] == before@[i]@);
                assert(shapes@[i] == first_part[i]);
                assert(has_shape(first_part[0 + i], before@[i]@));
            } else {
                let k = i - before@.len();
                assert(fs[i] == after@[k]@);
                assert(has_shape(shapes@[first_part.len() + k], after@[k]@));
            }
        }
    }
    let (sender_address, sender_name) = find_sender(&before, &after);
    let internet_message_id: Option<String> = find_message_id(&after);
    let claimed: Option<usize> = find_subject(&after);
    let subject: Option<String> = match claimed {
        Some(i) => Some(text::string_of(field_value(&after[i]).as_slice())),
        None => None,
    };
    let preview: Option<String> = find_preview(&after, claimed);
    let html: Option<String> = find_html(vstd::slice::slice_subrange(blob, anchor, next));
    let sent_unix: Option<i64> = find_send_time(vstd::slice::slice_subrange(blob, prev, next));
    (
        HxMessage {
            sender_address,
            sender_name,
            internet_message_id,
            subject,
            preview,
            html,
            sent_unix,
        },
        shapes,
        next,
    )
}

/// Extract every `IPM.Note` record from one decompressed block.
pub fn extract(blob: &[u8]) -> (r: Vec<HxMessage>)
    requires
        blob@.len() <= isize::MAX,
    ensures
        views::views(r@) == records(blob@),
{
    broadcast use views::lemma_views_push;

    let all: Vec<(HxMessage, Vec<FieldShape>)> = extract_with_shapes(blob);
    let ghost start = all@;
    let ghost want = records(blob@);
    let mut out: Vec<HxMessage> = Vec::new();
    assert(views::views(out@) =~= want.take(0));
    for pair in it: all
        invariant
            it.seq() == start,
            start.len() == want.len(),
            forall|i: int| 0 <= i < start.len() ==> (#[trigger] start[i]).0@ == want[i],
            out@.len() == it.index(),
            views::views(out@) == want.take(it.index()),
    {
        let ghost k = it.index();
        assert(start[k] == pair);
        assert(want.take(k + 1) =~= want.take(k).push(want[k]));
        out.push(pair.0);
    }
    assert(want.take(out@.len() as int) =~= want);
    out
}

/// [`extract`], alongside the redacted field shapes ([`FieldShape`]) that
/// produced each message: for diagnosing extraction behaviour against a real
/// store without exposing real content.
pub fn extract_with_shapes(blob: &[u8]) -> (r: Vec<(HxMessage, Vec<FieldShape>)>)
    requires
        blob@.len() <= isize::MAX,
    ensures
        r@.len() == records(blob@).len(),
        forall|i: int| 0 <= i < r@.len() ==> (#[trigger] r@[i]).0@ == records(blob@)[i],
        forall|i: int|
            0 <= i < r@.len() ==> have_shapes(
                (#[trigger] r@[i]).1@,
                record_fields(blob@, anchors_from(blob@, 0)[i]),
            ),
{
    let needle: Vec<u8> = anchor_needle();
    let ghost anchors = anchors_from(blob@, 0);
    let ghost mut done: Seq<int> = seq![];
    let mut out: Vec<(HxMessage, Vec<FieldShape>)> = Vec::new();
    let mut search_from: usize = 0;
    // The true start of the current record's span, updated to each anchor in
    // turn. Bounding the timestamp scan by this (rather than a fixed lookback)
    // matters: a tick further back than a short window, but still within this
    // record's own span, would otherwise be missed, and two revisions of one
    // message would then differ in their send time, which breaks the dedup key.
    let mut prev_anchor: usize = 0;
    assert(done + anchors_from(blob@, 0) =~= anchors);
    loop
        invariant
            blob@.len() <= isize::MAX,
            needle@ == anchor_bytes(),
            search_from <= blob@.len(),
            prev_anchor <= search_from,
            anchors == anchors_from(blob@, 0),
            done + anchors_from(blob@, search_from as int) == anchors,
            out@.len() == done.len(),
            prev_anchor == (if done.len() == 0 {
                0
            } else {
                done.last()
            }),
            forall|i: int|
                0 <= i < out@.len() ==> (#[trigger] out@[i]).0@ == record(
                    blob@,
                    if i == 0 {
                        0
                    } else {
                        anchors[i - 1]
                    },
                    anchors[i],
                ),
            forall|i: int|
                0 <= i < out@.len() ==> have_shapes(
                    (#[trigger] out@[i]).1@,
                    record_fields(blob@, anchors[i]),
                ),
        ensures
            search::first_from(blob@, anchor_bytes(), search_from as int) is None,
        decreases blob@.len() - search_from,
    {
        let anchor: usize = match search::find_bytes_from(blob, needle.as_slice(), search_from) {
            Some(a) => a,
            None => {
                break;
            },
        };
        proof {
            search::lemma_first_from(blob@, anchor_bytes(), search_from as int);
            let rest = anchors_from(blob@, anchor + 16);
            assert(anchors_from(blob@, search_from as int) == seq![anchor as int] + rest);
            assert(done + (seq![anchor as int] + rest) =~= done.push(anchor as int) + rest);
            assert(anchors[done.len() as int] == anchor);
            if done.len() > 0 {
                assert(anchors[done.len() - 1] == done.last());
            }
            done = done.push(anchor as int);
        }
        let (m, shapes, _) = read_record(blob, prev_anchor, anchor);
        out.push((m, shapes));
        prev_anchor = anchor;
        search_from = anchor + 16;
    }
    assert(done + anchors_from(blob@, search_from as int) =~= done);
    out
}

/// The class name does not overlap itself: its first byte stands nowhere else in
/// it.
proof fn lemma_anchors_do_not_overlap(blob: Seq<u8>, a: int, p: int)
    requires
        search::stands_at(blob, anchor_bytes(), a),
        search::stands_at(blob, anchor_bytes(), p),
        a < p,
    ensures
        a + 16 <= p,
{
    if p < a + 16 {
        assert(anchor_bytes()[p - a] == blob.subrange(a, a + 16)[p - a]);
        assert(anchor_bytes()[0] == blob.subrange(p, p + 16)[0]);
        assert(anchor_bytes()[p - a] == 0x49);
    }
}

proof fn lemma_anchors_from(blob: Seq<u8>, from: int)
    requires
        0 <= from,
    ensures
        forall|i: int, j: int|
            0 <= i < j < anchors_from(blob, from).len() ==> #[trigger] anchors_from(blob, from)[i]
                < #[trigger] anchors_from(blob, from)[j],
        forall|i: int|
            0 <= i < anchors_from(blob, from).len() ==> from <= #[trigger] anchors_from(blob, from)[i],
        forall|p: int|
            from <= p ==> (#[trigger] search::stands_at(blob, anchor_bytes(), p)
                <==> anchors_from(blob, from).contains(p)),
    decreases blob.len() - from,
{
    let all = anchors_from(blob, from);
    search::lemma_first_from(blob, anchor_bytes(), from);
    if let Some(a) = search::first_from(blob, anchor_bytes(), from) {
        let rest = anchors_from(blob, a + 16);
        lemma_anchors_from(blob, a + 16);
        assert(all[0] == a);
        assert(forall|i: int| 1 <= i < all.len() ==> #[trigger] all[i] == rest[i - 1]);
        assert forall|p: int| from <= p implies (#[trigger] search::stands_at(
            blob,
            anchor_bytes(),
            p,
        ) <==> all.contains(p)) by {
            if search::stands_at(blob, anchor_bytes(), p) {
                if a < p {
                    lemma_anchors_do_not_overlap(blob, a, p);
                    let k = choose|k: int| 0 <= k < rest.len() && rest[k] == p;
                    assert(all[k + 1] == p);
                }
            }
            if all.contains(p) {
                let k = choose|k: int| 0 <= k < all.len() && all[k] == p;
                if k > 0 {
                    assert(rest[k - 1] == p);
                    assert(rest.contains(p));
                }
            }
        }
    }
}

/// A block has one record for each place where the class name stands in it, in
/// the order of those places.
pub proof fn lemma_one_record_per_class_name(blob: Seq<u8>)
    ensures
        records(blob).len() == anchors_from(blob, 0).len(),
        forall|i: int, j: int|
            0 <= i < j < anchors_from(blob, 0).len() ==> #[trigger] anchors_from(blob, 0)[i]
                < #[trigger] anchors_from(blob, 0)[j],
        forall|p: int| #[trigger]
            search::stands_at(blob, anchor_bytes(), p) <==> anchors_from(blob, 0).contains(p),
{
    lemma_anchors_from(blob, 0);
}

proof fn lemma_fields_rise(blob: Seq<u8>, anchor: int, i: int, hi: int)
    ensures
        forall|k: int|
            0 <= k < fields(blob, anchor, i, hi).len() ==> i - anchor <= (#[trigger] fields(
                blob,
                anchor,
                i,
                hi,
            )[k]).rel < hi - anchor,
        forall|j: int, k: int|
            0 <= j < k < fields(blob, anchor, i, hi).len() ==> (#[trigger] fields(
                blob,
                anchor,
                i,
                hi,
            )[j]).rel < (#[trigger] fields(blob, anchor, i, hi)[k]).rel,
    decreases hi - i,
{
    let all = fields(blob, anchor, i, hi);
    if i + 1 < hi {
        if !ascii_pair(blob, i) {
            lemma_fields_rise(blob, anchor, i + 1, hi);
            assert(all == fields(blob, anchor, i + 1, hi));
        } else {
            lemma_run_end(blob, i, hi);
            let (text, end) = run(blob, i, hi);
            let rest = fields(blob, anchor, end, hi);
            lemma_fields_rise(blob, anchor, end, hi);
            if text.len() >= 3 && !classify::binary_run(text) {
                assert(all == seq![FieldV { rel: i - anchor, text }] + rest);
                assert(forall|k: int| 1 <= k < all.len() ==> #[trigger] all[k] == rest[k - 1]);
            } else {
                assert(all == rest);
            }
        }
    }
}

/// The fields of a record rise in their offset from the anchor, and none lies in
/// the class name or further in front of it than a sender's may.
pub proof fn lemma_record_fields_rise(blob: Seq<u8>, anchor: int)
    requires
        0 <= anchor,
    ensures
        forall|j: int, k: int|
            0 <= j < k < record_fields(blob, anchor).len() ==> (#[trigger] record_fields(
                blob,
                anchor,
            )[j]).rel < (#[trigger] record_fields(blob, anchor)[k]).rel,
        forall|k: int|
            0 <= k < record_fields(blob, anchor).len() ==> -352 <= (#[trigger] record_fields(
                blob,
                anchor,
            )[k]).rel < 0 || record_fields(blob, anchor)[k].rel >= 16,
{
    let lo = if anchor < SENDER_MAX_DIST + 32 {
        0
    } else {
        anchor - (SENDER_MAX_DIST + 32)
    };
    let next = next_anchor(blob, anchor);
    let before = fields_before(blob, anchor);
    let after = fields_after(blob, anchor, next);
    let all = record_fields(blob, anchor);
    lemma_fields_rise(blob, anchor, lo, anchor);
    lemma_fields_rise(blob, anchor, anchor + 16, next);
    assert(forall|k: int| 0 <= k < before.len() ==> #[trigger] all[k] == before[k]);
    assert(forall|k: int|
        before.len() <= k < all.len() ==> #[trigger] all[k] == after[k - before.len()]);
}

/// What the two extractions of one block give: the same messages, one for each
/// place where the class name stands; and shapes that rise in their offset from it
/// and lie in front of it or behind it.
pub proof fn lemma_extractions_agree(
    blob: &[u8],
    messages: Vec<HxMessage>,
    shaped: Vec<(HxMessage, Vec<FieldShape>)>,
)
    requires
        call_ensures(extract, (blob,), messages),
        call_ensures(extract_with_shapes, (blob,), shaped),
    ensures
        messages@.len() == anchors_from(blob@, 0).len(),
        shaped@.len() == messages@.len(),
        forall|i: int| 0 <= i < shaped@.len() ==> messages@[i]@ == (#[trigger] shaped@[i]).0@,
        forall|i: int, j: int, k: int|
            0 <= i < shaped@.len() && 0 <= j < k < shaped@[i].1@.len() ==> (#[trigger] shaped@[i].1@[j]).rel
                < (#[trigger] shaped@[i].1@[k]).rel,
        forall|i: int, k: int|
            0 <= i < shaped@.len() && 0 <= k < shaped@[i].1@.len() ==> -352 <= (
            #[trigger] shaped@[i].1@[k]).rel < 0 || shaped@[i].1@[k].rel >= 16,
{
    let anchors = anchors_from(blob@, 0);
    lemma_anchors_from(blob@, 0);
    assert forall|i: int| 0 <= i < shaped@.len() implies messages@[i]@ == (
    #[trigger] shaped@[i]).0@ by {
        assert(views::views(messages@)[i] == messages@[i]@);
    }
    assert forall|i: int, j: int, k: int|
        0 <= i < shaped@.len() && 0 <= j < k < shaped@[i].1@.len() implies (
    #[trigger] shaped@[i].1@[j]).rel < (#[trigger] shaped@[i].1@[k]).rel by {
        assert(have_shapes(shaped@[i].1@, record_fields(blob@, anchors[i])));
        lemma_record_fields_rise(blob@, anchors[i]);
        assert(has_shape(shaped@[i].1@[j], record_fields(blob@, anchors[i])[j]));
        assert(has_shape(shaped@[i].1@[k], record_fields(blob@, anchors[i])[k]));
    }
    assert forall|i: int, k: int|
        0 <= i < shaped@.len() && 0 <= k < shaped@[i].1@.len() implies -352 <= (
    #[trigger] shaped@[i].1@[k]).rel < 0 || shaped@[i].1@[k].rel >= 16 by {
        assert(have_shapes(shaped@[i].1@, record_fields(blob@, anchors[i])));
        lemma_record_fields_rise(blob@, anchors[i]);
        assert(has_shape(shaped@[i].1@[k], record_fields(blob@, anchors[i])[k]));
    }
}

/// Two records of one message: the same sender at the same time.
pub open spec fn same_message(a: HxMessageV, b: HxMessageV) -> bool {
    a.sender_address == b.sender_address && a.sent_unix == b.sent_unix
}

/// The first of two texts that is there.
pub open spec fn known(a: Option<Seq<char>>, b: Option<Seq<char>>) -> Option<Seq<char>> {
    match a {
        Some(_) => a,
        None => b,
    }
}

/// What a message is known by once a further revision of it has been seen.
pub open spec fn merged(m: HxMessageV, r: HxMessageV) -> HxMessageV {
    HxMessageV {
        sender_address: m.sender_address,
        sender_name: known(m.sender_name, r.sender_name),
        internet_message_id: known(m.internet_message_id, r.internet_message_id),
        subject: known(m.subject, r.subject),
        preview: known(m.preview, r.preview),
        html: known(m.html, r.html),
        sent_unix: m.sent_unix,
    }
}

/// The first position from `i` on of a record of the same message.
pub open spec fn position_of(ms: Seq<HxMessageV>, r: HxMessageV, i: int) -> Option<int>
    decreases ms.len() - i,
{
    if i < 0 || i >= ms.len() {
        None
    } else if same_message(ms[i], r) {
        Some(i)
    } else {
        position_of(ms, r, i + 1)
    }
}

/// The messages with one more record: merged into the one it is a revision of, or
/// behind them all.
pub open spec fn with_record(ms: Seq<HxMessageV>, r: HxMessageV) -> Seq<HxMessageV> {
    match position_of(ms, r, 0) {
        Some(i) => ms.update(i, merged(ms[i], r)),
        None => ms.push(r),
    }
}

/// The messages that a list of records holds, in the order of their first
/// records.
pub open spec fn distinct_messages(records: Seq<HxMessageV>) -> Seq<HxMessageV>
    decreases records.len(),
{
    if records.len() == 0 {
        seq![]
    } else {
        with_record(distinct_messages(records.drop_last()), records.last())
    }
}

fn same_text(a: &Option<String>, b: &Option<String>) -> (r: bool)
    ensures
        r == (text::opt_text(*a) == text::opt_text(*b)),
{
    match (a, b) {
        (Some(x), Some(y)) => text::same_chars(
            text::chars_of(x.as_str()).as_slice(),
            text::chars_of(y.as_str()).as_slice(),
        ),
        (None, None) => true,
        _ => false,
    }
}

fn first_known(a: &Option<String>, b: &Option<String>) -> (r: Option<String>)
    ensures
        text::opt_text(r) == known(text::opt_text(*a), text::opt_text(*b)),
{
    match a {
        Some(x) => Some(x.clone()),
        None => match b {
            Some(y) => Some(y.clone()),
            None => None,
        },
    }
}

fn is_same_message(a: &HxMessage, b: &HxMessage) -> (r: bool)
    ensures
        r == same_message(a@, b@),
{
    let same_time: bool = match (a.sent_unix, b.sent_unix) {
        (Some(x), Some(y)) => x == y,
        (None, None) => true,
        _ => false,
    };
    same_time && same_text(&a.sender_address, &b.sender_address)
}

fn find_message(ms: &Vec<HxMessage>, r: &HxMessage) -> (found: Option<usize>)
    ensures
        match found {
            Some(i) => position_of(views::views(ms@), r@, 0) == Some(i as int) && i < ms@.len(),
            None => position_of(views::views(ms@), r@, 0) is None,
        },
{
    let mut i: usize = 0;
    while i < ms.len()
        invariant
            i <= ms@.len(),
            position_of(views::views(ms@), r@, i as int) == position_of(views::views(ms@), r@, 0),
        decreases ms@.len() - i,
    {
        assert(views::views(ms@)[i as int] == ms@[i as int]@);
        if is_same_message(&ms[i], r) {
            return Some(i);
        }
        i = i + 1;
    }
    None
}

/// Merge same-message revisions, keyed on `(sender, sent_unix)`: the only two
/// fields present on nearly every record. `InternetMessageId` is deliberately not
/// part of the key: the store reuses one across an entire conversation, so keying
/// on it merges genuinely distinct messages.
///
/// The store rewrites a message on every sync, and revisions are not uniformly
/// complete (one carries the subject, another the full HTML body), so fields are
/// merged rather than picking one "best" revision and discarding the rest.
pub fn deduplicate(records: Vec<HxMessage>) -> (r: Vec<HxMessage>)
    ensures
        views::views(r@) == distinct_messages(views::views(records@)),
{
    broadcast use views::lemma_views_push;

    let ghost all = views::views(records@);
    let mut out: Vec<HxMessage> = Vec::new();
    assert(views::views(out@) =~= seq![]);
    assert(all.take(0) =~= seq![]);
    for r in it: records
        invariant
            all == views::views(records@),
            it.seq() == records@,
            views::views(out@) == distinct_messages(all.take(it.index())),
    {
        let ghost k = it.index();
        let ghost before = views::views(out@);
        assert(all.take(k + 1).drop_last() =~= all.take(k));
        assert(all.take(k + 1).last() == r@);
        match find_message(&out, &r) {
            Some(i) => {
                assert(before[i as int] == out@[i as int]@);
                let m: HxMessage = HxMessage {
                    sender_address: first_known(&out[i].sender_address, &r.sender_address),
                    sender_name: first_known(&out[i].sender_name, &r.sender_name),
                    internet_message_id: first_known(
                        &out[i].internet_message_id,
                        &r.internet_message_id,
                    ),
                    subject: first_known(&out[i].subject, &r.subject),
                    preview: first_known(&out[i].preview, &r.preview),
                    html: first_known(&out[i].html, &r.html),
                    sent_unix: out[i].sent_unix,
                };
                proof {
                    lemma_position_is_same(before, r@, 0);
                }
                assert(m@ == merged(before[i as int], r@));
                out.set(i, m);
                assert(views::views(out@) =~= before.update(i as int, m@));
            },
            None => {
                out.push(r);
            },
        }
    }
    assert(all.take(all.len() as int) =~= all);
    out
}

/// Where a record of the same message stands, if one does.
pub proof fn lemma_position_is_same(ms: Seq<HxMessageV>, r: HxMessageV, i: int)
    requires
        0 <= i,
    ensures
        match position_of(ms, r, i) {
            Some(p) => i <= p < ms.len() && same_message(ms[p], r),
            None => forall|k: int| i <= k < ms.len() ==> !same_message(#[trigger] ms[k], r),
        },
    decreases ms.len() - i,
{
    if i < ms.len() && !same_message(ms[i], r) {
        lemma_position_is_same(ms, r, i + 1);
    }
}

/// No two messages of the list are the same.
pub open spec fn all_distinct(ms: Seq<HxMessageV>) -> bool {
    forall|i: int, j: int|
        0 <= i < j < ms.len() ==> !same_message(#[trigger] ms[i], #[trigger] ms[j])
}

/// Records of different messages stay apart and records of one message become
/// one: no two of the result have the same sender and time, and each record's
/// sender and time is found there.
pub proof fn lemma_deduplicate_separates(records: Seq<HxMessageV>)
    ensures
        all_distinct(distinct_messages(records)),
        distinct_messages(records).len() <= records.len(),
        forall|k: int|
            0 <= k < records.len() ==> exists|i: int|
                0 <= i < distinct_messages(records).len() && same_message(
                    #[trigger] distinct_messages(records)[i],
                    #[trigger] records[k],
                ),
    decreases records.len(),
{
    if records.len() > 0 {
        let front = records.drop_last();
        let ms = distinct_messages(front);
        let r = records.last();
        lemma_deduplicate_separates(front);
        lemma_position_is_same(ms, r, 0);
        let out = distinct_messages(records);
        assert forall|i: int, j: int| 0 <= i < j < out.len() implies !same_message(
            #[trigger] out[i],
            #[trigger] out[j],
        ) by {
            match position_of(ms, r, 0) {
                Some(p) => {
                    assert(same_message(out[i], ms[i]) && same_message(out[j], ms[j]));
                    assert(!same_message(ms[i], ms[j]));
                },
                None => {
                    if j < ms.len() {
                        assert(!same_message(ms[i], ms[j]));
                    }
                },
            }
        }
        assert forall|k: int| 0 <= k < records.len() implies exists|i: int|
            0 <= i < out.len() && same_message(#[trigger] out[i], #[trigger] records[k]) by {
            if k < front.len() {
                assert(front[k] == records[k]);
                let i = choose|i: int|
                    0 <= i < ms.len() && same_message(#[trigger] ms[i], front[k]);
                assert(same_message(out[i], ms[i]));
            } else {
                match position_of(ms, r, 0) {
                    Some(p) => {
                        assert(same_message(out[p], ms[p]));
                    },
                    None => {
                        assert(out[ms.len() as int] == r);
                    },
                }
            }
        }
    }
}

/// The first value of a field among the records of one message.
pub open spec fn first_value(
    records: Seq<HxMessageV>,
    m: HxMessageV,
    field: spec_fn(HxMessageV) -> Option<Seq<char>>,
) -> Option<Seq<char>>
    decreases records.len(),
{
    if records.len() == 0 {
        None
    } else {
        let before = first_value(records.drop_last(), m, field);
        if before is Some || !same_message(records.last(), m) {
            before
        } else {
            field(records.last())
        }
    }
}

proof fn lemma_first_value_of_same(
    records: Seq<HxMessageV>,
    a: HxMessageV,
    b: HxMessageV,
    field: spec_fn(HxMessageV) -> Option<Seq<char>>,
)
    requires
        same_message(a, b),
    ensures
        first_value(records, a, field) == first_value(records, b, field),
    decreases records.len(),
{
    if records.len() > 0 {
        lemma_first_value_of_same(records.drop_last(), a, b, field);
    }
}

proof fn lemma_first_value_of_new(
    records: Seq<HxMessageV>,
    m: HxMessageV,
    field: spec_fn(HxMessageV) -> Option<Seq<char>>,
)
    requires
        forall|k: int| 0 <= k < records.len() ==> !same_message(#[trigger] records[k], m),
    ensures
        first_value(records, m, field) is None,
    decreases records.len(),
{
    if records.len() > 0 {
        assert(!same_message(records[records.len() - 1], m));
        lemma_first_value_of_new(records.drop_last(), m, field);
    }
}

proof fn lemma_keeps_first_value(
    records: Seq<HxMessageV>,
    i: int,
    field: spec_fn(HxMessageV) -> Option<Seq<char>>,
)
    requires
        0 <= i < distinct_messages(records).len(),
        forall|a: HxMessageV, b: HxMessageV|
            #[trigger] field(merged(a, b)) == known(field(a), field(b)),
    ensures
        field(distinct_messages(records)[i]) == first_value(
            records,
            distinct_messages(records)[i],
            field,
        ),
    decreases records.len(),
{
    let front = records.drop_last();
    let ms = distinct_messages(front);
    let r = records.last();
    let out = distinct_messages(records);
    lemma_position_is_same(ms, r, 0);
    lemma_deduplicate_separates(front);
    if i < ms.len() {
        lemma_keeps_first_value(front, i, field);
        lemma_first_value_of_same(front, ms[i], out[i], field);
        match position_of(ms, r, 0) {
            Some(p) => {
                if p != i {
                    if p < i {
                        assert(!same_message(ms[p], ms[i]));
                    } else {
                        assert(!same_message(ms[i], ms[p]));
                    }
                }
            },
            None => {
                assert(!same_message(ms[i], r));
            },
        }
    } else {
        assert forall|k: int| 0 <= k < front.len() implies !same_message(#[trigger] front[k], r) by {
            let j = choose|j: int| 0 <= j < ms.len() && same_message(#[trigger] ms[j], front[k]);
            assert(!same_message(ms[j], r));
        }
        lemma_first_value_of_new(front, r, field);
    }
}

/// Merging takes each field from the first revision that has it.
pub proof fn lemma_deduplicate_keeps_first_values(records: Seq<HxMessageV>, i: int)
    requires
        0 <= i < distinct_messages(records).len(),
    ensures
        ({
            let m = distinct_messages(records)[i];
            &&& m.sender_name == first_value(records, m, |r: HxMessageV| r.sender_name)
            &&& m.internet_message_id == first_value(
                records,
                m,
                |r: HxMessageV| r.internet_message_id,
            )
            &&& m.subject == first_value(records, m, |r: HxMessageV| r.subject)
            &&& m.preview == first_value(records, m, |r: HxMessageV| r.preview)
            &&& m.html == first_value(records, m, |r: HxMessageV| r.html)
        }),
{
    lemma_keeps_first_value(records, i, |r: HxMessageV| r.sender_name);
    lemma_keeps_first_value(records, i, |r: HxMessageV| r.internet_message_id);
    lemma_keeps_first_value(records, i, |r: HxMessageV| r.subject);
    lemma_keeps_first_value(records, i, |r: HxMessageV| r.preview);
    lemma_keeps_first_value(records, i, |r: HxMessageV| r.html);
}

/// Deduplicating what has been deduplicated changes nothing.
pub proof fn lemma_deduplicate_is_idempotent(records: Seq<HxMessageV>)
    ensures
        distinct_messages(distinct_messages(records)) == distinct_messages(records),
{
    lemma_deduplicate_separates(records);
    lemma_distinct_stays(distinct_messages(records));
}

proof fn lemma_distinct_stays(ms: Seq<HxMessageV>)
    requires
        all_distinct(ms),
    ensures
        distinct_messages(ms) == ms,
    decreases ms.len(),
{
    if ms.len() > 0 {
        let front = ms.drop_last();
        lemma_distinct_stays(front);
        lemma_position_is_same(front, ms.last(), 0);
        assert(ms.last() == ms[ms.len() - 1]);
        assert forall|k: int| 0 <= k < front.len() implies !same_message(
            #[trigger] front[k],
            ms.last(),
        ) by {
            assert(!same_message(ms[k], ms[ms.len() - 1]));
        }
        assert(front.push(ms.last()) =~= ms);
    }
}

} // verus!
