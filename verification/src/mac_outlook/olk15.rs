//! Parsers for the three `.olk15*` file types that carry message content.
//!
//! Portable on purpose: a copied profile can be parsed on any operating system.

use vstd::prelude::*;
use crate::b64;
use crate::errors::ErrorV;
use crate::mailbox;
use crate::ost::props;
use crate::search;
use crate::text;

verus! {

/// Body content type a `.olk15Message` blob turned out to hold.
#[derive(Debug, PartialEq, Eq, Clone, Copy, Structural)]
pub enum BodyKind {
    Html,
    Rtf,
    Calendar,
    /// Text that is none of the others.
    Plain,
}

/// One decoded `.olk15Message` body.
#[derive(Debug, Clone)]
pub struct MessageBody {
    pub kind: BodyKind,
    pub text: String,
}

/// A body with its text as a sequence of characters.
pub struct MessageBodyV {
    pub kind: BodyKind,
    pub text: Seq<char>,
}

impl View for MessageBody {
    type V = MessageBodyV;

    open spec fn view(&self) -> MessageBodyV {
        MessageBodyV { kind: self.kind, text: self.text@ }
    }
}

/// The magic of a `.olk15Message` file.
pub const MESSAGE_MAGIC: [u8; 4] = [0x0D, 0x00, 0x00, 0x01];

/// The magic of a `.olk15MsgAttachment` file.
pub const ATTACHMENT_MAGIC: [u8; 4] = [0xd0, 0x0d, 0x00, 0x00];

pub const MESSAGE_HEADER_LEN: usize = 20;

/// An ASCII text as UTF-16LE bytes.
pub open spec fn wide(s: Seq<char>) -> Seq<u8> {
    Seq::new(
        2 * s.len(),
        |i: int|
            if i % 2 == 0 {
                s[i / 2] as u8
            } else {
                0
            },
    )
}

fn wide_of(s: &str) -> (r: Vec<u8>)
    ensures
        r@ == wide(s@),
{
    let cs: Vec<char> = text::chars_of(s);
    let mut out: Vec<u8> = Vec::new();
    let mut i: usize = 0;
    while i < cs.len()
        invariant
            cs@ == s@,
            i <= cs@.len(),
            out@ == wide(s@).take(2 * i),
        decreases cs@.len() - i,
    {
        out.push(cs[i] as u8);
        out.push(0);
        assert(out@ =~= wide(s@).take(2 * (i + 1)));
        i = i + 1;
    }
    assert(wide(s@).take(2 * i) =~= wide(s@));
    out
}

/// A place where a body may begin, what it would hold, and whether as UTF-16.
pub struct BodyStart {
    pub at: int,
    pub kind: BodyKind,
    pub utf16: bool,
}

/// The nearer of a place found before and a marker of a body.
pub open spec fn nearer(
    best: Option<BodyStart>,
    data: Seq<u8>,
    marker: Seq<u8>,
    kind: BodyKind,
    utf16: bool,
) -> Option<BodyStart> {
    match search::first(data, marker) {
        None => best,
        Some(at) => if best matches Some(b) && b.at <= at {
            best
        } else {
            Some(BodyStart { at, kind, utf16 })
        },
    }
}

/// Where the body begins: at the first marker of any kind.
pub open spec fn body_start(data: Seq<u8>) -> Option<BodyStart> {
    let a = nearer(None, data, text::ascii_bytes("<html"@), BodyKind::Html, false);
    let b = nearer(a, data, text::ascii_bytes("<HTML"@), BodyKind::Html, false);
    let c = nearer(b, data, wide("<html"@), BodyKind::Html, true);
    let d = nearer(c, data, text::ascii_bytes("{\\rtf"@), BodyKind::Rtf, false);
    let e = nearer(d, data, text::ascii_bytes("BEGIN:VCALENDAR"@), BodyKind::Calendar, false);
    nearer(e, data, wide("BEGIN:VCALENDAR"@), BodyKind::Calendar, true)
}

/// What a marker found so far says.
struct Found {
    at: usize,
    kind: BodyKind,
    utf16: bool,
}

spec fn start_of(f: Option<Found>) -> Option<BodyStart> {
    match f {
        Some(f) => Some(BodyStart { at: f.at as int, kind: f.kind, utf16: f.utf16 }),
        None => None,
    }
}

fn look_for(best: Option<Found>, data: &[u8], marker: &[u8], kind: BodyKind, utf16: bool) -> (r:
    Option<Found>)
    requires
        marker@.len() > 0,
        best matches Some(b) ==> b.at <= data@.len(),
    ensures
        start_of(r) == nearer(start_of(best), data@, marker@, kind, utf16),
        r matches Some(f) ==> f.at <= data@.len(),
{
    match search::find_bytes(data, marker) {
        None => best,
        Some(at) => {
            if let Some(b) = &best {
                if b.at <= at {
                    return best;
                }
            }
            Some(Found { at, kind, utf16 })
        },
    }
}

fn find_body_start(data: &[u8]) -> (r: Option<Found>)
    ensures
        start_of(r) == body_start(data@),
        r matches Some(f) ==> f.at <= data@.len(),
{
    proof {
        reveal_strlit("<html");
        reveal_strlit("<HTML");
        reveal_strlit("{\\rtf");
        reveal_strlit("BEGIN:VCALENDAR");
    }
    let html: Vec<u8> = text::ascii_of("<html");
    let upper: Vec<u8> = text::ascii_of("<HTML");
    let rtf: Vec<u8> = text::ascii_of("{\\rtf");
    let calendar: Vec<u8> = text::ascii_of("BEGIN:VCALENDAR");
    let wide_html: Vec<u8> = wide_of("<html");
    let wide_calendar: Vec<u8> = wide_of("BEGIN:VCALENDAR");
    let a: Option<Found> = look_for(None, data, html.as_slice(), BodyKind::Html, false);
    let b: Option<Found> = look_for(a, data, upper.as_slice(), BodyKind::Html, false);
    let c: Option<Found> = look_for(b, data, wide_html.as_slice(), BodyKind::Html, true);
    let d: Option<Found> = look_for(c, data, rtf.as_slice(), BodyKind::Rtf, false);
    let e: Option<Found> = look_for(d, data, calendar.as_slice(), BodyKind::Calendar, false);
    look_for(e, data, wide_calendar.as_slice(), BodyKind::Calendar, true)
}

/// A byte run as text, in UTF-16LE or in UTF-8.
pub open spec fn best_effort(b: Seq<u8>, utf16: bool) -> Seq<char> {
    if utf16 {
        text::utf16_text(props::units(b))
    } else {
        text::lossy_text(b)
    }
}

fn decode_best_effort(b: &[u8], utf16: bool) -> (r: String)
    ensures
        r@ == best_effort(b@, utf16),
{
    if utf16 {
        props::utf16le(b)
    } else {
        text::lossy_string(b)
    }
}

/// The last place where `n` stands in `h`, whatever the case of ASCII letters.
pub open spec fn last_ignoring_case(h: Seq<char>, n: Seq<char>) -> Option<int> {
    search::last(text::ascii_lowered(h), text::ascii_lowered(n))
}

/// The first place where `n` stands in `h`, whatever the case of ASCII letters.
pub open spec fn first_ignoring_case(h: Seq<char>, n: Seq<char>) -> Option<int> {
    search::first(text::ascii_lowered(h), text::ascii_lowered(n))
}

/// A control character other than tab, line feed and carriage return.
pub open spec fn is_control(c: char) -> bool {
    let u = c as int;
    u <= 0x08 || u == 0x0B || u == 0x0C || 0x0E <= u <= 0x1F
}

/// The first of three control characters in a row, from `i` on.
pub open spec fn control_run_from(s: Seq<char>, i: int) -> Option<int>
    decreases s.len() - i,
{
    if i < 0 || i + 3 > s.len() {
        None
    } else if is_control(s[i]) && is_control(s[i + 1]) && is_control(s[i + 2]) {
        Some(i)
    } else {
        control_run_from(s, i + 1)
    }
}

/// `end`, or a place in front of it.
pub open spec fn cut(end: int, at: Option<int>) -> int {
    match at {
        Some(p) => if p < end {
            p
        } else {
            end
        },
        None => end,
    }
}

/// A place and the length of what stands there.
pub open spec fn past(at: Option<int>, n: nat) -> Option<int> {
    match at {
        Some(p) => Some(p + n),
        None => None,
    }
}

/// Where the format of a body says that it ends.
pub open spec fn closing(s: Seq<char>, kind: BodyKind) -> Option<int> {
    match kind {
        BodyKind::Html => match last_ignoring_case(s, "</html>"@) {
            Some(p) => Some(p + 7),
            None => past(last_ignoring_case(s, "</body>"@), 7),
        },
        BodyKind::Calendar => past(search::last(s, "END:VCALENDAR"@), 13),
        _ => None,
    }
}

/// Where the real content of a body ends: at its own closing tag or at the first
/// mark of what Outlook appends, whichever comes first.
pub open spec fn content_end(s: Seq<char>, kind: BodyKind) -> int {
    let a = cut(s.len() as int, closing(s, kind));
    let b = cut(a, search::first(s, "{\"MessageCardSerialized\":"@));
    let c = cut(b, search::first(s, "<?xml version=\"1.0\" encoding=\"utf-16\"?>"@));
    cut(c, control_run_from(s, 0))
}

/// A body without what Outlook appends to it.
pub open spec fn content(s: Seq<char>, kind: BodyKind) -> Seq<char> {
    text::trimmed_end(s.take(content_end(s, kind)))
}

/// What a `.olk15Message` file holds.
pub open spec fn message_body(data: Seq<u8>) -> Option<MessageBodyV> {
    let body = if data.len() >= 20 {
        data.skip(20)
    } else {
        seq![]
    };
    match body_start(body) {
        None => None,
        Some(f) => Some(
            MessageBodyV {
                kind: f.kind,
                text: content(best_effort(body.skip(f.at), f.utf16), f.kind),
            },
        ),
    }
}

fn rfind_ascii_ci(h: &[char], n: &str) -> (r: Option<usize>)
    requires
        n@.len() > 0,
    ensures
        match r {
            Some(p) => last_ignoring_case(h@, n@) == Some(p as int) && p + n@.len() <= h@.len() <= usize::MAX,
            None => last_ignoring_case(h@, n@) is None,
        },
{
    let lower: Vec<char> = text::to_ascii_lower(h);
    let needle: Vec<char> = text::to_ascii_lower(text::chars_of(n).as_slice());
    search::rfind_chars(lower.as_slice(), needle.as_slice())
}

fn find_ascii_ci(h: &[char], n: &str) -> (r: Option<usize>)
    requires
        n@.len() > 0,
    ensures
        match r {
            Some(p) => first_ignoring_case(h@, n@) == Some(p as int) && p + n@.len() <= h@.len() <= usize::MAX,
            None => first_ignoring_case(h@, n@) is None,
        },
{
    let lower: Vec<char> = text::to_ascii_lower(h);
    let needle: Vec<char> = text::to_ascii_lower(text::chars_of(n).as_slice());
    search::find_chars_from(lower.as_slice(), needle.as_slice(), 0)
}

fn find_text(h: &[char], n: &str) -> (r: Option<usize>)
    requires
        n@.len() > 0,
    ensures
        match r {
            Some(p) => search::first(h@, n@) == Some(p as int) && p + n@.len() <= h@.len() <= usize::MAX,
            None => search::first(h@, n@) is None,
        },
{
    search::find_chars_from(h, text::chars_of(n).as_slice(), 0)
}

fn control(c: char) -> (r: bool)
    ensures
        r == is_control(c),
{
    let u: u32 = c as u32;
    u <= 0x08 || u == 0x0B || u == 0x0C || (0x0E <= u && u <= 0x1F)
}

/// The first run of 3 or more control characters, which marks the start of binary
/// remnants past the real text.
fn find_control_run(s: &[char]) -> (r: Option<usize>)
    ensures
        match r {
            Some(p) => control_run_from(s@, 0) == Some(p as int) && p < s@.len() <= usize::MAX,
            None => control_run_from(s@, 0) is None,
        },
{
    let n: usize = s.len();
    let mut i: usize = 0;
    while i < n && n - i >= 3
        invariant
            n == s@.len(),
            i <= n,
            control_run_from(s@, i as int) == control_run_from(s@, 0),
        decreases n - i,
    {
        if control(s[i]) && control(s[i + 1]) && control(s[i + 2]) {
            return Some(i);
        }
        i = i + 1;
    }
    None
}

fn cut_at(end: usize, at: Option<usize>) -> (r: usize)
    ensures
        match at {
            Some(p) => r == cut(end as int, Some(p as int)),
            None => r == end,
        },
        r <= end,
{
    match at {
        Some(p) => if p < end {
            p
        } else {
            end
        },
        None => end,
    }
}

/// Outlook appends its own trailing metadata after the real content: a serialized
/// message card, an embedded XML fragment, or raw control bytes once the text run
/// ends. Cut at the earliest of: the format's own closing tag, or one of those
/// markers, whichever comes first.
fn truncate_trailing_metadata(s: &[char], kind: BodyKind) -> (r: String)
    ensures
        r@ == content(s@, kind),
{
    proof {
        reveal_strlit("</html>");
        reveal_strlit("</body>");
        reveal_strlit("END:VCALENDAR");
        reveal_strlit("{\"MessageCardSerialized\":");
        reveal_strlit("<?xml version=\"1.0\" encoding=\"utf-16\"?>");
    }
    let close: Option<usize> = match kind {
        BodyKind::Html => match rfind_ascii_ci(s, "</html>") {
            Some(p) => Some(p + 7),
            None => match rfind_ascii_ci(s, "</body>") {
                Some(p) => Some(p + 7),
                None => None,
            },
        },
        BodyKind::Calendar => match search::rfind_chars(
            s,
            text::chars_of("END:VCALENDAR").as_slice(),
        ) {
            Some(p) => Some(p + 13),
            None => None,
        },
        _ => None,
    };
    let a: usize = cut_at(s.len(), close);
    let b: usize = cut_at(a, find_text(s, "{\"MessageCardSerialized\":"));
    let c: usize = cut_at(b, find_text(s, "<?xml version=\"1.0\" encoding=\"utf-16\"?>"));
    let end: usize = cut_at(c, find_control_run(s));
    let front: &[char] = vstd::slice::slice_subrange(s, 0, end);
    assert(front@ =~= s@.take(end as int));
    text::string_of(text::trim_end(front))
}

/// Decode a `.olk15Message` binary cache into its body text.
///
/// The 20-byte header (4-byte magic, 16-byte UUID) is not validated strictly: a
/// file that does not start with [`MESSAGE_MAGIC`] is still scanned for a body
/// marker, since the magic byte layout is one of the least-confirmed parts of the
/// format. Without any marker there is no body.
pub fn parse_message(data: &[u8]) -> (r: Option<MessageBody>)
    ensures
        match r {
            Some(b) => message_body(data@) == Some(b@),
            None => message_body(data@) is None,
        },
{
    let n: usize = data.len();
    let lo: usize = if n >= 20 {
        20
    } else {
        n
    };
    let body: &[u8] = vstd::slice::slice_subrange(data, lo, n);
    assert(n >= 20 ==> body@ =~= data@.skip(20));
    assert(n < 20 ==> body@ =~= seq![]);
    let f: Found = match find_body_start(body) {
        Some(f) => f,
        None => {
            return None;
        },
    };
    let rest: &[u8] = vstd::slice::slice_subrange(body, f.at, body.len());
    assert(rest@ =~= body@.skip(f.at as int));
    let whole: String = decode_best_effort(rest, f.utf16);
    let cs: Vec<char> = text::chars_of(whole.as_str());
    Some(MessageBody { kind: f.kind, text: truncate_trailing_metadata(cs.as_slice(), f.kind) })
}

/// Whether `data` begins with the `.olk15Message` magic, for diagnostics: not
/// required for [`parse_message`] to work.
pub fn looks_like_message(data: &[u8]) -> (r: bool)
    ensures
        r == search::has_prefix(data@, MESSAGE_MAGIC@),
{
    let same: bool = data.len() >= 4 && data[0] == 0x0D && data[1] == 0 && data[2] == 0 && data[3]
        == 1;
    proof {
        lemma_prefix_of_four(data@, MESSAGE_MAGIC@);
    }
    same
}

proof fn lemma_prefix_of_four(s: Seq<u8>, p: Seq<u8>)
    requires
        p.len() == 4,
    ensures
        search::has_prefix(s, p) <==> s.len() >= 4 && s[0] == p[0] && s[1] == p[1] && s[2] == p[2]
            && s[3] == p[3],
{
    if s.len() >= 4 {
        let f = s.subrange(0, 4);
        assert(f[0] == s[0] && f[1] == s[1] && f[2] == s[2] && f[3] == s[3]);
        if s[0] == p[0] && s[1] == p[1] && s[2] == p[2] && s[3] == p[3] {
            assert(f =~= p);
        }
    }
}

/// Where the first MIME header that can open a message stands.
pub open spec fn header_start(data: Seq<u8>) -> Option<int> {
    let at = |m: Seq<char>| search::first(data, text::ascii_bytes(m));
    search::sooner(
        search::sooner(
            search::sooner(
                search::sooner(
                    search::sooner(search::sooner(at("Received:"@), at("From:"@)), at("Return-Path:"@)),
                    at("MIME-Version:"@),
                ),
                at("Date:"@),
            ),
            at("Subject:"@),
        ),
        at("Message-ID:"@),
    )
}

fn earlier_header(best: Option<usize>, data: &[u8], m: &str) -> (r: Option<usize>)
    requires
        m@.len() > 0,
        best matches Some(b) ==> b <= data@.len(),
    ensures
        search::place(r) == search::sooner(
            search::place(best),
            search::first(data@, text::ascii_bytes(m@)),
        ),
        r matches Some(b) ==> b <= data@.len(),
{
    search::sooner_of(best, search::find_bytes(data, text::ascii_of(m).as_slice()))
}

/// Strip the binary prefix ahead of a `.olk15MsgSource` file's actual MIME
/// bytes. Returns `None` when no MIME header marker is found at all.
pub fn parse_source(data: &[u8]) -> (r: Option<&[u8]>)
    ensures
        match r {
            Some(s) => header_start(data@) matches Some(p) && 0 <= p <= data@.len() && s@
                == data@.skip(p),
            None => header_start(data@) is None,
        },
{
    proof {
        reveal_strlit("Received:");
        reveal_strlit("From:");
        reveal_strlit("Return-Path:");
        reveal_strlit("MIME-Version:");
        reveal_strlit("Date:");
        reveal_strlit("Subject:");
        reveal_strlit("Message-ID:");
    }
    let a: Option<usize> = earlier_header(None, data, "Received:");
    let b: Option<usize> = earlier_header(a, data, "From:");
    let c: Option<usize> = earlier_header(b, data, "Return-Path:");
    let d: Option<usize> = earlier_header(c, data, "MIME-Version:");
    let e: Option<usize> = earlier_header(d, data, "Date:");
    let f: Option<usize> = earlier_header(e, data, "Subject:");
    match earlier_header(f, data, "Message-ID:") {
        None => None,
        Some(p) => {
            let s: &[u8] = vstd::slice::slice_subrange(data, p, data.len());
            assert(s@ =~= data@.skip(p as int));
            Some(s)
        },
    }
}

#[derive(Debug, Clone)]
pub struct ParsedAttachment {
    pub filename: Option<String>,
    pub content_type: Option<String>,
    pub bytes: Vec<u8>,
}

/// A decoded attachment with its texts as sequences of characters.
pub struct ParsedAttachmentV {
    pub filename: Option<Seq<char>>,
    pub content_type: Option<Seq<char>>,
    pub bytes: Seq<u8>,
}

impl View for ParsedAttachment {
    type V = ParsedAttachmentV;

    open spec fn view(&self) -> ParsedAttachmentV {
        ParsedAttachmentV {
            filename: text::opt_text(self.filename),
            content_type: text::opt_text(self.content_type),
            bytes: self.bytes@,
        }
    }
}

/// Where the headers of an attachment file end: at two carriage returns in a row.
pub open spec fn headers_end(data: Seq<u8>) -> Result<int, ErrorV> {
    if !search::has_prefix(data, ATTACHMENT_MAGIC@) {
        Err(ErrorV::Format("olk15MsgAttachment: missing d00d magic"@))
    } else {
        match search::first(data, seq![0x0Du8, 0x0D]) {
            Some(p) => Ok(p),
            None => Err(ErrorV::Format("olk15MsgAttachment: no \\r\\r header terminator"@)),
        }
    }
}

/// Validate the magic and find the `\r\r` header/payload boundary: the one step
/// [`parse_attachment`] and [`attachment_metadata`] share, so listing metadata
/// does not require decoding the base64 payload.
fn locate_attachment_header(data: &[u8]) -> (r: Result<usize, mailbox::Error>)
    ensures
        match r {
            Ok(p) => headers_end(data@) == Ok::<int, ErrorV>(p as int) && p + 2 <= data@.len()
                <= usize::MAX,
            Err(e) => headers_end(data@) == Err::<int, ErrorV>(e@),
        },
{
    let same: bool = data.len() >= 4 && data[0] == 0xd0 && data[1] == 0x0d && data[2] == 0
        && data[3] == 0;
    proof {
        lemma_prefix_of_four(data@, ATTACHMENT_MAGIC@);
    }
    if !same {
        return Err(mailbox::Error::Format("olk15MsgAttachment: missing d00d magic".to_owned()));
    }
    let marker: Vec<u8> = vec![0x0Du8, 0x0D];
    assert(marker@ =~= seq![0x0Du8, 0x0D]);
    match search::find_bytes(data, marker.as_slice()) {
        Some(p) => Ok(p),
        None => Err(
            mailbox::Error::Format("olk15MsgAttachment: no \\r\\r header terminator".to_owned()),
        ),
    }
}

/// The first semicolon or line break from `i` on; the end if there is none.
pub open spec fn value_end_from(s: Seq<char>, i: int) -> int
    decreases s.len() - i,
{
    if i < 0 || i >= s.len() {
        s.len() as int
    } else if s[i] == ';' || s[i] == '\r' || s[i] == '\n' {
        i
    } else {
        value_end_from(s, i + 1)
    }
}

/// The value behind a key, wherever it first stands and in whatever case: what is
/// between quotation marks, or else up to a semicolon or line break.
pub open spec fn header_value(headers: Seq<char>, key: Seq<char>) -> Option<Seq<char>> {
    match first_ignoring_case(headers, key) {
        None => None,
        Some(p) => {
            let rest = text::trimmed_start(headers.skip(p + key.len()));
            if rest.len() > 0 && rest[0] == '"' {
                let inner = rest.skip(1);
                match inner.index_of_first('"') {
                    Some(end) => Some(inner.take(end)),
                    None => None,
                }
            } else {
                let v = text::trimmed(rest.take(value_end_from(rest, 0)));
                if v.len() == 0 {
                    None
                } else {
                    Some(v)
                }
            }
        },
    }
}

fn find_value_end(s: &[char]) -> (r: usize)
    ensures
        r == value_end_from(s@, 0),
        r <= s@.len(),
{
    let n: usize = s.len();
    let mut i: usize = 0;
    while i < n
        invariant
            n == s@.len(),
            i <= n,
            value_end_from(s@, i as int) == value_end_from(s@, 0),
        decreases n - i,
    {
        if s[i] == ';' || s[i] == '\r' || s[i] == '\n' {
            return i;
        }
        i = i + 1;
    }
    n
}

fn extract_header_value(headers: &[char], key: &str) -> (r: Option<String>)
    requires
        key@.len() > 0,
    ensures
        text::opt_text(r) == header_value(headers@, key@),
{
    let p: usize = find_ascii_ci(headers, key)?;
    let start: usize = p + key.unicode_len();
    let behind: &[char] = vstd::slice::slice_subrange(headers, start, headers.len());
    assert(behind@ =~= headers@.skip(p + key@.len()));
    let rest: &[char] = text::trim_start(behind);
    if rest.len() > 0 && rest[0] == '"' {
        let inner: &[char] = vstd::slice::slice_subrange(rest, 1, rest.len());
        assert(inner@ =~= rest@.skip(1));
        match text::find_char(inner, '"') {
            Some(end) => {
                assert(inner@.subrange(0, end as int) =~= inner@.take(end as int));
                Some(text::string_range(inner, 0, end))
            },
            None => None,
        }
    } else {
        let end: usize = find_value_end(rest);
        let front: &[char] = vstd::slice::slice_subrange(rest, 0, end);
        assert(front@ =~= rest@.take(end as int));
        let v: &[char] = text::trim(front);
        if v.len() == 0 {
            None
        } else {
            Some(text::string_of(v))
        }
    }
}

/// The header text of an attachment file.
pub open spec fn headers_text(data: Seq<u8>, end: int) -> Seq<char> {
    text::lossy_text(data.take(end))
}

/// The file name and content type of an attachment file.
pub open spec fn metadata_of(data: Seq<u8>) -> Result<
    (Option<Seq<char>>, Option<Seq<char>>),
    ErrorV,
> {
    match headers_end(data) {
        Err(e) => Err(e),
        Ok(p) => Ok(
            (
                header_value(headers_text(data, p), "name="@),
                header_value(headers_text(data, p), "Content-type:"@),
            ),
        ),
    }
}

fn read_headers(data: &[u8], end: usize) -> (r: Vec<char>)
    requires
        end <= data@.len(),
    ensures
        r@ == headers_text(data@, end as int),
{
    let front: &[u8] = vstd::slice::slice_subrange(data, 0, end);
    assert(front@ =~= data@.take(end as int));
    text::chars_of(text::lossy_string(front).as_str())
}

/// Filename and content type only, without decoding the (possibly large) base64
/// payload: for listing attachments cheaply.
pub fn attachment_metadata(data: &[u8]) -> (r: Result<
    (Option<String>, Option<String>),
    mailbox::Error,
>)
    ensures
        match r {
            Ok((name, kind)) => metadata_of(data@) == Ok::<
                (Option<Seq<char>>, Option<Seq<char>>),
                ErrorV,
            >((text::opt_text(name), text::opt_text(kind))),
            Err(e) => metadata_of(data@) == Err::<(Option<Seq<char>>, Option<Seq<char>>), ErrorV>(
                e@,
            ),
        },
{
    proof {
        reveal_strlit("name=");
        reveal_strlit("Content-type:");
    }
    let end: usize = locate_attachment_header(data)?;
    let headers: Vec<char> = read_headers(data, end);
    Ok(
        (
            extract_header_value(headers.as_slice(), "name="),
            extract_header_value(headers.as_slice(), "Content-type:"),
        ),
    )
}

/// A byte that a base64 payload may hold, line breaks between its symbols too.
pub open spec fn payload_byte(c: u8) -> bool {
    0x30 <= c <= 0x39 || 0x41 <= c <= 0x5A || 0x61 <= c <= 0x7A || c == 0x2B || c == 0x2F || c
        == 0x3D || c == 0x0D || c == 0x0A
}

/// The symbols of a payload from `i` on: up to the first byte that cannot be part
/// of one, without the line breaks.
pub open spec fn payload_from(data: Seq<u8>, i: int) -> Seq<char>
    decreases data.len() - i,
{
    if i < 0 || i >= data.len() || !payload_byte(data[i]) {
        seq![]
    } else if data[i] == 0x0D || data[i] == 0x0A {
        payload_from(data, i + 1)
    } else {
        seq![data[i] as char] + payload_from(data, i + 1)
    }
}

fn read_payload(data: &[u8], from: usize) -> (r: String)
    requires
        from <= data@.len(),
    ensures
        r@ == payload_from(data@, from as int),
{
    let n: usize = data.len();
    let mut out: String = String::new();
    let mut i: usize = from;
    assert(out@ + payload_from(data@, i as int) =~= payload_from(data@, from as int));
    while i < n && is_payload_byte(data[i])
        invariant
            n == data@.len(),
            from <= i <= n,
            out@ + payload_from(data@, i as int) == payload_from(data@, from as int),
        decreases n - i,
    {
        let c: u8 = data[i];
        if c != 0x0D && c != 0x0A {
            proof {
                let rest = payload_from(data@, i + 1);
                assert(out@ + (seq![c as char] + rest) =~= out@.push(c as char) + rest);
            }
            out.push(c as char);
        }
        i = i + 1;
    }
    assert(out@ + payload_from(data@, i as int) =~= out@);
    out
}

fn is_payload_byte(c: u8) -> (r: bool)
    ensures
        r == payload_byte(c),
{
    (0x30 <= c && c <= 0x39) || (0x41 <= c && c <= 0x5A) || (0x61 <= c && c <= 0x7A) || c == 0x2B
        || c == 0x2F || c == 0x3D || c == 0x0D || c == 0x0A
}

/// Decode a `.olk15MsgAttachment` file: MIME-style headers (terminated by `\r\r`,
/// not the standard `\r\n\r\n`) followed by a base64 payload.
///
/// Padding is neither required nor rejected: the payload is trimmed at the first
/// byte that cannot be part of it, so `=` may or may not be present depending on
/// where that cut landed.
pub fn parse_attachment(data: &[u8]) -> (r: Result<ParsedAttachment, mailbox::Error>)
    ensures
        match headers_end(data@) {
            Err(e) => r matches Err(f) && f@ == e,
            Ok(p) => match r {
                Ok(a) => a@.filename == header_value(headers_text(data@, p), "name="@)
                    && a@.content_type == header_value(headers_text(data@, p), "Content-type:"@)
                    && b64::stands_for(payload_from(data@, p + 2), a@.bytes),
                Err(e) => e@ == ErrorV::Format("olk15MsgAttachment: invalid base64"@) && forall|
                    b: Seq<u8>,
                |
                    !#[trigger] b64::stands_for(payload_from(data@, p + 2), b),
            },
        },
{
    proof {
        reveal_strlit("name=");
        reveal_strlit("Content-type:");
    }
    let end: usize = locate_attachment_header(data)?;
    let payload: String = read_payload(data, end + 2);
    let bytes: Vec<u8> = match b64::decode(payload.as_str()) {
        Some(b) => b,
        None => {
            return Err(mailbox::Error::Format("olk15MsgAttachment: invalid base64".to_owned()));
        },
    };
    let headers: Vec<char> = read_headers(data, end);
    Ok(
        ParsedAttachment {
            filename: extract_header_value(headers.as_slice(), "name="),
            content_type: extract_header_value(headers.as_slice(), "Content-type:"),
            bytes,
        },
    )
}

} // verus!
