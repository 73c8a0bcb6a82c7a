//! Laws of the data files of Outlook for Mac: what part of a file is shown.

use vstd::prelude::*;
use crate::b64;
use crate::laws::records::{ascii, stands};
use crate::laws::same_text;
use crate::mac_outlook::olk15;
use crate::mac_outlook::olk15::{BodyKind, MessageBody, ParsedAttachment};
use crate::mailbox;
use crate::ost::props;
use crate::search;
use crate::text;

verus! {

/// An ASCII text stands at `p` with a zero behind each of its characters.
pub open spec fn stands_wide(b: Seq<u8>, p: int, s: Seq<char>) -> bool {
    &&& 0 <= p && p + 2 * s.len() <= b.len()
    &&& forall|k: int|
        0 <= k < s.len() ==> b[p + 2 * k] == #[trigger] (s[k]) as u8 && b[p + 2 * k + 1] == 0
}

/// A body of this kind, in UTF-16 or not, begins at `p`.
pub open spec fn begins(b: Seq<u8>, p: int, kind: BodyKind, wide: bool) -> bool {
    match kind {
        BodyKind::Html => if wide {
            stands_wide(b, p, "<html"@)
        } else {
            stands(b, p, "<html"@) || stands(b, p, "<HTML"@)
        },
        BodyKind::Rtf => !wide && stands(b, p, "{\\rtf"@),
        BodyKind::Calendar => if wide {
            stands_wide(b, p, "BEGIN:VCALENDAR"@)
        } else {
            stands(b, p, "BEGIN:VCALENDAR"@)
        },
        _ => false,
    }
}

/// Some body begins at `p`.
pub open spec fn some_body(b: Seq<u8>, p: int) -> bool {
    begins(b, p, BodyKind::Html, false) || begins(b, p, BodyKind::Html, true) || begins(
        b,
        p,
        BodyKind::Rtf,
        false,
    ) || begins(b, p, BodyKind::Calendar, false) || begins(b, p, BodyKind::Calendar, true)
}

proof fn lemma_stands(b: Seq<u8>, p: int, s: Seq<char>)
    ensures
        stands(b, p, s) == search::stands_at(b, text::ascii_bytes(s), p),
{
    assert(ascii(s) =~= text::ascii_bytes(s));
}

proof fn lemma_stands_wide(b: Seq<u8>, p: int, s: Seq<char>)
    ensures
        stands_wide(b, p, s) == search::stands_at(b, olk15::wide(s), p),
{
    let w = olk15::wide(s);
    if 0 <= p && p + 2 * s.len() <= b.len() {
        let part = b.subrange(p, p + w.len());
        if stands_wide(b, p, s) {
            assert forall|i: int| 0 <= i < w.len() implies part[i] == w[i] by {
                let k = i / 2;
                assert(b[p + 2 * k] == s[k] as u8 && b[p + 2 * k + 1] == 0);
                assert(i == 2 * k || i == 2 * k + 1);
            }
            assert(part =~= w);
        }
        if part == w {
            assert forall|k: int| 0 <= k < s.len() implies b[p + 2 * k] == #[trigger] (s[k]) as u8
                && b[p + 2 * k + 1] == 0 by {
                assert(part[2 * k] == w[2 * k]);
                assert(part[2 * k + 1] == w[2 * k + 1]);
                assert((2 * k) / 2 == k && (2 * k + 1) % 2 == 1);
            }
        }
    }
}

/// Two needles that differ in their first two bytes do not stand in one place.
proof fn lemma_apart(b: Seq<u8>, p: int, m: Seq<u8>, n: Seq<u8>)
    requires
        m.len() >= 2,
        n.len() >= 2,
        m[0] != n[0] || m[1] != n[1],
    ensures
        !(search::stands_at(b, m, p) && search::stands_at(b, n, p)),
{
    if search::stands_at(b, m, p) && search::stands_at(b, n, p) {
        let x = b.subrange(p, p + m.len());
        let y = b.subrange(p, p + n.len());
        assert(x[0] == b[p] && x[1] == b[p + 1]);
        assert(y[0] == b[p] && y[1] == b[p + 1]);
    }
}

/// What looking for one more marker does to the place found so far, where the sought
/// one is known.
proof fn lemma_nearer(
    best: Option<olk15::BodyStart>,
    b: Seq<u8>,
    m: Seq<u8>,
    kind: BodyKind,
    wide: bool,
    p: int,
)
    requires
        m.len() > 0,
        0 <= p,
        forall|k: int| 0 <= k < p ==> !#[trigger] search::stands_at(b, m, k),
        best matches Some(s) ==> s.at >= p,
        best matches Some(s) && s.at == p ==> !search::stands_at(b, m, p),
    ensures
        ({
            let r = olk15::nearer(best, b, m, kind, wide);
            &&& r matches Some(s) ==> s.at >= p
            &&& search::stands_at(b, m, p) ==> r == Some(olk15::BodyStart { at: p, kind, utf16: wide })
            &&& !search::stands_at(b, m, p) && (best matches Some(s) && s.at == p) ==> r == best
            &&& !search::stands_at(b, m, p) && !(best matches Some(s) && s.at == p) ==> !(
            r matches Some(s) && s.at == p)
        }),
{
    search::lemma_first_from(b, m, 0);
    if let Some(q) = search::first(b, m) {
        if q < p {
            assert(!search::stands_at(b, m, q));
        }
    }
}

proof fn lemma_body_start(b: Seq<u8>, p: int, kind: BodyKind, wide: bool)
    requires
        begins(b, p, kind, wide),
        forall|k: int| 0 <= k < p ==> !#[trigger] some_body(b, k),
    ensures
        olk15::body_start(b) == Some(olk15::BodyStart { at: p, kind, utf16: wide }),
{
    reveal_strlit("<html");
    reveal_strlit("<HTML");
    reveal_strlit("{\\rtf");
    reveal_strlit("BEGIN:VCALENDAR");
    let m1 = text::ascii_bytes("<html"@);
    let m2 = text::ascii_bytes("<HTML"@);
    let m3 = olk15::wide("<html"@);
    let m4 = text::ascii_bytes("{\\rtf"@);
    let m5 = text::ascii_bytes("BEGIN:VCALENDAR"@);
    let m6 = olk15::wide("BEGIN:VCALENDAR"@);
    assert forall|k: int| 0 <= k < p implies !search::stands_at(b, m1, k) && !search::stands_at(
        b,
        m2,
        k,
    ) && !search::stands_at(b, m3, k) && !search::stands_at(b, m4, k) && !search::stands_at(
        b,
        m5,
        k,
    ) && !#[trigger] search::stands_at(b, m6, k) by {
        assert(!some_body(b, k));
        lemma_stands(b, k, "<html"@);
        lemma_stands(b, k, "<HTML"@);
        lemma_stands_wide(b, k, "<html"@);
        lemma_stands(b, k, "{\\rtf"@);
        lemma_stands(b, k, "BEGIN:VCALENDAR"@);
        lemma_stands_wide(b, k, "BEGIN:VCALENDAR"@);
    }
    assert forall|k: int| 0 <= k < p implies !#[trigger] search::stands_at(b, m1, k) by {
        assert(!search::stands_at(b, m6, k));
    }
    assert forall|k: int| 0 <= k < p implies !#[trigger] search::stands_at(b, m2, k) by {
        assert(!search::stands_at(b, m6, k));
    }
    assert forall|k: int| 0 <= k < p implies !#[trigger] search::stands_at(b, m3, k) by {
        assert(!search::stands_at(b, m6, k));
    }
    assert forall|k: int| 0 <= k < p implies !#[trigger] search::stands_at(b, m4, k) by {
        assert(!search::stands_at(b, m6, k));
    }
    assert forall|k: int| 0 <= k < p implies !#[trigger] search::stands_at(b, m5, k) by {
        assert(!search::stands_at(b, m6, k));
    }
    lemma_stands(b, p, "<html"@);
    lemma_stands(b, p, "<HTML"@);
    lemma_stands_wide(b, p, "<html"@);
    lemma_stands(b, p, "{\\rtf"@);
    lemma_stands(b, p, "BEGIN:VCALENDAR"@);
    lemma_stands_wide(b, p, "BEGIN:VCALENDAR"@);
    lemma_apart(b, p, m1, m2);
    lemma_apart(b, p, m1, m3);
    lemma_apart(b, p, m1, m4);
    lemma_apart(b, p, m1, m5);
    lemma_apart(b, p, m1, m6);
    lemma_apart(b, p, m2, m3);
    lemma_apart(b, p, m2, m4);
    lemma_apart(b, p, m2, m5);
    lemma_apart(b, p, m2, m6);
    lemma_apart(b, p, m3, m4);
    lemma_apart(b, p, m3, m5);
    lemma_apart(b, p, m3, m6);
    lemma_apart(b, p, m4, m5);
    lemma_apart(b, p, m4, m6);
    lemma_apart(b, p, m5, m6);
    let r1 = olk15::nearer(None, b, m1, BodyKind::Html, false);
    lemma_nearer(None, b, m1, BodyKind::Html, false, p);
    let r2 = olk15::nearer(r1, b, m2, BodyKind::Html, false);
    lemma_nearer(r1, b, m2, BodyKind::Html, false, p);
    let r3 = olk15::nearer(r2, b, m3, BodyKind::Html, true);
    lemma_nearer(r2, b, m3, BodyKind::Html, true, p);
    let r4 = olk15::nearer(r3, b, m4, BodyKind::Rtf, false);
    lemma_nearer(r3, b, m4, BodyKind::Rtf, false, p);
    let r5 = olk15::nearer(r4, b, m5, BodyKind::Calendar, false);
    lemma_nearer(r4, b, m5, BodyKind::Calendar, false, p);
    lemma_nearer(r5, b, m6, BodyKind::Calendar, true, p);
}

/// A text stands at `p` in another.
pub open spec fn text_at(s: Seq<char>, p: int, t: Seq<char>) -> bool {
    0 <= p && p + t.len() <= s.len() && s.subrange(p, p + t.len()) == t
}

/// A text stands at `p` in another, whatever the case of its ASCII letters.
pub open spec fn text_at_any_case(s: Seq<char>, p: int, t: Seq<char>) -> bool {
    text_at(text::ascii_lowered(s), p, text::ascii_lowered(t))
}

/// The last place with the property is `p`.
pub open spec fn last_place(holds: spec_fn(int) -> bool, p: int) -> bool {
    holds(p) && forall|k: int| p < k ==> !#[trigger] holds(k)
}

/// The format of a body ends it at `e`: behind the last closing tag of markup, the
/// one of the whole document before the one of its body; behind the last closing line
/// of a calendar.
pub open spec fn closed_at(s: Seq<char>, kind: BodyKind, e: int) -> bool {
    match kind {
        BodyKind::Html => last_place(|p: int| text_at_any_case(s, p, "</html>"@), e - 7) || ((
        forall|p: int| !#[trigger] text_at_any_case(s, p, "</html>"@)) && last_place(
            |p: int| text_at_any_case(s, p, "</body>"@),
            e - 7,
        )),
        BodyKind::Calendar => last_place(|p: int| text_at(s, p, "END:VCALENDAR"@), e - 13),
        _ => false,
    }
}

/// A control character that is no tab and no line break.
pub open spec fn control(c: char) -> bool {
    (c as int) < 32 && c as int != 9 && c as int != 10 && c as int != 13
}

/// Something that does not belong to the body stands at `e`.
pub open spec fn foreign_at(s: Seq<char>, e: int) -> bool {
    text_at(s, e, "{\"MessageCardSerialized\":"@) || text_at(
        s,
        e,
        "<?xml version=\"1.0\" encoding=\"utf-16\"?>"@,
    ) || (0 <= e && e + 3 <= s.len() && control(s[e]) && control(s[e + 1]) && control(s[e + 2]))
}

/// The body ends at `e`: where its format ends it or something foreign follows,
/// whichever is first; else with the text.
pub open spec fn body_ends(s: Seq<char>, kind: BodyKind, e: int) -> bool {
    &&& 0 <= e <= s.len()
    &&& e == s.len() || closed_at(s, kind, e) || foreign_at(s, e)
    &&& forall|k: int| #[trigger] closed_at(s, kind, k) ==> e <= k
    &&& forall|k: int| #[trigger] foreign_at(s, k) ==> e <= k
}

proof fn lemma_last(h: Seq<char>, n: Seq<char>, i: int)
    requires
        i <= h.len(),
    ensures
        match search::last_below(h, n, i) {
            Some(p) => p < i && search::stands_at(h, n, p) && forall|k: int|
                p < k < i ==> !#[trigger] search::stands_at(h, n, k),
            None => forall|k: int| k < i ==> !#[trigger] search::stands_at(h, n, k),
        },
    decreases i,
{
    if i > 0 && !search::stands_at(h, n, i - 1) {
        lemma_last(h, n, i - 1);
    }
}

proof fn lemma_controls(s: Seq<char>, i: int)
    requires
        0 <= i,
    ensures
        match olk15::control_run_from(s, i) {
            Some(p) => i <= p && p + 3 <= s.len() && control(s[p]) && control(s[p + 1]) && control(
                s[p + 2],
            ) && forall|k: int|
                i <= k < p ==> !(control(#[trigger] s[k]) && control(s[k + 1]) && control(
                    s[k + 2],
                )),
            None => forall|k: int|
                i <= k && k + 3 <= s.len() ==> !(control(#[trigger] s[k]) && control(s[k + 1])
                    && control(s[k + 2])),
        },
    decreases s.len() - i,
{
    assert forall|c: char| olk15::is_control(c) == #[trigger] control(c) by {}
    if i + 3 <= s.len() && !(control(s[i]) && control(s[i + 1]) && control(s[i + 2])) {
        lemma_controls(s, i + 1);
    }
}

proof fn lemma_closing(s: Seq<char>, kind: BodyKind)
    ensures
        match olk15::closing(s, kind) {
            Some(e) => closed_at(s, kind, e) && e <= s.len() && forall|k: int| #[trigger]
                closed_at(s, kind, k) ==> k == e,
            None => forall|k: int| !#[trigger] closed_at(s, kind, k),
        },
{
    reveal_strlit("</html>");
    reveal_strlit("</body>");
    reveal_strlit("END:VCALENDAR");
    let low = text::ascii_lowered(s);
    let html = text::ascii_lowered("</html>"@);
    let body = text::ascii_lowered("</body>"@);
    let n = s.len() as int;
    lemma_last(low, html, n);
    lemma_last(low, body, n);
    lemma_last(s, "END:VCALENDAR"@, n);
    assert forall|p: int| #[trigger] text_at_any_case(s, p, "</html>"@) == search::stands_at(
        low,
        html,
        p,
    ) by {}
    assert forall|p: int| #[trigger] text_at_any_case(s, p, "</body>"@) == search::stands_at(
        low,
        body,
        p,
    ) by {}
    assert forall|p: int| #[trigger] text_at(s, p, "END:VCALENDAR"@) == search::stands_at(
        s,
        "END:VCALENDAR"@,
        p,
    ) by {}
    let ends_html = |p: int| text_at_any_case(s, p, "</html>"@);
    let ends_body = |p: int| text_at_any_case(s, p, "</body>"@);
    let ends_calendar = |p: int| text_at(s, p, "END:VCALENDAR"@);
    assert forall|k: int| closed_at(s, kind, k) && olk15::closing(s, kind) is None implies false by {
        match kind {
            BodyKind::Html => {
                if last_place(ends_html, k - 7) {
                    assert(text_at_any_case(s, k - 7, "</html>"@));
                } else {
                    assert(text_at_any_case(s, k - 7, "</body>"@));
                }
            },
            BodyKind::Calendar => {
                assert(text_at(s, k - 13, "END:VCALENDAR"@));
            },
            _ => {},
        }
    }
    if let Some(e) = olk15::closing(s, kind) {
        match kind {
            BodyKind::Html => {
                if search::last(low, html) is Some {
                    assert(last_place(ends_html, e - 7)) by {
                        assert(text_at_any_case(s, e - 7, "</html>"@));
                        assert forall|k: int| e - 7 < k implies !#[trigger] ends_html(k) by {
                            assert(text_at_any_case(s, k, "</html>"@) == search::stands_at(
                                low,
                                html,
                                k,
                            ));
                        }
                    }
                    assert(text_at_any_case(s, e - 7, "</html>"@));
                    assert forall|k: int| #[trigger] closed_at(s, kind, k) implies k == e by {
                        assert(ends_html(e - 7));
                        if k - 7 < e - 7 {
                            assert(!(last_place(ends_html, k - 7)));
                        }
                    }
                } else {
                    assert(forall|p: int| !#[trigger] text_at_any_case(s, p, "</html>"@));
                    assert(last_place(ends_body, e - 7)) by {
                        assert(text_at_any_case(s, e - 7, "</body>"@));
                        assert forall|k: int| e - 7 < k implies !#[trigger] ends_body(k) by {
                            assert(text_at_any_case(s, k, "</body>"@) == search::stands_at(
                                low,
                                body,
                                k,
                            ));
                        }
                    }
                    assert forall|k: int| #[trigger] closed_at(s, kind, k) implies k == e by {
                        if last_place(ends_html, k - 7) {
                            assert(text_at_any_case(s, k - 7, "</html>"@));
                        }
                        assert(ends_body(e - 7));
                        assert(ends_body(k - 7));
                    }
                }
            },
            BodyKind::Calendar => {
                assert(last_place(ends_calendar, e - 13)) by {
                    assert(text_at(s, e - 13, "END:VCALENDAR"@));
                    assert forall|k: int| e - 13 < k implies !#[trigger] ends_calendar(k) by {
                        assert(text_at(s, k, "END:VCALENDAR"@) == search::stands_at(
                            s,
                            "END:VCALENDAR"@,
                            k,
                        ));
                    }
                }
                assert forall|k: int| #[trigger] closed_at(s, kind, k) implies k == e by {
                    assert(ends_calendar(e - 13));
                    assert(ends_calendar(k - 13));
                }
            },
            _ => {},
        }
    }
}

proof fn lemma_body_ends(s: Seq<char>, kind: BodyKind, e: int)
    requires
        body_ends(s, kind, e),
    ensures
        olk15::content_end(s, kind) == e,
{
    reveal_strlit("{\"MessageCardSerialized\":");
    reveal_strlit("<?xml version=\"1.0\" encoding=\"utf-16\"?>");
    let card = "{\"MessageCardSerialized\":"@;
    let xml = "<?xml version=\"1.0\" encoding=\"utf-16\"?>"@;
    lemma_closing(s, kind);
    search::lemma_first_from(s, card, 0);
    search::lemma_first_from(s, xml, 0);
    lemma_controls(s, 0);
    assert forall|p: int| text_at(s, p, card) == #[trigger] search::stands_at(s, card, p) by {}
    assert forall|p: int| text_at(s, p, xml) == #[trigger] search::stands_at(s, xml, p) by {}
    if let Some(p) = search::first(s, card) {
        assert(foreign_at(s, p));
    }
    if let Some(p) = search::first(s, xml) {
        assert(foreign_at(s, p));
    }
    if let Some(p) = olk15::control_run_from(s, 0) {
        assert(foreign_at(s, p));
    }
    if let Some(p) = olk15::closing(s, kind) {
        assert(closed_at(s, kind, p));
    }
    if foreign_at(s, e) {
        assert(search::stands_at(s, card, e) == text_at(s, e, card));
        assert(search::stands_at(s, xml, e) == text_at(s, e, xml));
    }
}

/// The body of a message file begins at the first marker behind its header of 20
/// bytes, is of the kind that the marker says, and ends where `e` is; blanks at its
/// end are left out. `whole` is the text from the marker on.
pub proof fn lemma_body_of_a_message_file(
    data: &[u8],
    p: int,
    kind: BodyKind,
    wide: bool,
    rest: &[u8],
    whole: String,
    e: int,
    r: Option<MessageBody>,
)
    requires
        data@.len() >= 20,
        begins(data@.skip(20), p, kind, wide),
        forall|k: int| 0 <= k < p ==> !#[trigger] some_body(data@.skip(20), k),
        rest@ == data@.skip(20 + p),
        wide ==> call_ensures(props::utf16le, (rest,), whole),
        !wide ==> call_ensures(text::lossy_string, (rest,), whole),
        body_ends(whole@, kind, e),
        call_ensures(olk15::parse_message, (data,), r),
    ensures
        r matches Some(b) && b.kind == kind && b.text@ == text::trimmed_end(whole@.take(e)),
{
    let b = data@.skip(20);
    lemma_body_start(b, p, kind, wide);
    assert(0 <= p <= b.len());
    assert(b.skip(p) =~= rest@);
    lemma_body_ends(whole@, kind, e);
}

/// Without a marker there is no body.
pub proof fn lemma_no_body(data: &[u8], r: Option<MessageBody>)
    requires
        data@.len() < 20 || forall|k: int| !#[trigger] some_body(data@.skip(20), k),
        call_ensures(olk15::parse_message, (data,), r),
    ensures
        r is None,
{
    reveal_strlit("<html");
    reveal_strlit("<HTML");
    reveal_strlit("{\\rtf");
    reveal_strlit("BEGIN:VCALENDAR");
    let b = if data@.len() >= 20 {
        data@.skip(20)
    } else {
        seq![]
    };
    let m1 = text::ascii_bytes("<html"@);
    let m2 = text::ascii_bytes("<HTML"@);
    let m3 = olk15::wide("<html"@);
    let m4 = text::ascii_bytes("{\\rtf"@);
    let m5 = text::ascii_bytes("BEGIN:VCALENDAR"@);
    let m6 = olk15::wide("BEGIN:VCALENDAR"@);
    search::lemma_first_from(b, m1, 0);
    search::lemma_first_from(b, m2, 0);
    search::lemma_first_from(b, m3, 0);
    search::lemma_first_from(b, m4, 0);
    search::lemma_first_from(b, m5, 0);
    search::lemma_first_from(b, m6, 0);
    assert forall|k: int| !search::stands_at(b, m1, k) && !search::stands_at(b, m2, k)
        && !search::stands_at(b, m3, k) && !search::stands_at(b, m4, k) && !search::stands_at(
        b,
        m5,
        k,
    ) && !#[trigger] search::stands_at(b, m6, k) by {
        if data@.len() >= 20 {
            assert(!some_body(b, k));
        }
        lemma_stands(b, k, "<html"@);
        lemma_stands(b, k, "<HTML"@);
        lemma_stands_wide(b, k, "<html"@);
        lemma_stands(b, k, "{\\rtf"@);
        lemma_stands(b, k, "BEGIN:VCALENDAR"@);
        lemma_stands_wide(b, k, "BEGIN:VCALENDAR"@);
    }
    if let Some(p) = search::first(b, m1) {
        assert(!search::stands_at(b, m6, p));
    }
    if let Some(p) = search::first(b, m2) {
        assert(!search::stands_at(b, m6, p));
    }
    if let Some(p) = search::first(b, m3) {
        assert(!search::stands_at(b, m6, p));
    }
    if let Some(p) = search::first(b, m4) {
        assert(!search::stands_at(b, m6, p));
    }
    if let Some(p) = search::first(b, m5) {
        assert(!search::stands_at(b, m6, p));
    }
}

/// The headers of an attachment file end at `p`: it begins with its mark, and the
/// first two carriage returns in a row stand there.
pub open spec fn headers_end_at(data: Seq<u8>, p: int) -> bool {
    &&& data.len() >= 4 && data[0] == 0xD0 && data[1] == 0x0D && data[2] == 0 && data[3] == 0
    &&& 0 <= p && p + 2 <= data.len() && data[p] == 13 && data[p + 1] == 13
    &&& forall|k: int| 0 <= k < p ==> !(#[trigger] data[k] == 13 && data[k + 1] == 13)
}

proof fn lemma_headers_end(data: Seq<u8>, p: int)
    requires
        headers_end_at(data, p),
    ensures
        olk15::headers_end(data) == Ok::<int, crate::errors::ErrorV>(p),
{
    let m = olk15::ATTACHMENT_MAGIC@;
    assert(data.subrange(0, 4) =~= m);
    let two = seq![0x0Du8, 0x0D];
    search::lemma_first_from(data, two, 0);
    assert(data.subrange(p, p + 2) =~= two);
    assert(search::stands_at(data, two, p));
    if let Some(q) = search::first(data, two) {
        assert(data.subrange(q, q + 2)[0] == data[q] && data.subrange(q, q + 2)[1] == data[q + 1]);
        if q < p {
            assert(data[q] == 13 && data[q + 1] == 13);
        }
    }
}

/// `v` is the value behind the key at `p` in the headers: what stands between two
/// quotation marks, or else what stands in front of a semicolon or the end of the
/// line, without blanks around it. An empty one is none.
pub open spec fn value_behind(headers: Seq<char>, p: int, key: Seq<char>, v: Option<String>) -> bool {
    let rest = text::trimmed_start(headers.skip(p + key.len()));
    if rest.len() > 0 && rest[0] == '"' {
        match v {
            Some(s) => s@.len() + 1 < rest.len() && s@ == rest.subrange(1, s@.len() as int + 1)
                && rest[s@.len() as int + 1] == '"' && forall|k: int|
                0 <= k < s@.len() ==> #[trigger] s@[k] != '"',
            None => forall|k: int| 1 <= k < rest.len() ==> #[trigger] rest[k] != '"',
        }
    } else {
        exists|e: int| #[trigger] value_to(rest, e, v)
    }
}

/// `v` is what stands in front of `e`, where the first character that ends a value
/// stands, or the end.
pub open spec fn value_to(rest: Seq<char>, e: int, v: Option<String>) -> bool {
    &&& 0 <= e <= rest.len()
    &&& e == rest.len() || ends_value(rest[e])
    &&& forall|k: int| 0 <= k < e ==> !ends_value(#[trigger] rest[k])
    &&& match v {
        Some(s) => s@ == text::trimmed(rest.take(e)) && s@.len() > 0,
        None => text::trimmed(rest.take(e)).len() == 0,
    }
}

/// A character that ends a value.
pub open spec fn ends_value(c: char) -> bool {
    c == ';' || c == '\r' || c == '\n'
}

/// The first place where a key stands in the headers, whatever its case.
pub open spec fn key_at(headers: Seq<char>, key: Seq<char>, p: int) -> bool {
    text_at_any_case(headers, p, key) && forall|k: int|
        0 <= k < p ==> !#[trigger] text_at_any_case(headers, k, key)
}

proof fn lemma_value_end(s: Seq<char>, i: int)
    requires
        0 <= i <= s.len(),
    ensures
        ({
            let e = olk15::value_end_from(s, i);
            &&& i <= e <= s.len()
            &&& e < s.len() ==> ends_value(s[e])
            &&& forall|k: int| i <= k < e ==> !ends_value(#[trigger] s[k])
        }),
    decreases s.len() - i,
{
    if i < s.len() && !ends_value(s[i]) {
        lemma_value_end(s, i + 1);
    }
}

proof fn lemma_value(headers: Seq<char>, key: Seq<char>, p: int, v: Option<String>)
    requires
        key.len() > 0,
        key_at(headers, key, p),
        text::opt_text(v) == olk15::header_value(headers, key),
    ensures
        value_behind(headers, p, key, v),
{
    let low = text::ascii_lowered(headers);
    let k2 = text::ascii_lowered(key);
    search::lemma_first_from(low, k2, 0);
    assert(search::stands_at(low, k2, p));
    if let Some(q) = search::first(low, k2) {
        if q < p {
            assert(text_at_any_case(headers, q, key));
        }
    }
    assert(olk15::first_ignoring_case(headers, key) == Some(p));
    let rest = text::trimmed_start(headers.skip(p + key.len()));
    if rest.len() > 0 && rest[0] == '"' {
        let inner = rest.skip(1);
        inner.index_of_first_ensures('"');
        match v {
            Some(s) => {
                let end = inner.index_of_first('"')->Some_0;
                assert(s@ == inner.take(end));
                assert(s@ =~= rest.subrange(1, s@.len() as int + 1));
                assert(rest[s@.len() as int + 1] == inner[end]);
                assert forall|k: int| 0 <= k < s@.len() implies #[trigger] s@[k] != '"' by {
                    assert(s@[k] == inner[k]);
                }
            },
            None => {
                assert forall|k: int| 1 <= k < rest.len() implies #[trigger] rest[k] != '"' by {
                    assert(rest[k] == inner[k - 1]);
                    assert(!inner.contains('"'));
                }
            },
        }
    } else {
        lemma_value_end(rest, 0);
        let e = olk15::value_end_from(rest, 0);
        assert(value_to(rest, e, v));
    }
}

/// An attachment file names itself in its headers: its file name stands behind
/// `name=`, its type behind `Content-type:`, as they first occur there.
pub proof fn lemma_attachment_names_itself(
    data: &[u8],
    end: int,
    headers: &[u8],
    decoded: String,
    name_at: int,
    type_at: int,
    r: Result<(Option<String>, Option<String>), mailbox::Error>,
)
    requires
        headers_end_at(data@, end),
        headers@ == data@.take(end),
        call_ensures(text::lossy_string, (headers,), decoded),
        key_at(decoded@, "name="@, name_at),
        key_at(decoded@, "Content-type:"@, type_at),
        call_ensures(olk15::attachment_metadata, (data,), r),
    ensures
        r matches Ok((name, kind)) && value_behind(decoded@, name_at, "name="@, name)
            && value_behind(decoded@, type_at, "Content-type:"@, kind),
{
    reveal_strlit("name=");
    reveal_strlit("Content-type:");
    lemma_headers_end(data@, end);
    if let Ok((name, kind)) = r {
        lemma_value(decoded@, "name="@, name_at, name);
        lemma_value(decoded@, "Content-type:"@, type_at, kind);
    }
}

/// A line break within a payload.
pub open spec fn line_break(c: u8) -> bool {
    c == 13 || c == 10
}

/// The symbols of a payload: its bytes as characters, but for line breaks.
pub open spec fn symbols(b: Seq<u8>) -> Seq<char>
    decreases b.len(),
{
    if b.len() == 0 {
        seq![]
    } else if line_break(b[0]) {
        symbols(b.skip(1))
    } else {
        seq![b[0] as char] + symbols(b.skip(1))
    }
}

/// A letter, a digit, one of the other symbols of base64, or a line break.
pub open spec fn in_payload(c: u8) -> bool {
    ||| 'A' <= c as char && c as char <= 'Z'
    ||| 'a' <= c as char && c as char <= 'z'
    ||| '0' <= c as char && c as char <= '9'
    ||| c as char == '+' || c as char == '/' || c as char == '='
    ||| line_break(c)
}

proof fn lemma_payload(data: Seq<u8>, from: int, to: int)
    requires
        0 <= from <= to <= data.len(),
        forall|k: int| from <= k < to ==> in_payload(#[trigger] data[k]),
        to == data.len() || !in_payload(data[to]),
    ensures
        olk15::payload_from(data, from) == symbols(data.subrange(from, to)),
    decreases to - from,
{
    let part = data.subrange(from, to);
    if from < to {
        assert(in_payload(data[from]));
        lemma_payload(data, from + 1, to);
        assert(part.skip(1) =~= data.subrange(from + 1, to));
        assert(part[0] == data[from]);
    }
}

/// An attachment file gives back the bytes whose base64 stands behind its headers, in
/// however many lines, up to the first byte that can be no part of it.
pub proof fn lemma_attachment_gives_its_bytes(
    data: &[u8],
    end: int,
    to: int,
    b: Seq<u8>,
    r: Result<ParsedAttachment, mailbox::Error>,
    said: Result<(Option<String>, Option<String>), mailbox::Error>,
)
    requires
        headers_end_at(data@, end),
        end + 2 <= to <= data@.len(),
        forall|k: int| end + 2 <= k < to ==> in_payload(#[trigger] data@[k]),
        to == data@.len() || !in_payload(data@[to]),
        b64::stands_for(symbols(data@.subrange(end + 2, to)), b),
        call_ensures(olk15::parse_attachment, (data,), r),
        call_ensures(olk15::attachment_metadata, (data,), said),
    ensures
        r matches Ok(a) && a.bytes@ == b && (said matches Ok((name, kind)) && same_text(
            a.filename,
            name,
        ) && same_text(a.content_type, kind)),
{
    lemma_headers_end(data@, end);
    lemma_payload(data@, end + 2, to);
    match r {
        Ok(a) => {
            b64::lemma_base64_unique(symbols(data@.subrange(end + 2, to)), a.bytes@, b);
        },
        Err(_) => {
            assert(!b64::stands_for(olk15::payload_from(data@, end + 2), b));
        },
    }
}

/// One of the headers with which a message may begin stands at `p`.
pub open spec fn header_at(b: Seq<u8>, p: int) -> bool {
    stands(b, p, "Received:"@) || stands(b, p, "From:"@) || stands(b, p, "Return-Path:"@) || stands(
        b,
        p,
        "MIME-Version:"@,
    ) || stands(b, p, "Date:"@) || stands(b, p, "Subject:"@) || stands(b, p, "Message-ID:"@)
}

proof fn lemma_first_of(b: Seq<u8>, m: Seq<char>, p: int)
    requires
        m.len() > 0,
        0 <= p,
        forall|k: int| 0 <= k < p ==> !#[trigger] stands(b, k, m),
    ensures
        ({
            let f = search::first(b, text::ascii_bytes(m));
            &&& f matches Some(q) ==> q >= p && stands(b, q, m)
            &&& stands(b, p, m) ==> f == Some(p)
        }),
{
    let n = text::ascii_bytes(m);
    search::lemma_first_from(b, n, 0);
    assert forall|k: int| #[trigger] search::stands_at(b, n, k) == stands(b, k, m) by {
        lemma_stands(b, k, m);
    }
    if let Some(q) = search::first(b, n) {
        assert(search::stands_at(b, n, q));
        if q < p {
            assert(!stands(b, q, m));
        }
    }
    if stands(b, p, m) {
        assert(search::stands_at(b, n, p));
    }
}

/// The source of a message begins at the first of its headers.
pub proof fn lemma_source_begins_at_a_header(data: &[u8], p: int, r: Option<&[u8]>)
    requires
        header_at(data@, p),
        forall|k: int| 0 <= k < p ==> !#[trigger] header_at(data@, k),
        call_ensures(olk15::parse_source, (data,), r),
    ensures
        r matches Some(s) && s@ == data@.skip(p),
{
    reveal_strlit("Received:");
    reveal_strlit("From:");
    reveal_strlit("Return-Path:");
    reveal_strlit("MIME-Version:");
    reveal_strlit("Date:");
    reveal_strlit("Subject:");
    reveal_strlit("Message-ID:");
    let b = data@;
    assert forall|k: int| 0 <= k < p implies !#[trigger] stands(b, k, "Received:"@) by {
        assert(!header_at(b, k));
    }
    assert forall|k: int| 0 <= k < p implies !#[trigger] stands(b, k, "From:"@) by {
        assert(!header_at(b, k));
    }
    assert forall|k: int| 0 <= k < p implies !#[trigger] stands(b, k, "Return-Path:"@) by {
        assert(!header_at(b, k));
    }
    assert forall|k: int| 0 <= k < p implies !#[trigger] stands(b, k, "MIME-Version:"@) by {
        assert(!header_at(b, k));
    }
    assert forall|k: int| 0 <= k < p implies !#[trigger] stands(b, k, "Date:"@) by {
        assert(!header_at(b, k));
    }
    assert forall|k: int| 0 <= k < p implies !#[trigger] stands(b, k, "Subject:"@) by {
        assert(!header_at(b, k));
    }
    assert forall|k: int| 0 <= k < p implies !#[trigger] stands(b, k, "Message-ID:"@) by {
        assert(!header_at(b, k));
    }
    lemma_first_of(b, "Received:"@, p);
    lemma_first_of(b, "From:"@, p);
    lemma_first_of(b, "Return-Path:"@, p);
    lemma_first_of(b, "MIME-Version:"@, p);
    lemma_first_of(b, "Date:"@, p);
    lemma_first_of(b, "Subject:"@, p);
    lemma_first_of(b, "Message-ID:"@, p);
}

} // verus!
