//! Laws of text in stored bytes: what was written is what is read.

use vstd::prelude::*;
use crate::bytes;
use crate::mac_outlook::hxrecord;
use crate::ost::props;
use crate::text;

verus! {

/// The UTF-16 units of a character: itself, or a pair of surrogates beyond the basic
/// plane.
pub open spec fn units_of(c: char) -> Seq<u16> {
    if (c as u32) < 0x1_0000 {
        seq![c as u16]
    } else {
        seq![
            (0xD800 + (c as int - 0x1_0000) / 0x400) as u16,
            (0xDC00 + (c as int - 0x1_0000) % 0x400) as u16,
        ]
    }
}

/// Text in UTF-16.
pub open spec fn utf16(s: Seq<char>) -> Seq<u16>
    decreases s.len(),
{
    if s.len() == 0 {
        seq![]
    } else {
        units_of(s[0]) + utf16(s.skip(1))
    }
}

/// Units as bytes, the lower one first.
pub open spec fn low_first(u: Seq<u16>) -> Seq<u8> {
    Seq::new(
        2 * u.len(),
        |i: int|
            if i % 2 == 0 {
                (u[i / 2] % 256) as u8
            } else {
                (u[i / 2] / 256) as u8
            },
    )
}

/// Text in UTF-16, as bytes.
pub open spec fn utf16_bytes(s: Seq<char>) -> Seq<u8> {
    low_first(utf16(s))
}

proof fn lemma_head_of(c: char, rest: Seq<u16>)
    ensures
        text::utf16_head(units_of(c) + rest) == (c, units_of(c).len() as int),
        units_of(c).len() == 1 || units_of(c).len() == 2,
{
    let u = units_of(c) + rest;
    let n = c as int;
    if n >= 0x1_0000 {
        let high = (n - 0x1_0000) / 0x400;
        let low = (n - 0x1_0000) % 0x400;
        assert(0 <= high < 0x400 && 0 <= low < 0x400);
        assert(u[0] == 0xD800 + high && u[1] == 0xDC00 + low);
        assert(0x1_0000 + high * 0x400 + low == n);
    } else {
        assert(u[0] == n);
    }
}

pub proof fn lemma_utf16_text(s: Seq<char>)
    ensures
        text::utf16_text(utf16(s)) == s,
    decreases s.len(),
{
    if s.len() > 0 {
        let rest = utf16(s.skip(1));
        lemma_head_of(s[0], rest);
        lemma_utf16_text(s.skip(1));
        assert((units_of(s[0]) + rest).skip(units_of(s[0]).len() as int) =~= rest);
        assert(seq![s[0]] + s.skip(1) =~= s);
    }
}

/// Reading UTF-16 gives back the text that was written.
pub proof fn lemma_utf16_round_trip(s: Seq<char>, u: &[u16], r: String)
    requires
        u@ == utf16(s),
        call_ensures(text::from_utf16_lossy, (u,), r),
    ensures
        r@ == s,
{
    lemma_utf16_text(s);
}

proof fn lemma_units_of_bytes(u: Seq<u16>)
    ensures
        props::units(low_first(u)) == u,
{
    let b = low_first(u);
    assert forall|i: int| 0 <= i < u.len() implies #[trigger] props::units(b)[i] == u[i] by {
        assert(b[2 * i] == (u[i] % 256) as u8 && b[2 * i + 1] == (u[i] / 256) as u8);
    }
    assert(props::units(b) =~= u);
}

/// Reading a Unicode string property gives back the text that was written.
pub proof fn lemma_unicode_property_round_trip(s: Seq<char>, b: &[u8], r: String)
    requires
        b@ == utf16_bytes(s),
        call_ensures(props::utf16le, (b,), r),
    ensures
        r@ == s,
{
    lemma_units_of_bytes(utf16(s));
    lemma_utf16_text(s);
}

/// A string value holds the text that was written, in UTF-16 or UTF-8 by its type.
pub proof fn lemma_string_value_of(s: Seq<char>, ptype: u16, b: Seq<u8>)
    requires
        ptype == 0x001F ==> b == utf16_bytes(s),
        ptype != 0x001F ==> b == vstd::utf8::encode_utf8(s),
    ensures
        props::string_value(ptype, b) == s,
{
    lemma_units_of_bytes(utf16(s));
    lemma_utf16_text(s);
    vstd::utf8::encode_utf8_valid_utf8(s);
    vstd::utf8::encode_utf8_decode_utf8(s);
}

/// A string property is read by its type: 0x001F as UTF-16, every other as UTF-8.
pub proof fn lemma_string_property_round_trip(s: Seq<char>, ptype: u16, b: &[u8], r: String)
    requires
        ptype == 0x001F ==> b@ == utf16_bytes(s),
        ptype != 0x001F ==> b@ == vstd::utf8::encode_utf8(s),
        call_ensures(props::decode_string, (ptype, b), r),
    ensures
        r@ == s,
{
    lemma_units_of_bytes(utf16(s));
    lemma_utf16_text(s);
    vstd::utf8::encode_utf8_valid_utf8(s);
    vstd::utf8::encode_utf8_decode_utf8(s);
}

/// Characters that a recovered text can hold: printable ASCII and what lies from the
/// no-break space on, without the surrogates and the last three of the basic plane.
pub open spec fn recoverable(c: char) -> bool {
    ||| 0x20 <= c as u32 && (c as u32) < 0x7F
    ||| 0xA0 <= c as u32 && (c as u32) < 0xFFFD
    ||| 0x1_0000 <= c as u32
}

/// Whether a text stands in a block at `i`, in UTF-16 with a NUL behind it, in front
/// of `hi`.
pub open spec fn written_at(blob: Seq<u8>, i: int, hi: int, s: Seq<char>) -> bool {
    let n = utf16_bytes(s).len();
    &&& 0 <= i && i + n + 2 <= hi <= blob.len()
    &&& blob.subrange(i, i + n) == utf16_bytes(s)
    &&& blob[i + n] == 0 && blob[i + n + 1] == 0
}

proof fn lemma_bytes_of_front(c: char, rest: Seq<char>)
    ensures
        ({
            let all = seq![c] + rest;
            let n = 2 * units_of(c).len() as int;
            &&& utf16_bytes(all).len() == n + utf16_bytes(rest).len()
            &&& utf16_bytes(all).subrange(0, n) == low_first(units_of(c))
            &&& utf16_bytes(all).skip(n) == utf16_bytes(rest)
        }),
{
    let all = seq![c] + rest;
    assert(all.skip(1) =~= rest);
    let n = 2 * units_of(c).len() as int;
    let b = utf16_bytes(all);
    assert(utf16(all) == units_of(c) + utf16(rest));
    assert(b.subrange(0, n) =~= low_first(units_of(c)));
    assert forall|i: int| 0 <= i < utf16_bytes(rest).len() implies b.skip(n)[i] == #[trigger] utf16_bytes(
        rest,
    )[i] by {
        assert((n + i) / 2 == units_of(c).len() + i / 2);
        assert((n + i) % 2 == i % 2);
    }
    assert(b.skip(n) =~= utf16_bytes(rest));
}

proof fn lemma_run_char_of(blob: Seq<u8>, i: int, hi: int, c: char)
    requires
        0 <= i,
        i + 2 * units_of(c).len() + 2 <= hi <= blob.len(),
        blob.subrange(i, i + 2 * units_of(c).len()) == low_first(units_of(c)),
        recoverable(c),
    ensures
        hxrecord::run_char(blob, i, hi) == Some((c, 2 * units_of(c).len() as int)),
{
    let u = units_of(c);
    let s = blob.subrange(i, i + 2 * u.len());
    let n = c as int;
    assert(s[0] == blob[i] && s[1] == blob[i + 1]);
    assert(s[0] == (u[0] % 256) as u8 && s[1] == (u[0] / 256) as u8);
    assert(bytes::le16(blob, i) == u[0]);
    if n >= 0x1_0000 {
        let high = (n - 0x1_0000) / 0x400;
        let low = (n - 0x1_0000) % 0x400;
        assert(0 <= high < 0x400 && 0 <= low < 0x400);
        assert(s[2] == blob[i + 2] && s[3] == blob[i + 3]);
        assert(s[2] == (u[1] % 256) as u8 && s[3] == (u[1] / 256) as u8);
        assert(bytes::le16(blob, i + 2) == u[1]);
        assert(u[0] == 0xD800 + high && u[1] == 0xDC00 + low);
        assert(0x1_0000 + high * 0x400 + low == n);
        assert(blob[i + 1] != 0);
    } else {
        assert(u[0] == n);
    }
}

proof fn lemma_run_of(blob: Seq<u8>, i: int, hi: int, s: Seq<char>)
    requires
        written_at(blob, i, hi, s),
        forall|k: int| 0 <= k < s.len() ==> recoverable(#[trigger] s[k]),
    ensures
        hxrecord::run(blob, i, hi) == (s, i + utf16_bytes(s).len()),
    decreases s.len(),
{
    if s.len() == 0 {
        assert(utf16_bytes(s).len() == 0);
        assert(bytes::le16(blob, i) == 0);
        assert(hxrecord::run_char(blob, i, hi) is None);
        assert(hxrecord::run(blob, i, hi).0 =~= s);
    } else {
        let c = s[0];
        let rest = s.skip(1);
        let n = 2 * units_of(c).len() as int;
        assert(seq![c] + rest =~= s);
        lemma_bytes_of_front(c, rest);
        lemma_head_of(c, seq![]);
        let all = utf16_bytes(s);
        let m = all.len() as int;
        assert(blob.subrange(i, i + n) =~= blob.subrange(i, i + m).subrange(0, n));
        assert(blob.subrange(i + n, i + m) =~= blob.subrange(i, i + m).skip(n));
        lemma_run_char_of(blob, i, hi, c);
        assert forall|k: int| 0 <= k < rest.len() implies recoverable(#[trigger] rest[k]) by {
            assert(rest[k] == s[k + 1]);
        }
        lemma_run_of(blob, i + n, hi, rest);
    }
}

/// Reading back what was written: where a text of recoverable characters stands in a
/// block with a NUL behind it, the run read there is that text, and it ends at the
/// NUL.
pub proof fn lemma_run_reads_what_was_written(blob: Seq<u8>, i: int, hi: int, s: Seq<char>)
    requires
        written_at(blob, i, hi, s),
        s.len() > 0,
        0x20 <= s[0] as u32,
        (s[0] as u32) < 0x7F,
        forall|k: int| 0 <= k < s.len() ==> recoverable(#[trigger] s[k]),
    ensures
        hxrecord::run(blob, i, hi) == (s, i + utf16_bytes(s).len()),
        hxrecord::ascii_pair(blob, i),
{
    lemma_run_of(blob, i, hi, s);
    let c = s[0];
    let rest = s.skip(1);
    assert(seq![c] + rest =~= s);
    lemma_bytes_of_front(c, rest);
    let m = utf16_bytes(s).len() as int;
    let b = blob.subrange(i, i + m);
    assert(b.subrange(0, 2) =~= low_first(units_of(c)));
    assert(b.subrange(0, 2)[0] == b[0] && b.subrange(0, 2)[1] == b[1]);
}

} // verus!
