//! Property types and value decoding helpers.

use vstd::prelude::*;
use crate::bytes;
use crate::calendar;
use crate::text;

pub mod pid;

verus! {

pub const PT_I16: u16 = 0x0002;
pub const PT_I32: u16 = 0x0003;
pub const PT_F32: u16 = 0x0004;
pub const PT_F64: u16 = 0x0005;
pub const PT_BOOL: u16 = 0x000B;
pub const PT_OBJECT: u16 = 0x000D;
pub const PT_I64: u16 = 0x0014;
pub const PT_STRING8: u16 = 0x001E;
pub const PT_UNICODE: u16 = 0x001F;
pub const PT_SYSTIME: u16 = 0x0040;
pub const PT_GUID: u16 = 0x0048;
pub const PT_BINARY: u16 = 0x0102;

/// `PidTagMessageFlags` bit 0: the message has been read.
pub const MSGFLAG_READ: i32 = 0x01;
/// `PidTagMessageFlags` bit 4: the message has at least one attachment. This is
/// the only place a contents table records it.
pub const MSGFLAG_HASATTACH: i32 = 0x10;

/// The 16-bit units of a byte run; an odd last byte is left out.
pub open spec fn units(b: Seq<u8>) -> Seq<u16> {
    Seq::new(b.len() / 2, |i: int| bytes::le16(b, 2 * i) as u16)
}

/// Little-endian UTF-16 as text.
pub fn utf16le(b: &[u8]) -> (r: String)
    ensures
        r@ == text::utf16_text(units(b@)),
{
    let mut u: Vec<u16> = Vec::new();
    let n: usize = b.len() / 2;
    let mut i: usize = 0;
    while i < n
        invariant
            i <= n,
            n == b@.len() / 2,
            2 * n <= b@.len() <= usize::MAX,
            u@ == units(b@).take(i as int),
        decreases n - i,
    {
        u.push(bytes::u16le(b, 2 * i));
        i = i + 1;
    }
    assert(units(b@).take(i as int) =~= units(b@));
    text::from_utf16_lossy(u.as_slice())
}

/// The text of a string property of the given type.
pub open spec fn string_value(ptype: u16, b: Seq<u8>) -> Seq<char> {
    if ptype == PT_UNICODE {
        text::utf16_text(units(b))
    } else {
        text::lossy_text(b)
    }
}

/// Decode a string property according to its property type.
pub fn decode_string(ptype: u16, b: &[u8]) -> (r: String)
    ensures
        r@ == string_value(ptype, b@),
        ptype != PT_UNICODE && vstd::utf8::valid_utf8(b@) ==> r@ == vstd::utf8::decode_utf8(b@),
{
    if ptype == PT_UNICODE {
        utf16le(b)
    } else {
        text::lossy_string(b)
    }
}

/// The units from `at` up to a zero unit or the end of the buffer.
pub open spec fn units_before_zero(b: Seq<u8>, at: int) -> Seq<u16>
    decreases b.len() - at,
{
    if at + 2 > b.len() || bytes::le16(b, at) == 0 {
        seq![]
    } else {
        seq![bytes::le16(b, at) as u16] + units_before_zero(b, at + 2)
    }
}

/// Where the first zero byte from `at` on stands; the length if there is none.
pub open spec fn zero_byte_from(b: Seq<u8>, at: int) -> int
    decreases b.len() - at,
{
    if at >= b.len() {
        b.len() as int
    } else if b[at] == 0 {
        at
    } else {
        zero_byte_from(b, at + 1)
    }
}

/// The null-terminated string at `at` and the offset just past its terminator.
pub open spec fn string_at(b: Seq<u8>, at: int, unicode: bool) -> Option<(Seq<char>, int)> {
    if unicode {
        let u = units_before_zero(b, at);
        let end = at + 2 * u.len() + 2;
        if end <= b.len() {
            Some((text::utf16_text(u), end))
        } else {
            None
        }
    } else {
        let z = zero_byte_from(b, at);
        if z < b.len() {
            Some((text::lossy_text(b.subrange(at, z)), z + 1))
        } else {
            None
        }
    }
}

/// Read a null-terminated string starting at `at`, returning it with the offset
/// just past its terminator.
fn string_z(b: &[u8], at: usize, unicode: bool) -> (r: Option<(String, usize)>)
    requires
        at <= b@.len(),
    ensures
        match r {
            Some((s, end)) => string_at(b@, at as int, unicode) == Some((s@, end as int)) && end
                <= b@.len(),
            None => string_at(b@, at as int, unicode) is None,
        },
{
    let n: usize = b.len();
    let mut i: usize = at;
    if unicode {
        let mut u: Vec<u16> = Vec::new();
        assert(u@ + units_before_zero(b@, i as int) =~= units_before_zero(b@, at as int));
        while n - i >= 2 && bytes::u16le(b, i) != 0
            invariant
                n == b@.len(),
                at <= i <= n,
                i == at + 2 * u@.len(),
                u@ + units_before_zero(b@, i as int) == units_before_zero(b@, at as int),
            decreases n - i,
        {
            let unit: u16 = bytes::u16le(b, i);
            proof {
                assert(u@ + (seq![unit] + units_before_zero(b@, i + 2)) =~= u@.push(unit)
                    + units_before_zero(b@, i + 2));
            }
            u.push(unit);
            i = i + 2;
        }
        assert(u@ + units_before_zero(b@, i as int) =~= u@);
        if n - i >= 2 {
            Some((text::from_utf16_lossy(u.as_slice()), i + 2))
        } else {
            None
        }
    } else {
        while i < n && b[i] != 0
            invariant
                n == b@.len(),
                at <= i <= n,
                zero_byte_from(b@, i as int) == zero_byte_from(b@, at as int),
            decreases n - i,
        {
            i = i + 1;
        }
        if i < n {
            let s: String = text::lossy_string(vstd::slice::slice_subrange(b, at, i));
            Some((s, i + 1))
        } else {
            None
        }
    }
}

/// `muidOOP`, the provider UID of a One-Off EntryID. This is the form an internet
/// sender takes, and the only form that spells out an address.
pub open spec fn muid_oop() -> Seq<u8> {
    seq![
        0x81u8, 0x2B, 0x1F, 0xA4, 0xBE, 0xA3, 0x10, 0x19, 0x9D, 0x6E, 0x00, 0xDD, 0x01, 0x0F, 0x54,
        0x02,
    ]
}

fn is_one_off(b: &[u8]) -> (r: bool)
    ensures
        r == (b@.len() >= 24 && b@.subrange(4, 20) == muid_oop()),
{
    if b.len() < 24 {
        return false;
    }
    let same: bool = b[4] == 0x81 && b[5] == 0x2B && b[6] == 0x1F && b[7] == 0xA4 && b[8] == 0xBE
        && b[9] == 0xA3 && b[10] == 0x10 && b[11] == 0x19 && b[12] == 0x9D && b[13] == 0x6E && b[14]
        == 0x00 && b[15] == 0xDD && b[16] == 0x01 && b[17] == 0x0F && b[18] == 0x54 && b[19]
        == 0x02;
    proof {
        let s = b@.subrange(4, 20);
        if same {
            assert(s =~= muid_oop());
        } else {
            assert(forall|i: int| 0 <= i < 16 ==> s[i] == b@[i + 4]);
            assert(s[0] != muid_oop()[0] || s[1] != muid_oop()[1] || s[2] != muid_oop()[2] || s[3]
                != muid_oop()[3] || s[4] != muid_oop()[4] || s[5] != muid_oop()[5] || s[6]
                != muid_oop()[6] || s[7] != muid_oop()[7] || s[8] != muid_oop()[8] || s[9]
                != muid_oop()[9] || s[10] != muid_oop()[10] || s[11] != muid_oop()[11] || s[12]
                != muid_oop()[12] || s[13] != muid_oop()[13] || s[14] != muid_oop()[14] || s[15]
                != muid_oop()[15]);
        }
    }
    same
}

/// The name and address of a One-Off EntryID: three null-terminated strings from
/// byte 24 on, the name, the address type and the address.
pub open spec fn one_off_address(b: Seq<u8>) -> Option<(Option<Seq<char>>, Option<Seq<char>>)> {
    let unicode = bytes::le16(b, 22) >= 0x8000;
    if b.len() < 24 || b.subrange(4, 20) != muid_oop() {
        None
    } else {
        match string_at(b, 24, unicode) {
            None => None,
            Some((name, a1)) => match string_at(b, a1, unicode) {
                None => None,
                Some((kind, a2)) => match string_at(b, a2, unicode) {
                    None => None,
                    Some((addr, _)) => Some(
                        (
                            if name.len() > 0 {
                                Some(name)
                            } else {
                                None
                            },
                            if text::ascii_lowered(kind) == text::ascii_lowered("SMTP"@)
                                && addr.contains('@') {
                                Some(addr)
                            } else {
                                None
                            },
                        ),
                    ),
                },
            },
        }
    }
}

/// The characters of an optional pair of optional strings.
pub open spec fn pair_text(r: Option<(Option<String>, Option<String>)>) -> Option<
    (Option<Seq<char>>, Option<Seq<char>>),
> {
    match r {
        Some((a, b)) => Some((text::opt_text(a), text::opt_text(b))),
        None => None,
    }
}

/// Display name and SMTP address out of an EntryID such as
/// `PidTagSenderEntryId`.
///
/// Gives nothing for anything that is not a One-Off EntryID, and an address only
/// when the EntryID declares its type as SMTP.
pub fn entryid_address(b: &[u8]) -> (r: Option<(Option<String>, Option<String>)>)
    ensures
        pair_text(r) == one_off_address(b@),
{
    if !is_one_off(b) {
        return None;
    }
    // The high bit of the flags word says whether the three strings that follow
    // are UTF-16 or 8-bit.
    let unicode: bool = bytes::u16le(b, 22) >= 0x8000;
    let (name, a1) = string_z(b, 24, unicode)?;
    let (kind, a2) = string_z(b, a1, unicode)?;
    let (addr, _) = string_z(b, a2, unicode)?;
    let smtp: bool = text::eq_ignore_ascii_case(kind.as_str(), "SMTP");
    let email: Option<String> = if smtp && text::contains_char(
        text::chars_of(addr.as_str()).as_slice(),
        '@',
    ) {
        Some(addr)
    } else {
        None
    };
    let shown: Option<String> = if name.as_str().unicode_len() > 0 {
        Some(name)
    } else {
        None
    };
    Some((shown, email))
}

/// A subject without its prefix escape: U+0001 and the character after it.
pub open spec fn subject_text(s: Seq<char>) -> Seq<char> {
    if s.len() > 0 && s[0] == '\u{1}' {
        if s.len() > 1 {
            s.skip(2)
        } else {
            seq![]
        }
    } else {
        s
    }
}

/// `PidTagSubject` may carry a prefix escape: U+0001, then a character giving the
/// length of the prefix ("RE: ", "FW: ") that follows it.
pub fn clean_subject(s: &str) -> (r: String)
    ensures
        r@ == subject_text(s@),
{
    let cs: Vec<char> = text::chars_of(s);
    if cs.len() > 0 && cs[0] == '\u{1}' {
        if cs.len() > 1 {
            assert(cs@.subrange(2, cs@.len() as int) =~= cs@.skip(2));
            text::string_range(cs.as_slice(), 2, cs.len())
        } else {
            String::new()
        }
    } else {
        text::string_of(cs.as_slice())
    }
}

/// Microseconds from the Unix epoch to a FILETIME, which counts 100 ns ticks from
/// 1601-01-01. Zero means "unset".
pub open spec fn filetime_us(ft: u64) -> Option<i64> {
    if ft == 0 {
        None
    } else {
        Some((ft as int / 10 - 11_644_473_600_000_000) as i64)
    }
}

/// Windows FILETIME to microseconds since the Unix epoch.
pub fn filetime_to_unix_us(ft: u64) -> (r: Option<i64>)
    ensures
        r == filetime_us(ft),
        r matches Some(us) ==> us == ft as int / 10 - 11_644_473_600_000_000,
{
    if ft == 0 {
        return None;
    }
    Some((ft / 10) as i64 - 11_644_473_600_000_000)
}

/// A year with at least four places, its sign among them.
pub open spec fn year_text(y: int) -> Seq<char> {
    if y < 0 {
        seq!['-'] + text::zero_padded(text::dec((-y) as nat), 3)
    } else {
        text::zero_padded(text::dec(y as nat), 4)
    }
}

/// A number with at least two places.
pub open spec fn two_places(n: int) -> Seq<char> {
    text::zero_padded(text::dec(n as nat), 2)
}

/// `YYYY-MM-DD HH:MM:SS` for microseconds since the Unix epoch.
pub open spec fn time_text(us: int) -> Seq<char> {
    let secs = us / 1_000_000;
    let (y, m, d) = calendar::civil(secs / 86_400);
    let rem = secs % 86_400;
    year_text(y) + "-"@ + two_places(m) + "-"@ + two_places(d) + " "@ + two_places(rem / 3600)
        + ":"@ + two_places((rem % 3600) / 60) + ":"@ + two_places(rem % 60)
}

fn two_digits(n: i64) -> (r: String)
    requires
        0 <= n,
    ensures
        r@ == two_places(n as int),
{
    text::zero_pad(text::dec_string(n as u64).as_str(), 2)
}

/// `YYYY-MM-DD HH:MM:SS` for microseconds since the Unix epoch.
pub fn format_time_us(us: i64) -> (r: String)
    ensures
        r@ == time_text(us as int),
{
    let secs: i64 = calendar::floor_div(us, 1_000_000);
    let days: i64 = calendar::floor_div(secs, 86_400);
    let rem: i64 = calendar::floor_rem(secs, 86_400);
    let date: calendar::Date = calendar::date_of(days);
    proof {
        calendar::lemma_civil_is_that_day(days as int);
    }
    let year: String = if date.year < 0 {
        text::cat2("-", text::zero_pad(text::dec_string((-date.year) as u64).as_str(), 3).as_str())
    } else {
        text::zero_pad(text::dec_string(date.year as u64).as_str(), 4)
    };
    proof {
        reveal_strlit("-");
        assert("-"@ =~= seq!['-']);
    }
    let ym: String = text::cat3(year.as_str(), "-", two_digits(date.month).as_str());
    let ymd: String = text::cat3(ym.as_str(), "-", two_digits(date.day).as_str());
    let h: String = text::cat3(ymd.as_str(), " ", two_digits(rem / 3600).as_str());
    let hm: String = text::cat3(h.as_str(), ":", two_digits((rem % 3600) / 60).as_str());
    text::cat3(hm.as_str(), ":", two_digits(rem % 60).as_str())
}

/// A time of day on a date, each part of it in its places.
#[verifier::opaque]
spec fn places(y: int, m: int, d: int, rem: int) -> Seq<char> {
    seq![
        text::hex_digit(y / 1000),
        text::hex_digit(y / 100 % 10),
        text::hex_digit(y / 10 % 10),
        text::hex_digit(y % 10),
        '-',
        text::hex_digit(m / 10),
        text::hex_digit(m % 10),
        '-',
        text::hex_digit(d / 10),
        text::hex_digit(d % 10),
        ' ',
        text::hex_digit(rem / 3600 / 10),
        text::hex_digit(rem / 3600 % 10),
        ':',
        text::hex_digit(rem % 3600 / 60 / 10),
        text::hex_digit(rem % 3600 / 60 % 10),
        ':',
        text::hex_digit(rem % 60 / 10),
        text::hex_digit(rem % 60 % 10),
    ]
}

proof fn lemma_two_places(n: int)
    requires
        0 <= n < 100,
    ensures
        two_places(n) == seq![text::hex_digit(n / 10), text::hex_digit(n % 10)],
{
    reveal_with_fuel(text::dec, 2);
    assert(two_places(n) =~= seq![text::hex_digit(n / 10), text::hex_digit(n % 10)]);
}

proof fn lemma_year_text(y: int)
    requires
        0 <= y < 10_000,
    ensures
        year_text(y) == seq![
            text::hex_digit(y / 1000),
            text::hex_digit(y / 100 % 10),
            text::hex_digit(y / 10 % 10),
            text::hex_digit(y % 10),
        ],
{
    reveal_with_fuel(text::dec, 4);
    assert(year_text(y) =~= seq![
        text::hex_digit(y / 1000),
        text::hex_digit(y / 100 % 10),
        text::hex_digit(y / 10 % 10),
        text::hex_digit(y % 10),
    ]);
}

/// From the year 0 to the year 9999.
proof fn lemma_year_has_four_places(days: int)
    requires
        -719_528 <= days < 2_932_897,
    ensures
        0 <= calendar::civil(days).0 < 10_000,
{
    let (y, m, d) = calendar::civil(days);
    calendar::lemma_civil_is_that_day(days);
    assert(calendar::day_number(0, 1, 1) == -719_528);
    assert(calendar::day_number(10_000, 1, 1) == 2_932_897);
    if y < 0 {
        calendar::lemma_day_number_orders(y, m, d, 0, 1, 1);
    }
    if y >= 10_000 && !(y == 10_000 && m == 1 && d == 1) {
        calendar::lemma_day_number_orders(10_000, 1, 1, y, m, d);
    }
}

proof fn lemma_time_in_places(us: int)
    requires
        -62_167_219_200_000_000 <= us < 253_402_300_800_000_000,
    ensures
        ({
            let secs = us / 1_000_000;
            let (y, m, d) = calendar::civil(secs / 86_400);
            &&& 0 <= y < 10_000
            &&& calendar::valid_date(y, m, d)
            &&& time_text(us) == places(y, m, d, secs % 86_400)
            &&& time_text(us).len() == 19
        }),
{
    let secs = us / 1_000_000;
    let (y, m, d) = calendar::civil(secs / 86_400);
    let rem = secs % 86_400;
    lemma_year_has_four_places(secs / 86_400);
    calendar::lemma_civil_is_that_day(secs / 86_400);
    lemma_year_text(y);
    lemma_two_places(m);
    lemma_two_places(d);
    lemma_two_places(rem / 3600);
    lemma_two_places(rem % 3600 / 60);
    lemma_two_places(rem % 60);
    reveal_strlit("-");
    reveal_strlit(" ");
    reveal_strlit(":");
    reveal(places);
    assert(time_text(us) =~= places(y, m, d, rem));
}

/// Two numbers that differ, both of two places, differ first in the higher place
/// or in the lower, and there as they do.
proof fn lemma_places_order(m: int, n: int)
    requires
        0 <= m < n < 100,
    ensures
        m / 10 < n / 10 || (m / 10 == n / 10 && m % 10 < n % 10),
        0 <= m / 10 <= 9 && 0 <= n / 10 <= 9,
{
}

/// The places of a year, taken together, are the year.
proof fn lemma_year_places(y: int)
    requires
        0 <= y < 10_000,
    ensures
        y / 100 == 10 * (y / 1000) + y / 100 % 10,
        y / 10 == 10 * (y / 100) + y / 10 % 10,
        y == 10 * (y / 10) + y % 10,
        0 <= y / 1000 <= 9,
        0 <= y / 100 % 10 <= 9,
        0 <= y / 10 % 10 <= 9,
        0 <= y % 10 <= 9,
{
}

/// An earlier year comes first.
proof fn lemma_years_order(y1: int, m1: int, d1: int, t1: int, y2: int, m2: int, d2: int, t2: int)
    requires
        0 <= y1 < y2 < 10_000,
    ensures
        text::precedes(places(y1, m1, d1, t1), places(y2, m2, d2, t2)),
{
    let a = places(y1, m1, d1, t1);
    let b = places(y2, m2, d2, t2);
    reveal(places);
    lemma_year_places(y1);
    lemma_year_places(y2);
    if y1 / 1000 < y2 / 1000 {
        assert(text::parts_at(a, b, 0));
    } else if y1 / 100 < y2 / 100 {
        assert(text::parts_at(a, b, 1));
    } else if y1 / 10 < y2 / 10 {
        assert(text::parts_at(a, b, 2));
    } else {
        assert(text::parts_at(a, b, 3));
    }
}

/// In one year, an earlier day comes first.
proof fn lemma_days_order(y: int, m1: int, d1: int, t1: int, m2: int, d2: int, t2: int)
    requires
        0 <= m1 <= m2 < 100,
        0 <= d1 < 100,
        0 <= d2 < 100,
        m1 < m2 || d1 < d2,
    ensures
        text::precedes(places(y, m1, d1, t1), places(y, m2, d2, t2)),
{
    let a = places(y, m1, d1, t1);
    let b = places(y, m2, d2, t2);
    reveal(places);
    if m1 < m2 {
        lemma_places_order(m1, m2);
        if m1 / 10 < m2 / 10 {
            assert(text::parts_at(a, b, 5));
        } else {
            assert(text::parts_at(a, b, 6));
        }
    } else {
        lemma_places_order(d1, d2);
        if d1 / 10 < d2 / 10 {
            assert(text::parts_at(a, b, 8));
        } else {
            assert(text::parts_at(a, b, 9));
        }
    }
}

/// On one day, an earlier time comes first.
proof fn lemma_times_order(y: int, m: int, d: int, t1: int, t2: int)
    requires
        0 <= t1 < t2 < 86_400,
    ensures
        text::precedes(places(y, m, d, t1), places(y, m, d, t2)),
{
    let a = places(y, m, d, t1);
    let b = places(y, m, d, t2);
    reveal(places);
    if t1 / 3600 < t2 / 3600 {
        lemma_places_order(t1 / 3600, t2 / 3600);
        if t1 / 3600 / 10 < t2 / 3600 / 10 {
            assert(text::parts_at(a, b, 11));
        } else {
            assert(text::parts_at(a, b, 12));
        }
    } else if t1 % 3600 / 60 < t2 % 3600 / 60 {
        lemma_places_order(t1 % 3600 / 60, t2 % 3600 / 60);
        if t1 % 3600 / 60 / 10 < t2 % 3600 / 60 / 10 {
            assert(text::parts_at(a, b, 14));
        } else {
            assert(text::parts_at(a, b, 15));
        }
    } else {
        lemma_places_order(t1 % 60, t2 % 60);
        if t1 % 60 / 10 < t2 % 60 / 10 {
            assert(text::parts_at(a, b, 17));
        } else {
            assert(text::parts_at(a, b, 18));
        }
    }
}

/// A text does not precede itself.
proof fn lemma_precedes_is_strict(a: Seq<char>)
    ensures
        !text::precedes(a, a),
{
}

/// From the year 0 to the year 9999 the texts of two times are in the order of the
/// times: each has nineteen characters, they are the same exactly where the times
/// lie in one second, and else the text of the earlier comes before that of the
/// later.
pub proof fn lemma_times_sort_as_text(a: int, b: int)
    requires
        -62_167_219_200_000_000 <= a <= b < 253_402_300_800_000_000,
    ensures
        time_text(a).len() == 19,
        time_text(b).len() == 19,
        time_text(a) == time_text(b) <==> a / 1_000_000 == b / 1_000_000,
        a / 1_000_000 < b / 1_000_000 ==> text::precedes(time_text(a), time_text(b)),
{
    let s1 = a / 1_000_000;
    let s2 = b / 1_000_000;
    lemma_time_in_places(a);
    lemma_time_in_places(b);
    if s1 < s2 {
        let (y1, m1, d1) = calendar::civil(s1 / 86_400);
        let (y2, m2, d2) = calendar::civil(s2 / 86_400);
        let t1 = s1 % 86_400;
        let t2 = s2 % 86_400;
        calendar::lemma_civil_is_that_day(s1 / 86_400);
        calendar::lemma_civil_is_that_day(s2 / 86_400);
        if s1 / 86_400 == s2 / 86_400 {
            lemma_times_order(y1, m1, d1, t1, t2);
        } else {
            assert(s1 / 86_400 < s2 / 86_400);
            if y2 < y1 || (y2 == y1 && (m2 < m1 || (m2 == m1 && d2 < d1))) {
                calendar::lemma_day_number_orders(y2, m2, d2, y1, m1, d1);
            }
            if y1 < y2 {
                lemma_years_order(y1, m1, d1, t1, y2, m2, d2, t2);
            } else {
                lemma_days_order(y1, m1, d1, t1, m2, d2, t2);
            }
        }
        lemma_precedes_is_strict(time_text(a));
    }
}

} // verus!
