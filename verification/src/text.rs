//! Strings as sequences of characters: building, cutting and formatting them.

use vstd::prelude::*;
use vstd::string::*;

verus! {

/// `String::push` appends one character.
pub assume_specification[ String::push ](s: &mut String, c: char)
    ensures
        final(s)@ == old(s)@.push(c),
;

/// The upper-case hexadecimal digit of `d`.
pub open spec fn hex_digit(d: int) -> char {
    if d < 10 {
        (0x30 + d) as char
    } else {
        (0x37 + d) as char
    }
}

/// `n` in upper-case hexadecimal, without leading zeros.
pub open spec fn hex(n: nat) -> Seq<char>
    decreases n,
{
    if n < 16 {
        seq![hex_digit(n as int)]
    } else {
        hex(n / 16).push(hex_digit((n % 16) as int))
    }
}

/// `n` in decimal, without leading zeros.
pub open spec fn dec(n: nat) -> Seq<char>
    decreases n,
{
    if n < 10 {
        seq![hex_digit(n as int)]
    } else {
        dec(n / 10).push(hex_digit((n % 10) as int))
    }
}

/// `n` in decimal, with a minus sign when it is negative.
pub open spec fn signed(n: int) -> Seq<char> {
    if n < 0 {
        seq!['-'] + dec((-n) as nat)
    } else {
        dec(n as nat)
    }
}

/// `s` with zeros in front of it up to `width` characters.
pub open spec fn zero_padded(s: Seq<char>, width: nat) -> Seq<char> {
    if s.len() < width {
        Seq::new((width - s.len()) as nat, |i: int| '0') + s
    } else {
        s
    }
}

/// `a` and `b` agree in front of `k`, where `a` ends or has the lesser character.
pub open spec fn parts_at(a: Seq<char>, b: Seq<char>, k: int) -> bool {
    &&& 0 <= k <= a.len() && k < b.len()
    &&& forall|i: int| 0 <= i < k ==> #[trigger] a[i] == b[i]
    &&& k == a.len() || (a[k] as u32) < (b[k] as u32)
}

/// `a` comes before `b` in the order of texts.
pub open spec fn precedes(a: Seq<char>, b: Seq<char>) -> bool {
    exists|k: int| #[trigger] parts_at(a, b, k)
}

fn digit_char(d: u8) -> (c: char)
    requires
        d < 16,
    ensures
        c == hex_digit(d as int),
{
    if d < 10 {
        (0x30 + d) as char
    } else {
        (0x37 + d) as char
    }
}

fn push_hex(s: &mut String, n: u64)
    ensures
        final(s)@ == old(s)@ + hex(n as nat),
    decreases n,
{
    if n >= 16 {
        push_hex(s, n / 16);
    }
    s.push(digit_char((n % 16) as u8));
}

fn push_dec(s: &mut String, n: u64)
    ensures
        final(s)@ == old(s)@ + dec(n as nat),
    decreases n,
{
    if n >= 10 {
        push_dec(s, n / 10);
    }
    s.push(digit_char((n % 10) as u8));
}

/// `{n:X}`.
pub fn hex_string(n: u64) -> (r: String)
    ensures
        r@ == hex(n as nat),
{
    let mut s: String = String::new();
    push_hex(&mut s, n);
    s
}

/// `{n}`.
pub fn dec_string(n: u64) -> (r: String)
    ensures
        r@ == dec(n as nat),
{
    let mut s: String = String::new();
    push_dec(&mut s, n);
    s
}

/// `{n}` for a signed number.
pub fn signed_string(n: i64) -> (r: String)
    ensures
        r@ == signed(n as int),
{
    if n < 0 {
        let mut s: String = String::new();
        s.push('-');
        let magnitude: u64 = if n == i64::MIN {
            0x8000_0000_0000_0000
        } else {
            (-n) as u64
        };
        push_dec(&mut s, magnitude);
        s
    } else {
        dec_string(n as u64)
    }
}

fn push_dec_128(s: &mut String, n: u128)
    ensures
        final(s)@ == old(s)@ + dec(n as nat),
    decreases n,
{
    if n >= 10 {
        push_dec_128(s, n / 10);
    }
    s.push(digit_char((n % 10) as u8));
}

/// `{n}` for a signed 128-bit number.
pub fn signed_string_128(n: i128) -> (r: String)
    ensures
        r@ == signed(n as int),
{
    let mut s: String = String::new();
    if n < 0 {
        s.push('-');
        let magnitude: u128 = if n == i128::MIN {
            0x8000_0000_0000_0000_0000_0000_0000_0000
        } else {
            (-n) as u128
        };
        push_dec_128(&mut s, magnitude);
    } else {
        push_dec_128(&mut s, n as u128);
    }
    s
}

/// `s` with zeros in front of it up to `width` characters.
pub fn zero_pad(s: &str, width: usize) -> (r: String)
    ensures
        r@ == zero_padded(s@, width as nat),
{
    let mut out: String = String::new();
    let n: usize = s.unicode_len();
    let mut i: usize = n;
    while i < width
        invariant
            n == s@.len(),
            n <= i,
            i <= width || i == n,
            out@ == Seq::new((i - n) as nat, |k: int| '0'),
        decreases width - i,
    {
        out.push('0');
        i = i + 1;
    }
    out.append(s);
    out
}

/// `a` followed by `b`.
pub fn cat2(a: &str, b: &str) -> (r: String)
    ensures
        r@ == a@ + b@,
{
    let mut s: String = String::new();
    s.append(a);
    s.append(b);
    s
}

/// `a`, `b` and `c` in a row.
pub fn cat3(a: &str, b: &str, c: &str) -> (r: String)
    ensures
        r@ == a@ + b@ + c@,
{
    let mut s: String = cat2(a, b);
    s.append(c);
    s
}

/// `char::from_u32` gives the character of a code point, and nothing for a number
/// that is none: above 0x10FFFF or a surrogate.
pub assume_specification[ char::from_u32 ](i: u32) -> (r: Option<char>)
    ensures
        r == (if i <= 0xD7FF || 0xE000 <= i <= 0x10FFFF {
            Some(i as char)
        } else {
            None
        }),
;

/// The characters of an optional string.
pub open spec fn opt_text(o: Option<String>) -> Option<Seq<char>> {
    match o {
        Some(s) => Some(s@),
        None => None,
    }
}

/// The characters of `s`, indexable.
pub fn chars_of(s: &str) -> (r: Vec<char>)
    ensures
        r@ == s@,
{
    let mut out: Vec<char> = Vec::new();
    for c in it: s.chars()
        invariant
            out@ == s@.take(it.index()),
            it.seq() == s@,
    {
        out.push(c);
    }
    assert(s@.take(s@.len() as int) =~= s@);
    out
}

/// The string of the given characters.
pub fn string_of(cs: &[char]) -> (r: String)
    ensures
        r@ == cs@,
{
    let mut out: String = String::new();
    let mut i: usize = 0;
    while i < cs.len()
        invariant
            i <= cs@.len(),
            out@ == cs@.take(i as int),
        decreases cs@.len() - i,
    {
        out.push(cs[i]);
        i = i + 1;
    }
    assert(cs@.take(i as int) =~= cs@);
    out
}

/// The string of `cs[from..to]`.
pub fn string_range(cs: &[char], from: usize, to: usize) -> (r: String)
    requires
        from <= to <= cs@.len(),
    ensures
        r@ == cs@.subrange(from as int, to as int),
{
    string_of(vstd::slice::slice_subrange(cs, from, to))
}

/// `c` with an ASCII capital made small.
pub open spec fn ascii_lower(c: char) -> char {
    if 'A' <= c <= 'Z' {
        (c as int + 32) as char
    } else {
        c
    }
}

/// `s` with its ASCII capitals made small.
pub open spec fn ascii_lowered(s: Seq<char>) -> Seq<char> {
    Seq::new(s.len(), |i: int| ascii_lower(s[i]))
}

pub fn lower_char(c: char) -> (r: char)
    ensures
        r == ascii_lower(c),
{
    if 'A' <= c && c <= 'Z' {
        (c as u8 + 32) as char
    } else {
        c
    }
}

pub fn to_ascii_lower(cs: &[char]) -> (r: Vec<char>)
    ensures
        r@ == ascii_lowered(cs@),
{
    let mut out: Vec<char> = Vec::new();
    let mut i: usize = 0;
    while i < cs.len()
        invariant
            i <= cs@.len(),
            out@ == ascii_lowered(cs@).take(i as int),
        decreases cs@.len() - i,
    {
        out.push(lower_char(cs[i]));
        i = i + 1;
    }
    assert(ascii_lowered(cs@).take(i as int) =~= ascii_lowered(cs@));
    out
}

/// Whether two strings are equal once ASCII capitals are made small.
pub fn eq_ignore_ascii_case(a: &str, b: &str) -> (r: bool)
    ensures
        r == (ascii_lowered(a@) == ascii_lowered(b@)),
{
    let x: Vec<char> = to_ascii_lower(chars_of(a).as_slice());
    let y: Vec<char> = to_ascii_lower(chars_of(b).as_slice());
    same_chars(x.as_slice(), y.as_slice())
}

pub fn same_chars(a: &[char], b: &[char]) -> (r: bool)
    ensures
        r == (a@ == b@),
{
    if a.len() != b.len() {
        return false;
    }
    let mut i: usize = 0;
    while i < a.len()
        invariant
            i <= a@.len() == b@.len(),
            a@.take(i as int) == b@.take(i as int),
        decreases a@.len() - i,
    {
        if a[i] != b[i] {
            assert(a@[i as int] != b@[i as int]);
            return false;
        }
        assert(a@.take(i + 1) =~= a@.take(i as int).push(a@[i as int]));
        assert(b@.take(i + 1) =~= b@.take(i as int).push(b@[i as int]));
        i = i + 1;
    }
    assert(a@.take(i as int) =~= a@ && b@.take(i as int) =~= b@);
    true
}

/// Whether `c` occurs in `s`.
pub fn contains_char(s: &[char], c: char) -> (r: bool)
    ensures
        r == s@.contains(c),
{
    let mut i: usize = 0;
    while i < s.len()
        invariant
            i <= s@.len(),
            forall|k: int| 0 <= k < i ==> s@[k] != c,
        decreases s@.len() - i,
    {
        if s[i] == c {
            return true;
        }
        i = i + 1;
    }
    false
}

/// The first code point of UTF-16 text that is not empty, and how many units it
/// takes. A surrogate without its partner reads as the replacement character.
pub open spec fn utf16_head(u: Seq<u16>) -> (char, int) {
    if 0xD800 <= u[0] <= 0xDBFF && u.len() >= 2 && 0xDC00 <= u[1] <= 0xDFFF {
        ((0x1_0000 + (u[0] - 0xD800) * 0x400 + (u[1] - 0xDC00)) as char, 2)
    } else if 0xD800 <= u[0] <= 0xDFFF {
        (0xFFFD as char, 1)
    } else {
        (u[0] as char, 1)
    }
}

/// UTF-16 text as characters.
pub open spec fn utf16_text(u: Seq<u16>) -> Seq<char>
    decreases u.len(),
{
    if u.len() == 0 {
        seq![]
    } else {
        let (c, n) = utf16_head(u);
        seq![c] + utf16_text(u.skip(n))
    }
}

/// Decode UTF-16, replacing what is not well formed.
pub fn from_utf16_lossy(u: &[u16]) -> (r: String)
    ensures
        r@ == utf16_text(u@),
{
    let mut out: String = String::new();
    let mut i: usize = 0;
    assert(u@.skip(0) =~= u@);
    while i < u.len()
        invariant
            i <= u@.len(),
            out@ + utf16_text(u@.skip(i as int)) == utf16_text(u@),
        decreases u@.len() - i,
    {
        let ghost rest = u@.skip(i as int);
        let a: u32 = u[i] as u32;
        let mut code: u32 = a;
        let mut n: usize = 1;
        if 0xD800 <= a && a <= 0xDFFF {
            code = 0xFFFD;
            if a <= 0xDBFF && i + 1 < u.len() {
                let b: u32 = u[i + 1] as u32;
                if 0xDC00 <= b && b <= 0xDFFF {
                    code = 0x1_0000 + (a - 0xD800) * 0x400 + (b - 0xDC00);
                    n = 2;
                }
            }
        }
        assert(rest.len() >= 2 ==> rest[1] == u@[i + 1]);
        assert(utf16_head(rest) == (code as char, n as int));
        match char::from_u32(code) {
            Some(c) => {
                assert(rest.skip(n as int) =~= u@.skip(i + n));
                assert(out@ + (seq![c] + utf16_text(u@.skip(i + n))) =~= out@.push(c) + utf16_text(
                    u@.skip(i + n),
                ));
                out.push(c);
            },
            None => {},
        }
        i = i + n;
    }
    assert(out@ + utf16_text(u@.skip(i as int)) =~= out@);
    out
}

/// What `String::from_utf8_lossy` makes of these bytes.
pub uninterp spec fn utf8_lossy(b: Seq<u8>) -> Seq<char>;

/// Calls `String::from_utf8_lossy`. Its result is a function of the bytes, named
/// [`utf8_lossy`]; of valid UTF-8 it is the text that the bytes encode.
#[verifier::external_body]
fn from_utf8_lossy(b: &[u8]) -> (r: String)
    ensures
        r@ == utf8_lossy(b@),
        vstd::utf8::valid_utf8(b@) ==> r@ == vstd::utf8::decode_utf8(b@),
{
    String::from_utf8_lossy(b).into_owned()
}

/// The text that bytes hold: what they encode where they are valid UTF-8, and
/// else what is left of it with the broken parts replaced.
pub open spec fn lossy_text(b: Seq<u8>) -> Seq<char> {
    if vstd::utf8::valid_utf8(b) {
        vstd::utf8::decode_utf8(b)
    } else {
        utf8_lossy(b)
    }
}

/// The text that bytes hold.
pub fn lossy_string(b: &[u8]) -> (r: String)
    ensures
        r@ == lossy_text(b@),
{
    from_utf8_lossy(b)
}

/// The characters that Unicode calls white space.
pub open spec fn is_space(c: char) -> bool {
    let u = c as int;
    ||| 0x09 <= u <= 0x0D
    ||| u == 0x20
    ||| u == 0x85
    ||| u == 0xA0
    ||| u == 0x1680
    ||| 0x2000 <= u <= 0x200A
    ||| u == 0x2028
    ||| u == 0x2029
    ||| u == 0x202F
    ||| u == 0x205F
    ||| u == 0x3000
}

pub fn is_whitespace(c: char) -> (r: bool)
    ensures
        r == is_space(c),
{
    let u: u32 = c as u32;
    (0x09 <= u && u <= 0x0D) || u == 0x20 || u == 0x85 || u == 0xA0 || u == 0x1680 || (0x2000 <= u
        && u <= 0x200A) || u == 0x2028 || u == 0x2029 || u == 0x202F || u == 0x205F || u == 0x3000
}

/// `s` without the white space in front.
pub open spec fn trimmed_start(s: Seq<char>) -> Seq<char>
    decreases s.len(),
{
    if s.len() > 0 && is_space(s[0]) {
        trimmed_start(s.skip(1))
    } else {
        s
    }
}

/// `s` without the white space at the end.
pub open spec fn trimmed_end(s: Seq<char>) -> Seq<char>
    decreases s.len(),
{
    if s.len() > 0 && is_space(s.last()) {
        trimmed_end(s.drop_last())
    } else {
        s
    }
}

/// `s` without the white space around it.
pub open spec fn trimmed(s: Seq<char>) -> Seq<char> {
    trimmed_end(trimmed_start(s))
}

pub fn trim_start<'a>(s: &'a [char]) -> (r: &'a [char])
    ensures
        r@ == trimmed_start(s@),
        r@.len() <= s@.len(),
{
    let n: usize = s.len();
    let mut i: usize = 0;
    assert(s@.skip(0) =~= s@);
    while i < n && is_whitespace(s[i])
        invariant
            n == s@.len(),
            i <= n,
            trimmed_start(s@.skip(i as int)) == trimmed_start(s@),
        decreases n - i,
    {
        assert(s@.skip(i as int).skip(1) =~= s@.skip(i + 1));
        i = i + 1;
    }
    assert(s@.subrange(i as int, n as int) =~= s@.skip(i as int));
    vstd::slice::slice_subrange(s, i, n)
}

pub fn trim_end<'a>(s: &'a [char]) -> (r: &'a [char])
    ensures
        r@ == trimmed_end(s@),
        r@.len() <= s@.len(),
{
    let mut i: usize = s.len();
    assert(s@.take(i as int) =~= s@);
    while i > 0 && is_whitespace(s[i - 1])
        invariant
            i <= s@.len(),
            trimmed_end(s@.take(i as int)) == trimmed_end(s@),
        decreases i,
    {
        assert(s@.take(i as int).drop_last() =~= s@.take(i - 1));
        i = i - 1;
    }
    assert(s@.subrange(0, i as int) =~= s@.take(i as int));
    vstd::slice::slice_subrange(s, 0, i)
}

pub fn trim<'a>(s: &'a [char]) -> (r: &'a [char])
    ensures
        r@ == trimmed(s@),
        r@.len() <= s@.len(),
{
    trim_end(trim_start(s))
}

/// The characters of `cs`, in a vector of their own.
pub fn to_chars(cs: &[char]) -> (r: Vec<char>)
    ensures
        r@ == cs@,
{
    vstd::slice::slice_to_vec(cs)
}

/// The characters of an ASCII text as bytes.
pub open spec fn ascii_bytes(s: Seq<char>) -> Seq<u8> {
    Seq::new(s.len(), |i: int| s[i] as u8)
}

pub fn ascii_of(s: &str) -> (r: Vec<u8>)
    ensures
        r@ == ascii_bytes(s@),
{
    let cs: Vec<char> = chars_of(s);
    let mut out: Vec<u8> = Vec::new();
    let mut i: usize = 0;
    while i < cs.len()
        invariant
            cs@ == s@,
            i <= cs@.len(),
            out@ == ascii_bytes(s@).take(i as int),
        decreases cs@.len() - i,
    {
        out.push(cs[i] as u8);
        i = i + 1;
    }
    assert(ascii_bytes(s@).take(i as int) =~= ascii_bytes(s@));
    out
}

pub open spec fn is_hex_digit(c: char) -> bool {
    '0' <= c <= '9' || 'a' <= c <= 'f' || 'A' <= c <= 'F'
}

pub open spec fn is_ascii_letter(c: char) -> bool {
    'a' <= c <= 'z' || 'A' <= c <= 'Z'
}

pub fn hex_digit_char(c: char) -> (r: bool)
    ensures
        r == is_hex_digit(c),
{
    ('0' <= c && c <= '9') || ('a' <= c && c <= 'f') || ('A' <= c && c <= 'F')
}

pub fn ascii_letter(c: char) -> (r: bool)
    ensures
        r == is_ascii_letter(c),
{
    ('a' <= c && c <= 'z') || ('A' <= c && c <= 'Z')
}

/// Whether all of `s` is hexadecimal.
pub fn all_hex(s: &[char]) -> (r: bool)
    ensures
        r == (forall|i: int| 0 <= i < s@.len() ==> is_hex_digit(#[trigger] s@[i])),
{
    let mut i: usize = 0;
    while i < s.len()
        invariant
            i <= s@.len(),
            forall|k: int| 0 <= k < i ==> is_hex_digit(#[trigger] s@[k]),
        decreases s@.len() - i,
    {
        if !hex_digit_char(s[i]) {
            return false;
        }
        i = i + 1;
    }
    true
}

/// The offset of the first `c` in `s`.
pub fn find_char(s: &[char], c: char) -> (r: Option<usize>)
    ensures
        match r {
            Some(i) => s@.index_of_first(c) == Some(i as int) && i < s@.len() <= usize::MAX,
            None => s@.index_of_first(c) is None,
        },
{
    let mut i: usize = 0;
    while i < s.len()
        invariant
            i <= s@.len(),
            forall|k: int| 0 <= k < i ==> s@[k] != c,
        decreases s@.len() - i,
    {
        if s[i] == c {
            proof {
                s@.index_of_first_ensures(c);
                assert(s@.contains(s@[i as int]));
            }
            return Some(i);
        }
        i = i + 1;
    }
    proof {
        s@.index_of_first_ensures(c);
    }
    None
}

/// The offset of the last `c` in `s`.
pub fn rfind_char(s: &[char], c: char) -> (r: Option<usize>)
    ensures
        match r {
            Some(i) => s@.index_of_last(c) == Some(i as int) && i < s@.len() <= usize::MAX,
            None => s@.index_of_last(c) is None,
        },
{
    let mut i: usize = s.len();
    while i > 0
        invariant
            i <= s@.len(),
            forall|k: int| i <= k < s@.len() ==> s@[k] != c,
        decreases i,
    {
        if s[i - 1] == c {
            proof {
                s@.index_of_last_ensures(c);
                assert(s@.contains(s@[i - 1]));
            }
            return Some(i - 1);
        }
        i = i - 1;
    }
    proof {
        s@.index_of_last_ensures(c);
    }
    None
}

/// `s` without the characters `a` and `b` in front.
pub open spec fn stripped_start(s: Seq<char>, a: char, b: char) -> Seq<char>
    decreases s.len(),
{
    if s.len() > 0 && (s[0] == a || s[0] == b) {
        stripped_start(s.skip(1), a, b)
    } else {
        s
    }
}

/// `s` without the characters `a` and `b` at the end.
pub open spec fn stripped_end(s: Seq<char>, a: char, b: char) -> Seq<char>
    decreases s.len(),
{
    if s.len() > 0 && (s.last() == a || s.last() == b) {
        stripped_end(s.drop_last(), a, b)
    } else {
        s
    }
}

/// `s` without the characters `a` and `b` around it.
pub open spec fn stripped(s: Seq<char>, a: char, b: char) -> Seq<char> {
    stripped_end(stripped_start(s, a, b), a, b)
}

pub fn strip_pair<'a>(s: &'a [char], a: char, b: char) -> (r: &'a [char])
    ensures
        r@ == stripped(s@, a, b),
{
    let n: usize = s.len();
    let mut lo: usize = 0;
    assert(s@.skip(0) =~= s@);
    while lo < n && (s[lo] == a || s[lo] == b)
        invariant
            n == s@.len(),
            lo <= n,
            stripped_start(s@.skip(lo as int), a, b) == stripped_start(s@, a, b),
        decreases n - lo,
    {
        assert(s@.skip(lo as int).skip(1) =~= s@.skip(lo + 1));
        lo = lo + 1;
    }
    let ghost inner = s@.skip(lo as int);
    let mut hi: usize = n;
    assert(inner.take(hi - lo) =~= inner);
    while hi > lo && (s[hi - 1] == a || s[hi - 1] == b)
        invariant
            n == s@.len(),
            lo <= hi <= n,
            inner == s@.skip(lo as int),
            stripped_end(inner.take(hi - lo), a, b) == stripped_end(inner, a, b),
        decreases hi,
    {
        assert(inner.take(hi - lo).drop_last() =~= inner.take(hi - 1 - lo));
        hi = hi - 1;
    }
    assert(s@.subrange(lo as int, hi as int) =~= inner.take(hi - lo));
    vstd::slice::slice_subrange(s, lo, hi)
}

/// How many bytes a character takes in UTF-8.
pub open spec fn char_width(c: char) -> nat {
    if (c as int) < 0x80 {
        1
    } else if (c as int) < 0x800 {
        2
    } else if (c as int) < 0x1_0000 {
        3
    } else {
        4
    }
}

fn width_of(c: char) -> (r: u8)
    ensures
        r == char_width(c),
        r <= 4,
{
    let u: u32 = c as u32;
    if u < 0x80 {
        1
    } else if u < 0x800 {
        2
    } else if u < 0x1_0000 {
        3
    } else {
        4
    }
}

/// How many bytes a text takes in UTF-8.
pub open spec fn byte_len(s: Seq<char>) -> nat
    decreases s.len(),
{
    if s.len() == 0 {
        0
    } else {
        byte_len(s.drop_last()) + char_width(s.last())
    }
}

pub fn utf8_len(s: &[char]) -> (r: u128)
    ensures
        r == byte_len(s@),
{
    let mut n: u128 = 0;
    let mut i: usize = 0;
    assert(s@.take(0) =~= seq![]);
    while i < s.len()
        invariant
            i <= s@.len(),
            n <= 4 * i,
            n == byte_len(s@.take(i as int)),
        decreases s@.len() - i,
    {
        assert(s@.take(i + 1).drop_last() =~= s@.take(i as int));
        n = n + width_of(s[i]) as u128;
        i = i + 1;
    }
    assert(s@.take(i as int) =~= s@);
    n
}

/// What the debug formatting of a string writes.
pub uninterp spec fn debug_of(s: Seq<char>) -> Seq<char>;

/// Formats a string with `{:?}`: the text in quotation marks, with escapes. The
/// result is a function of the text, named [`debug_of`]; nothing more is claimed
/// of it.
#[verifier::external_body]
pub(crate) fn debug_string(s: &str) -> (r: String)
    ensures
        r@ == debug_of(s@),
{
    format!("{:?}", s)
}

} // verus!
