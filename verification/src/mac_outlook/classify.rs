//! What a run of text in an HxStore record reads as: an address, an identifier, a
//! machine payload, a person's name, a subject line.

use vstd::prelude::*;
use crate::search;
use crate::text;

verus! {

/// Latin script, general punctuation, currency symbols, arrows, dingbats and
/// emoji.
pub open spec fn latin_or_symbol(c: char) -> bool {
    let u = c as int;
    ||| u < 0x250
    ||| 0x2000 <= u < 0x2070
    ||| 0x20A0 <= u < 0x20D0
    ||| u == 0x2122
    ||| 0x2190 <= u <= 0x21FF
    ||| 0x2600 <= u < 0x27C0
    ||| 0x23E9 <= u <= 0x23FA
    ||| 0x25AA <= u <= 0x25FE
    ||| 0x1F000 <= u < 0x1FAFF
    ||| u == 0xFE0F
}

fn is_latin_or_symbol(c: char) -> (r: bool)
    ensures
        r == latin_or_symbol(c),
{
    let u: u32 = c as u32;
    u < 0x250 || (0x2000 <= u && u < 0x2070) || (0x20A0 <= u && u < 0x20D0) || u == 0x2122
        || (0x2190 <= u && u <= 0x21FF) || (0x2600 <= u && u < 0x27C0) || (0x23E9 <= u && u
        <= 0x23FA) || (0x25AA <= u && u <= 0x25FE) || (0x1F000 <= u && u < 0x1FAFF) || u == 0xFE0F
}

/// How many characters of `s` are neither Latin script nor a symbol.
pub open spec fn off_script(s: Seq<char>) -> nat
    decreases s.len(),
{
    if s.len() == 0 {
        0
    } else {
        off_script(s.drop_last()) + if latin_or_symbol(s.last()) {
            0nat
        } else {
            1nat
        }
    }
}

/// At least a fifth of the run is neither Latin script nor a symbol: binary that
/// happened to decode without error, not a value.
pub open spec fn binary_run(s: Seq<char>) -> bool {
    s.len() >= 3 && off_script(s) * 5 >= s.len()
}

pub fn is_binary_chars(s: &[char]) -> (r: bool)
    ensures
        r == binary_run(s@),
{
    let mut off: usize = 0;
    let mut i: usize = 0;
    assert(s@.take(0) =~= seq![]);
    while i < s.len()
        invariant
            i <= s@.len(),
            off <= i,
            off == off_script(s@.take(i as int)),
        decreases s@.len() - i,
    {
        assert(s@.take(i + 1).drop_last() =~= s@.take(i as int));
        if !is_latin_or_symbol(s[i]) {
            off = off + 1;
        }
        i = i + 1;
    }
    assert(s@.take(i as int) =~= s@);
    s.len() >= 3 && off as u128 * 5 >= s.len() as u128
}

/// Whether a run is binary that happened to decode without error.
pub fn is_binary_run(s: &str) -> (r: bool)
    ensures
        r == binary_run(s@),
{
    is_binary_chars(text::chars_of(s).as_slice())
}

/// `t`, or one half of it where it is the same text twice in a row.
pub open spec fn undoubled(t: Seq<char>) -> Seq<char> {
    let half = t.len() as int / 2;
    if t.len() % 2 == 0 && t.take(half) == t.skip(half) {
        t.take(half)
    } else {
        t
    }
}

pub fn undouble(t: &[char]) -> (r: Vec<char>)
    ensures
        r@ == undoubled(t@),
{
    let n: usize = t.len();
    if n % 2 == 0 {
        let half: usize = n / 2;
        let a: &[char] = vstd::slice::slice_subrange(t, 0, half);
        let b: &[char] = vstd::slice::slice_subrange(t, half, n);
        assert(a@ =~= t@.take(half as int));
        assert(b@ =~= t@.skip(half as int));
        if text::same_chars(a, b) {
            return text::to_chars(a);
        }
    }
    text::to_chars(t)
}

/// Undoing a doubling gives back what was doubled.
pub proof fn lemma_undouble_undoes_doubling(t: Seq<char>)
    ensures
        undoubled(t + t) == t,
{
    assert((t + t).take(t.len() as int) =~= t);
    assert((t + t).skip(t.len() as int) =~= t);
}

/// A character that an address may be made of.
pub open spec fn email_char(c: char) -> bool {
    text::is_ascii_letter(c) || '0' <= c <= '9' || c == '@' || c == '.' || c == '_' || c == '-' || c
        == '+' || c == '%'
}

/// An address: something in front of the first `@`, and behind it a domain with a
/// top level of 2 to 12 letters.
pub open spec fn email_shaped(s: Seq<char>) -> bool {
    match s.index_of_first('@') {
        None => false,
        Some(at) => {
            let domain = s.skip(at + 1);
            &&& 0 < at < s.len() - 1
            &&& s.len() <= 254
            &&& forall|i: int| 0 <= i < s.len() ==> email_char(#[trigger] s[i])
            &&& match domain.index_of_last('.') {
                None => false,
                Some(dot) => {
                    let tld = domain.skip(dot + 1);
                    &&& dot > 0
                    &&& domain[0] != '.'
                    &&& 2 <= tld.len() <= 12
                    &&& forall|i: int| 0 <= i < tld.len() ==> text::is_ascii_letter(#[trigger] tld[i])
                },
            }
        },
    }
}

fn all_email_chars(s: &[char]) -> (r: bool)
    ensures
        r == (forall|i: int| 0 <= i < s@.len() ==> email_char(#[trigger] s@[i])),
{
    let mut i: usize = 0;
    while i < s.len()
        invariant
            i <= s@.len(),
            forall|k: int| 0 <= k < i ==> email_char(#[trigger] s@[k]),
        decreases s@.len() - i,
    {
        let c: char = s[i];
        if !(text::ascii_letter(c) || ('0' <= c && c <= '9') || c == '@' || c == '.' || c == '_'
            || c == '-' || c == '+' || c == '%') {
            assert(!email_char(s@[i as int]));
            return false;
        }
        i = i + 1;
    }
    true
}

fn all_letters(s: &[char]) -> (r: bool)
    ensures
        r == (forall|i: int| 0 <= i < s@.len() ==> text::is_ascii_letter(#[trigger] s@[i])),
{
    let mut i: usize = 0;
    while i < s.len()
        invariant
            i <= s@.len(),
            forall|k: int| 0 <= k < i ==> text::is_ascii_letter(#[trigger] s@[k]),
        decreases s@.len() - i,
    {
        if !text::ascii_letter(s[i]) {
            assert(!text::is_ascii_letter(s@[i as int]));
            return false;
        }
        i = i + 1;
    }
    true
}

pub fn is_email_chars(s: &[char]) -> (r: bool)
    ensures
        r == email_shaped(s@),
{
    let n: usize = s.len();
    match text::find_char(s, '@') {
        None => false,
        Some(at) => {
            if at == 0 || at >= n - 1 || n > 254 || !all_email_chars(s) {
                return false;
            }
            let domain: &[char] = vstd::slice::slice_subrange(s, at + 1, n);
            assert(domain@ =~= s@.skip(at + 1));
            match text::rfind_char(domain, '.') {
                None => false,
                Some(dot) => {
                    let tld: &[char] = vstd::slice::slice_subrange(domain, dot + 1, domain.len());
                    assert(tld@ =~= domain@.skip(dot + 1));
                    dot > 0 && domain[0] != '.' && 2 <= tld.len() && tld.len() <= 12
                        && all_letters(tld)
                },
            }
        },
    }
}

/// Whether a text is an address.
pub fn is_email(s: &str) -> (r: bool)
    ensures
        r == email_shaped(s@),
{
    is_email_chars(text::chars_of(s).as_slice())
}

/// The places of the four hyphens in a GUID.
pub open spec fn guid_hyphen(i: int) -> bool {
    i == 8 || i == 13 || i == 18 || i == 23
}

/// Hex digits in groups of 8, 4, 4, 4 and 12, hyphens between them, braces around
/// them or not.
pub open spec fn guid_shaped(t: Seq<char>) -> bool {
    let g = text::stripped(t, '{', '}');
    g.len() == 36 && forall|i: int|
        0 <= i < 36 ==> if guid_hyphen(i) {
            #[trigger] g[i] == '-'
        } else {
            text::is_hex_digit(g[i])
        }
}

pub fn is_guid_chars(t: &[char]) -> (r: bool)
    ensures
        r == guid_shaped(t@),
{
    let g: &[char] = text::strip_pair(t, '{', '}');
    if g.len() != 36 {
        return false;
    }
    let mut i: usize = 0;
    while i < 36
        invariant
            i <= 36,
            g@.len() == 36,
            g@ == text::stripped(t@, '{', '}'),
            forall|k: int|
                0 <= k < i ==> if guid_hyphen(k) {
                    #[trigger] g@[k] == '-'
                } else {
                    text::is_hex_digit(g@[k])
                },
        decreases 36 - i,
    {
        let c: char = g[i];
        if i == 8 || i == 13 || i == 18 || i == 23 {
            if c != '-' {
                return false;
            }
        } else if !text::hex_digit_char(c) {
            return false;
        }
        i = i + 1;
    }
    true
}

/// Whether a text is a GUID.
pub fn is_guid(t: &str) -> (r: bool)
    ensures
        r == guid_shaped(t@),
{
    is_guid_chars(text::chars_of(t).as_slice())
}

/// A long unbroken hex run, or base64-encoded JSON: machine payloads that sit
/// among the text fields but are never display text.
pub open spec fn opaque_shaped(t: Seq<char>) -> bool {
    search::has_prefix(t, "eyJ"@) || (t.len() >= 24 && forall|i: int|
        0 <= i < t.len() ==> text::is_hex_digit(#[trigger] t[i]))
}

pub fn is_opaque_chars(t: &[char]) -> (r: bool)
    ensures
        r == opaque_shaped(t@),
{
    begins(t, "eyJ") || (t.len() >= 24 && text::all_hex(t))
}

/// Whether a text is a machine payload.
pub fn is_opaque(t: &str) -> (r: bool)
    ensures
        r == opaque_shaped(t@),
{
    is_opaque_chars(text::chars_of(t).as_slice())
}

fn begins(t: &[char], p: &str) -> (r: bool)
    ensures
        r == search::has_prefix(t@, p@),
{
    search::starts_with(t, text::chars_of(p).as_slice())
}

fn holds(t: &[char], p: &str) -> (r: bool)
    requires
        p@.len() > 0,
    ensures
        r == search::occurs(t@, p@),
{
    search::find_chars_from(t, text::chars_of(p).as_slice(), 0).is_some()
}

/// Two texts that differ at most in the case of ASCII letters.
pub open spec fn same_word(a: Seq<char>, b: Seq<char>) -> bool {
    text::ascii_lowered(a) == text::ascii_lowered(b)
}

fn is_word(t: &[char], w: &str) -> (r: bool)
    ensures
        r == same_word(w@, t@),
{
    let a: Vec<char> = text::to_ascii_lower(text::chars_of(w).as_slice());
    let b: Vec<char> = text::to_ascii_lower(t);
    text::same_chars(a.as_slice(), b.as_slice())
}

/// A value that the store writes itself: a flag, a media type, an identifier.
pub open spec fn enum_value(t: Seq<char>) -> bool {
    ||| same_word("IPM.Note"@, t)
    ||| same_word("Anonymous"@, t)
    ||| same_word("Internal"@, t)
    ||| same_word("External"@, t)
    ||| same_word("Normal"@, t)
    ||| same_word("None"@, t)
    ||| same_word("Unknown"@, t)
    ||| same_word("Focused"@, t)
    ||| same_word("Mailbox"@, t)
    ||| same_word("SMTP"@, t)
    ||| search::has_prefix(t, "image/"@)
    ||| search::has_prefix(t, "application/"@)
    ||| search::has_prefix(t, "text/"@)
    ||| search::has_prefix(t, "multipart/"@)
    ||| guid_shaped(t)
    ||| opaque_shaped(t)
}

pub fn is_enum_value(t: &[char]) -> (r: bool)
    ensures
        r == enum_value(t@),
{
    is_word(t, "IPM.Note") || is_word(t, "Anonymous") || is_word(t, "Internal") || is_word(
        t,
        "External",
    ) || is_word(t, "Normal") || is_word(t, "None") || is_word(t, "Unknown") || is_word(
        t,
        "Focused",
    ) || is_word(t, "Mailbox") || is_word(t, "SMTP") || begins(t, "image/") || begins(
        t,
        "application/",
    ) || begins(t, "text/") || begins(t, "multipart/") || is_guid_chars(t) || is_opaque_chars(t)
}

/// An address in angle brackets.
pub open spec fn message_id_shaped(t: Seq<char>) -> bool {
    t.len() > 0 && t[0] == '<' && t.last() == '>' && t.contains('@') && !t.contains(' ')
}

pub fn is_message_id(t: &[char]) -> (r: bool)
    ensures
        r == message_id_shaped(t@),
{
    t.len() > 0 && t[0] == '<' && t[t.len() - 1] == '>' && text::contains_char(t, '@')
        && !text::contains_char(t, ' ')
}

/// What `char::is_alphabetic` says of a character.
pub uninterp spec fn alphabetic(c: char) -> bool;

/// Calls `char::is_alphabetic`: whether Unicode gives the character the
/// Alphabetic property. That is a function of the character, named
/// [`alphabetic`]; nothing more is claimed of it.
#[verifier::external_body]
fn is_alphabetic(c: char) -> (r: bool)
    ensures
        r == alphabetic(c),
{
    c.is_alphabetic()
}

/// How many characters of `t` are alphabetic.
pub open spec fn letters(t: Seq<char>) -> nat
    decreases t.len(),
{
    if t.len() == 0 {
        0
    } else {
        letters(t.drop_last()) + if alphabetic(t.last()) {
            1nat
        } else {
            0nat
        }
    }
}

fn count_letters(t: &[char]) -> (r: usize)
    ensures
        r == letters(t@),
        r <= t@.len(),
{
    let mut n: usize = 0;
    let mut i: usize = 0;
    assert(t@.take(0) =~= seq![]);
    while i < t.len()
        invariant
            i <= t@.len(),
            n <= i,
            n == letters(t@.take(i as int)),
        decreases t@.len() - i,
    {
        assert(t@.take(i + 1).drop_last() =~= t@.take(i as int));
        if is_alphabetic(t[i]) {
            n = n + 1;
        }
        i = i + 1;
    }
    assert(t@.take(i as int) =~= t@);
    n
}

/// Whether a run with this many alphabetic characters reads as the display name
/// of a person or an organisation.
pub open spec fn person_shaped(t: Seq<char>, letters: nat) -> bool {
    &&& 2 <= t.len() <= 48
    &&& !t.contains('@')
    &&& !enum_value(t)
    &&& !search::occurs(t, ". "@)
    &&& !t.contains('<')
    &&& !t.contains('>')
    &&& t.last() != ','
    &&& letters * 2 >= t.len()
}

pub fn reads_as_person(t: &[char], letters: usize) -> (r: bool)
    ensures
        r == person_shaped(t@, letters as nat),
{
    proof {
        reveal_strlit(". ");
    }
    let n: usize = t.len();
    if n < 2 || n > 48 || text::contains_char(t, '@') || is_enum_value(t) {
        return false;
    }
    if holds(t, ". ") || text::contains_char(t, '<') || text::contains_char(t, '>') || t[n - 1]
        == ',' {
        return false;
    }
    letters as u128 * 2 >= n as u128
}

/// Whether a run reads as a display name.
pub open spec fn person(t: Seq<char>) -> bool {
    person_shaped(t, letters(t))
}

/// Does this run read as a person's or organisation's display name?
pub fn looks_like_person(t: &[char]) -> (r: bool)
    ensures
        r == person(t@),
{
    reads_as_person(t, count_letters(t))
}

/// How many sentences end inside `t`: full stops with a space behind them.
pub open spec fn sentence_ends(t: Seq<char>) -> nat
    decreases t.len(),
{
    if t.len() < 2 {
        0
    } else {
        sentence_ends(t.drop_last()) + if t[t.len() - 2] == '.' && t.last() == ' ' {
            1nat
        } else {
            0nat
        }
    }
}

fn count_sentence_ends(t: &[char]) -> (r: usize)
    ensures
        r == sentence_ends(t@),
{
    let mut n: usize = 0;
    let mut i: usize = 0;
    assert(t@.take(0) =~= seq![]);
    while i < t.len()
        invariant
            i <= t@.len(),
            n <= i,
            n == sentence_ends(t@.take(i as int)),
        decreases t@.len() - i,
    {
        assert(t@.take(i + 1).drop_last() =~= t@.take(i as int));
        if i > 0 && t[i - 1] == '.' && t[i] == ' ' {
            n = n + 1;
        }
        i = i + 1;
    }
    assert(t@.take(i as int) =~= t@);
    n
}

/// Whether a run with this many alphabetic characters reads as a subject line.
pub open spec fn subject_shaped(t: Seq<char>, letters: nat) -> bool {
    &&& 3 <= t.len() <= 400
    &&& !email_shaped(t)
    &&& !enum_value(t)
    &&& !search::occurs(t, "http"@)
    &&& !search::occurs(t, "mailto:"@)
    &&& sentence_ends(t) < 2
    &&& letters * 2 >= t.len()
}

pub fn reads_as_subject(t: &[char], letters: usize) -> (r: bool)
    ensures
        r == subject_shaped(t@, letters as nat),
{
    proof {
        reveal_strlit("http");
        reveal_strlit("mailto:");
    }
    let n: usize = t.len();
    if n < 3 || n > 400 || is_email_chars(t) || is_enum_value(t) {
        return false;
    }
    if holds(t, "http") || holds(t, "mailto:") {
        return false;
    }
    if count_sentence_ends(t) >= 2 {
        return false;
    }
    letters as u128 * 2 >= n as u128
}

/// Whether a run reads as a subject line.
pub open spec fn subject(t: Seq<char>) -> bool {
    subject_shaped(t, letters(t))
}

/// Does this run read as a subject line rather than a body preview, an
/// identifier or a machine payload?
pub fn looks_like_subject(t: &[char]) -> (r: bool)
    ensures
        r == subject(t@),
{
    reads_as_subject(t, count_letters(t))
}

/// The length of a reply or forward prefix, 0 if there is none.
pub open spec fn prefix_len(t: Seq<char>) -> int {
    let l = text::ascii_lowered(t);
    if search::has_prefix(l, "re:"@) || search::has_prefix(l, "fw:"@) || search::has_prefix(
        l,
        "aw:"@,
    ) || search::has_prefix(l, "tr:"@) {
        3
    } else if search::has_prefix(l, "fwd:"@) {
        4
    } else {
        0
    }
}

/// A subject without its reply and forward prefixes, however many it has.
pub open spec fn unprefixed(t: Seq<char>) -> Seq<char>
    decreases t.len(),
{
    let n = prefix_len(t);
    if n == 0 || n > t.len() {
        t
    } else {
        proof {
            lemma_trimmed_start_shrinks(t.skip(n));
        }
        unprefixed(text::trimmed_start(t.skip(n)))
    }
}

/// Trimming never makes a text longer.
pub proof fn lemma_trimmed_start_shrinks(s: Seq<char>)
    ensures
        text::trimmed_start(s).len() <= s.len(),
    decreases s.len(),
{
    if s.len() > 0 && text::is_space(s[0]) {
        lemma_trimmed_start_shrinks(s.skip(1));
    }
}

fn reply_prefix_len(t: &[char]) -> (r: usize)
    ensures
        r == prefix_len(t@),
        r <= t@.len(),
{
    proof {
        reveal_strlit("re:");
        reveal_strlit("fw:");
        reveal_strlit("aw:");
        reveal_strlit("tr:");
        reveal_strlit("fwd:");
    }
    let lower: Vec<char> = text::to_ascii_lower(t);
    let l: &[char] = lower.as_slice();
    if begins(l, "re:") || begins(l, "fw:") || begins(l, "aw:") || begins(l, "tr:") {
        3
    } else if begins(l, "fwd:") {
        4
    } else {
        0
    }
}

pub fn strip_reply_prefix<'a>(s: &'a [char]) -> (r: &'a [char])
    ensures
        r@ == unprefixed(text::trimmed(s@)),
{
    let mut t: &'a [char] = text::trim(s);
    loop
        invariant
            unprefixed(t@) == unprefixed(text::trimmed(s@)),
        ensures
            t@ == unprefixed(text::trimmed(s@)),
        decreases t@.len(),
    {
        let n: usize = reply_prefix_len(t);
        if n == 0 {
            break;
        }
        let rest: &'a [char] = vstd::slice::slice_subrange(t, n, t.len());
        assert(rest@ =~= t@.skip(n as int));
        t = text::trim_start(rest);
    }
    t
}

/// What tells two copies of a subject to be the same: the first 40 characters
/// without reply prefixes.
pub open spec fn subject_key(t: Seq<char>) -> Seq<char> {
    let s = unprefixed(text::trimmed(t));
    if s.len() > 40 {
        s.take(40)
    } else {
        s
    }
}

pub fn key_of(t: &[char]) -> (r: Vec<char>)
    ensures
        r@ == subject_key(t@),
{
    let s: &[char] = strip_reply_prefix(t);
    if s.len() > 40 {
        let front: &[char] = vstd::slice::slice_subrange(s, 0, 40);
        assert(front@ =~= s@.take(40));
        text::to_chars(front)
    } else {
        text::to_chars(s)
    }
}

} // verus!
