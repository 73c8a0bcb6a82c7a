//! Laws of texts: how they are trimmed, compared and told apart.

use vstd::prelude::*;
use crate::mac_outlook::classify;
use crate::ost::props;
use crate::search;
use crate::text;

verus! {

/// White space.
pub open spec fn blank(c: char) -> bool {
    let u = c as int;
    ||| 9 <= u <= 13 || u == 32 || u == 0x85 || u == 0xA0 || u == 0x1680
    ||| 0x2000 <= u <= 0x200A || u == 0x2028 || u == 0x2029 || u == 0x202F || u == 0x205F
    ||| u == 0x3000
}

/// `r` is the part of `s` from `a` to `b`; what stands outside is to be left out, and
/// the part neither begins nor ends so.
pub open spec fn core_of(s: Seq<char>, r: Seq<char>, a: int, b: int, out: spec_fn(char) -> bool) -> bool {
    &&& 0 <= a <= b <= s.len()
    &&& r == s.subrange(a, b)
    &&& forall|i: int| 0 <= i < a ==> out(#[trigger] s[i])
    &&& forall|i: int| b <= i < s.len() ==> out(#[trigger] s[i])
    &&& r.len() > 0 ==> !out(r[0]) && !out(r.last())
}

proof fn lemma_trimmed_start(s: Seq<char>) -> (a: int)
    ensures
        0 <= a <= s.len(),
        text::trimmed_start(s) == s.skip(a),
        forall|i: int| 0 <= i < a ==> blank(#[trigger] s[i]),
        a < s.len() ==> !blank(s[a]),
    decreases s.len(),
{
    if s.len() > 0 && text::is_space(s[0]) {
        let a = lemma_trimmed_start(s.skip(1));
        assert(s.skip(1).skip(a) =~= s.skip(a + 1));
        assert forall|i: int| 0 <= i < a + 1 implies blank(#[trigger] s[i]) by {
            if i > 0 {
                assert(s.skip(1)[i - 1] == s[i]);
            }
        }
        if a + 1 < s.len() {
            assert(s.skip(1)[a] == s[a + 1]);
        }
        a + 1
    } else {
        assert(s.skip(0) =~= s);
        0
    }
}

proof fn lemma_trimmed_end(s: Seq<char>) -> (b: int)
    ensures
        0 <= b <= s.len(),
        text::trimmed_end(s) == s.take(b),
        forall|i: int| b <= i < s.len() ==> blank(#[trigger] s[i]),
        b > 0 ==> !blank(s[b - 1]),
    decreases s.len(),
{
    if s.len() > 0 && text::is_space(s.last()) {
        let b = lemma_trimmed_end(s.drop_last());
        assert(s.drop_last().take(b) =~= s.take(b));
        assert forall|i: int| b <= i < s.len() implies blank(#[trigger] s[i]) by {
            if i < s.len() - 1 {
                assert(s.drop_last()[i] == s[i]);
            }
        }
        b
    } else {
        assert(s.take(s.len() as int) =~= s);
        s.len() as int
    }
}

/// Trimming leaves out the blanks around a text, all of them and nothing else.
pub proof fn lemma_trim(s: &[char], r: &[char]) -> (ends: (int, int))
    requires
        call_ensures(text::trim, (s,), r),
    ensures
        core_of(s@, r@, ends.0, ends.1, |c: char| blank(c)),
{
    let a = lemma_trimmed_start(s@);
    let front = s@.skip(a);
    let b = lemma_trimmed_end(front);
    assert(front.take(b) =~= s@.subrange(a, a + b));
    let out = |c: char| blank(c);
    assert forall|i: int| a + b <= i < s@.len() implies out(#[trigger] s@[i]) by {
        assert(front[i - a] == s@[i]);
    }
    if r@.len() > 0 {
        assert(r@[0] == s@[a]);
        assert(r@.last() == front[b - 1]);
    }
    (a, a + b)
}

proof fn lemma_stripped_start(s: Seq<char>, x: char, y: char) -> (a: int)
    ensures
        0 <= a <= s.len(),
        text::stripped_start(s, x, y) == s.skip(a),
        forall|i: int| 0 <= i < a ==> #[trigger] s[i] == x || s[i] == y,
        a < s.len() ==> s[a] != x && s[a] != y,
    decreases s.len(),
{
    if s.len() > 0 && (s[0] == x || s[0] == y) {
        let a = lemma_stripped_start(s.skip(1), x, y);
        assert(s.skip(1).skip(a) =~= s.skip(a + 1));
        assert forall|i: int| 0 <= i < a + 1 implies #[trigger] s[i] == x || s[i] == y by {
            if i > 0 {
                assert(s.skip(1)[i - 1] == s[i]);
            }
        }
        if a + 1 < s.len() {
            assert(s.skip(1)[a] == s[a + 1]);
        }
        a + 1
    } else {
        assert(s.skip(0) =~= s);
        0
    }
}

proof fn lemma_stripped_end(s: Seq<char>, x: char, y: char) -> (b: int)
    ensures
        0 <= b <= s.len(),
        text::stripped_end(s, x, y) == s.take(b),
        forall|i: int| b <= i < s.len() ==> #[trigger] s[i] == x || s[i] == y,
        b > 0 ==> s[b - 1] != x && s[b - 1] != y,
    decreases s.len(),
{
    if s.len() > 0 && (s.last() == x || s.last() == y) {
        let b = lemma_stripped_end(s.drop_last(), x, y);
        assert(s.drop_last().take(b) =~= s.take(b));
        assert forall|i: int| b <= i < s.len() implies #[trigger] s[i] == x || s[i] == y by {
            if i < s.len() - 1 {
                assert(s.drop_last()[i] == s[i]);
            }
        }
        b
    } else {
        assert(s.take(s.len() as int) =~= s);
        s.len() as int
    }
}

/// Taking two characters off a text leaves out all of them around it and nothing else.
pub proof fn lemma_strip(s: &[char], x: char, y: char, r: &[char]) -> (ends: (int, int))
    requires
        call_ensures(text::strip_pair, (s, x, y), r),
    ensures
        core_of(s@, r@, ends.0, ends.1, |c: char| c == x || c == y),
{
    let a = lemma_stripped_start(s@, x, y);
    let front = s@.skip(a);
    let b = lemma_stripped_end(front, x, y);
    assert(front.take(b) =~= s@.subrange(a, a + b));
    let out = |c: char| c == x || c == y;
    assert forall|i: int| 0 <= i < a implies out(#[trigger] s@[i]) by {}
    assert forall|i: int| a + b <= i < s@.len() implies out(#[trigger] s@[i]) by {
        assert(front[i - a] == s@[i]);
    }
    if r@.len() > 0 {
        assert(r@[0] == s@[a]);
        assert(r@.last() == front[b - 1]);
    }
    (a, a + b)
}

/// A letter in small, where it is a capital of ASCII; else the character itself.
pub open spec fn small(c: char) -> char {
    if 65 <= c as int && c as int <= 90 {
        (c as int + 32) as char
    } else {
        c
    }
}

/// Making a text small does so to each of its characters and no other.
pub proof fn lemma_small(s: &[char], r: Vec<char>)
    requires
        call_ensures(text::to_ascii_lower, (s,), r),
    ensures
        r@.len() == s@.len(),
        forall|i: int| 0 <= i < s@.len() ==> #[trigger] r@[i] == small(s@[i]),
{
}

/// Two texts are alike but for the case of ASCII letters.
pub open spec fn alike(a: Seq<char>, b: Seq<char>) -> bool {
    a.len() == b.len() && forall|i: int|
        0 <= i < a.len() ==> small(#[trigger] a[i]) == small(b[i])
}

pub proof fn lemma_alike(a: Seq<char>, b: Seq<char>)
    ensures
        alike(a, b) == (text::ascii_lowered(a) == text::ascii_lowered(b)),
{
    let x = text::ascii_lowered(a);
    let y = text::ascii_lowered(b);
    if x == y {
        assert(x.len() == a.len() && y.len() == b.len());
        assert forall|i: int| 0 <= i < a.len() implies small(#[trigger] a[i]) == small(b[i]) by {
            assert(x[i] == small(a[i]));
            assert(y[i] == small(b[i]));
        }
    }
    if alike(a, b) {
        assert forall|i: int| 0 <= i < x.len() implies x[i] == y[i] by {
            assert(small(a[i]) == small(b[i]));
        }
        assert(x =~= y);
    }
}

/// Comparing without regard to case finds what is alike.
pub proof fn lemma_compared_without_case(a: &str, b: &str, r: bool)
    requires
        call_ensures(text::eq_ignore_ascii_case, (a, b), r),
    ensures
        r == alike(a@, b@),
{
    lemma_alike(a@, b@);
}

/// One of the marks of a reply or a forwarded message.
pub open spec fn reply_mark(t: Seq<char>) -> bool {
    alike(t, seq!['r', 'e', ':']) || alike(t, seq!['f', 'w', ':']) || alike(
        t,
        seq!['a', 'w', ':'],
    ) || alike(t, seq!['t', 'r', ':']) || alike(t, seq!['f', 'w', 'd', ':'])
}

proof fn lemma_prefix(t: Seq<char>, word: Seq<char>)
    requires
        text::ascii_lowered(word) == word,
    ensures
        search::has_prefix(text::ascii_lowered(t), word) == (t.len() >= word.len() && alike(
            t.take(word.len() as int),
            word,
        )),
{
    let l = text::ascii_lowered(t);
    if t.len() >= word.len() {
        lemma_alike(t.take(word.len() as int), word);
        assert(text::ascii_lowered(t.take(word.len() as int)) =~= l.subrange(
            0,
            word.len() as int,
        ));
    }
}

proof fn lemma_reply_words()
    ensures
        "re:"@ == seq!['r', 'e', ':'],
        "fw:"@ == seq!['f', 'w', ':'],
        "aw:"@ == seq!['a', 'w', ':'],
        "tr:"@ == seq!['t', 'r', ':'],
        "fwd:"@ == seq!['f', 'w', 'd', ':'],
        text::ascii_lowered("re:"@) == "re:"@,
        text::ascii_lowered("fw:"@) == "fw:"@,
        text::ascii_lowered("aw:"@) == "aw:"@,
        text::ascii_lowered("tr:"@) == "tr:"@,
        text::ascii_lowered("fwd:"@) == "fwd:"@,
{
    reveal_strlit("re:");
    reveal_strlit("fw:");
    reveal_strlit("aw:");
    reveal_strlit("tr:");
    reveal_strlit("fwd:");
    assert("re:"@ =~= seq!['r', 'e', ':']);
    assert("fw:"@ =~= seq!['f', 'w', ':']);
    assert("aw:"@ =~= seq!['a', 'w', ':']);
    assert("tr:"@ =~= seq!['t', 'r', ':']);
    assert("fwd:"@ =~= seq!['f', 'w', 'd', ':']);
    assert(text::ascii_lowered("re:"@) =~= "re:"@);
    assert(text::ascii_lowered("fw:"@) =~= "fw:"@);
    assert(text::ascii_lowered("aw:"@) =~= "aw:"@);
    assert(text::ascii_lowered("tr:"@) =~= "tr:"@);
    assert(text::ascii_lowered("fwd:"@) =~= "fwd:"@);
}

proof fn lemma_prefix_len(t: Seq<char>)
    ensures
        ({
            let n = classify::prefix_len(t);
            &&& n == 0 || n == 3 || n == 4
            &&& n > 0 ==> n <= t.len() && reply_mark(t.take(n))
            &&& n == 0 ==> forall|k: int| 0 <= k <= t.len() ==> !#[trigger] reply_mark(t.take(k))
            &&& forall|k: int| 0 <= k <= t.len() && #[trigger] reply_mark(t.take(k)) ==> k == n
        }),
{
    lemma_reply_words();
    lemma_prefix(t, "re:"@);
    lemma_prefix(t, "fw:"@);
    lemma_prefix(t, "aw:"@);
    lemma_prefix(t, "tr:"@);
    lemma_prefix(t, "fwd:"@);
    assert forall|k: int| 0 <= k <= t.len() && #[trigger] reply_mark(t.take(k)) implies k
        == classify::prefix_len(t) by {
        assert(k == 3 || k == 4);
        if t.len() >= 4 && k == 4 {
            let four = t.take(4);
            let three = t.take(3);
            assert(small(four[2]) == small('d'));
            assert(three[2] == four[2]);
            if alike(three, seq!['r', 'e', ':']) {
                assert(small(three[2]) == small(':'));
            }
            if alike(three, seq!['f', 'w', ':']) {
                assert(small(three[2]) == small(':'));
            }
            if alike(three, seq!['a', 'w', ':']) {
                assert(small(three[2]) == small(':'));
            }
            if alike(three, seq!['t', 'r', ':']) {
                assert(small(three[2]) == small(':'));
            }
        }
    }
}

/// A reply mark in front of a subject makes no difference once such marks are taken
/// off; and taking them off a subject without one only trims it.
pub proof fn lemma_reply_marks_come_off(
    mark: Seq<char>,
    subject: &[char],
    marked: &[char],
    trimmed: &[char],
    a: &[char],
    b: &[char],
)
    requires
        reply_mark(mark),
        call_ensures(text::trim, (subject,), trimmed),
        marked@ == mark + trimmed@,
        trimmed@.len() > 0,
        call_ensures(classify::strip_reply_prefix, (subject,), a),
        call_ensures(classify::strip_reply_prefix, (marked,), b),
    ensures
        a@ == b@,
        (forall|k: int| 0 <= k <= trimmed@.len() ==> !#[trigger] reply_mark(trimmed@.take(k)))
            ==> a@ == trimmed@,
{
    let t = marked@;
    let n = mark.len() as int;
    let (x, y) = lemma_trim(subject, trimmed);
    let out = |c: char| blank(c);
    assert(!out(trimmed@[0]) && !out(trimmed@.last()));
    lemma_prefix_len(t);
    assert(t.take(n) =~= mark);
    assert(reply_mark(t.take(n)));
    assert(t.skip(n) =~= trimmed@);
    let lo = lemma_trimmed_start(t);
    let hi = lemma_trimmed_end(t.skip(lo));
    assert(mark.len() > 0);
    assert(!blank(mark[0])) by {
        let c = mark[0];
        if alike(mark, seq!['r', 'e', ':']) {
            assert(small(c) == small('r'));
        } else if alike(mark, seq!['f', 'w', ':']) {
            assert(small(c) == small('f'));
        } else if alike(mark, seq!['a', 'w', ':']) {
            assert(small(c) == small('a'));
        } else if alike(mark, seq!['t', 'r', ':']) {
            assert(small(c) == small('t'));
        } else {
            assert(small(c) == small('f'));
        }
    }
    assert(t[0] == mark[0]);
    assert(lo == 0);
    assert(t.skip(0) =~= t);
    assert(t.last() == trimmed@.last());
    assert(hi == t.len()) by {
        if hi < t.len() {
            assert(blank(t.skip(lo)[t.len() - 1]));
        }
    }
    assert(text::trimmed(t) =~= t);
    let again = lemma_trimmed_start(trimmed@);
    assert(again == 0);
    assert(trimmed@.skip(0) =~= trimmed@);
    lemma_prefix_len(trimmed@);
}

/// What tells two subjects to be the same is their first 40 characters, without reply
/// marks.
pub proof fn lemma_key_is_the_front(t: &[char], whole: &[char], r: Vec<char>)
    requires
        call_ensures(classify::strip_reply_prefix, (t,), whole),
        call_ensures(classify::key_of, (t,), r),
    ensures
        r@ == crate::laws::first_chars(whole@, 40),
{
}

/// A letter of ASCII.
pub open spec fn letter(c: char) -> bool {
    65 <= c as int && c as int <= 90 || 97 <= c as int && c as int <= 122
}

/// A digit of base sixteen.
pub open spec fn hex_digit(c: char) -> bool {
    48 <= c as int && c as int <= 57 || 65 <= c as int && c as int <= 70 || 97 <= c as int && c as int
        <= 102
}

/// A character that may stand in an address.
pub open spec fn in_address(c: char) -> bool {
    letter(c) || 48 <= c as int && c as int <= 57 || c == '@' || c == '.' || c == '_' || c == '-' || c
        == '+' || c == '%'
}

/// `s` is an address: `who`, an at sign, `host`, a dot and `top`.
pub open spec fn address_of(s: Seq<char>, who: Seq<char>, host: Seq<char>, top: Seq<char>) -> bool {
    &&& s == who + seq!['@'] + host + seq!['.'] + top
    &&& s.len() <= 254
    &&& who.len() > 0 && !who.contains('@')
    &&& host.len() > 0 && host[0] != '.'
    &&& 2 <= top.len() <= 12
    &&& forall|i: int| 0 <= i < top.len() ==> letter(#[trigger] top[i])
    &&& forall|i: int| 0 <= i < s.len() ==> in_address(#[trigger] s[i])
}

/// An address has a name, an at sign, a host and a top level of 2 to 12 letters; and
/// whatever is made of these is one.
pub proof fn lemma_address(s: &[char], r: bool)
    requires
        call_ensures(classify::is_email_chars, (s,), r),
    ensures
        r <==> exists|who: Seq<char>, host: Seq<char>, top: Seq<char>| #[trigger]
            address_of(s@, who, host, top),
{
    let t = s@;
    t.index_of_first_ensures('@');
    if r {
        let at = t.index_of_first('@')->Some_0;
        let domain = t.skip(at + 1);
        domain.index_of_last_ensures('.');
        let dot = domain.index_of_last('.')->Some_0;
        let who = t.take(at);
        let host = domain.take(dot);
        let top = domain.skip(dot + 1);
        assert(t =~= who + seq!['@'] + host + seq!['.'] + top);
        assert(!who.contains('@')) by {
            if who.contains('@') {
                let k = choose|k: int| 0 <= k < who.len() && who[k] == '@';
                assert(t[k] == '@');
            }
        }
        assert forall|i: int| 0 <= i < t.len() implies in_address(#[trigger] t[i]) by {
            assert(classify::email_char(t[i]));
        }
        assert forall|i: int| 0 <= i < top.len() implies letter(#[trigger] top[i]) by {
            assert(text::is_ascii_letter(top[i]));
        }
        assert(address_of(t, who, host, top));
    }
    if exists|who: Seq<char>, host: Seq<char>, top: Seq<char>| #[trigger]
        address_of(t, who, host, top) {
        let (who, host, top) = choose|who: Seq<char>, host: Seq<char>, top: Seq<char>| #[trigger]
            address_of(t, who, host, top);
        let n = who.len() as int;
        assert(t[n] == '@');
        assert(t.contains('@'));
        let at = t.index_of_first('@')->Some_0;
        assert(at == n) by {
            if at < n {
                assert(who[at] == t[at]);
                assert(who.contains('@'));
            }
        }
        let domain = t.skip(at + 1);
        assert(domain =~= host + seq!['.'] + top);
        domain.index_of_last_ensures('.');
        let d = host.len() as int;
        assert(domain[d] == '.');
        assert(domain.contains('.'));
        let dot = domain.index_of_last('.')->Some_0;
        assert(dot == d) by {
            if dot > d {
                assert(letter(top[dot - d - 1]));
                assert(domain[dot] == top[dot - d - 1]);
            }
        }
        assert(domain.skip(dot + 1) =~= top);
        assert(domain[0] == host[0]);
        assert forall|i: int| 0 <= i < t.len() implies classify::email_char(#[trigger] t[i]) by {
            assert(in_address(t[i]));
        }
        assert forall|i: int| 0 <= i < top.len() implies text::is_ascii_letter(#[trigger] top[i]) by {
            assert(letter(top[i]));
        }
        assert(classify::email_shaped(t));
    }
}

/// A GUID, without braces around it: five groups of digits and hyphens between them.
pub open spec fn guid(g: Seq<char>) -> bool {
    &&& g.len() == 36
    &&& g[8] == '-' && g[13] == '-' && g[18] == '-' && g[23] == '-'
    &&& forall|i: int|
        0 <= i < 36 && i != 8 && i != 13 && i != 18 && i != 23 ==> hex_digit(#[trigger] g[i])
}

/// A text is a GUID by what stands between its braces.
pub proof fn lemma_guid(t: &[char], inner: &[char], r: bool)
    requires
        call_ensures(text::strip_pair, (t, '{', '}'), inner),
        call_ensures(classify::is_guid_chars, (t,), r),
    ensures
        r == guid(inner@),
{
    let g = inner@;
    if r {
        assert(g[8] == '-' && g[13] == '-' && g[18] == '-' && g[23] == '-');
        assert forall|i: int|
            0 <= i < 36 && i != 8 && i != 13 && i != 18 && i != 23 implies hex_digit(
            #[trigger] g[i],
        ) by {
            assert(!classify::guid_hyphen(i));
            assert(text::is_hex_digit(g[i]));
        }
    }
    if guid(g) {
        assert forall|i: int| 0 <= i < 36 implies if classify::guid_hyphen(i) {
            #[trigger] g[i] == '-'
        } else {
            text::is_hex_digit(g[i])
        } by {
            if !classify::guid_hyphen(i) {
                assert(hex_digit(g[i]));
            }
        }
    }
}

/// A machine's payload begins with `eyJ`, or is 24 digits of base sixteen or more and
/// nothing else.
pub proof fn lemma_payload_text(t: &[char], r: bool)
    requires
        call_ensures(classify::is_opaque_chars, (t,), r),
    ensures
        r <==> (t@.len() >= 3 && t@[0] == 'e' && t@[1] == 'y' && t@[2] == 'J') || (t@.len() >= 24
            && forall|i: int| 0 <= i < t@.len() ==> hex_digit(#[trigger] t@[i])),
{
    reveal_strlit("eyJ");
    let s = t@;
    assert(search::has_prefix(s, "eyJ"@) <==> s.len() >= 3 && s[0] == 'e' && s[1] == 'y' && s[2]
        == 'J') by {
        if s.len() >= 3 {
            let f = s.subrange(0, 3);
            assert(f[0] == s[0] && f[1] == s[1] && f[2] == s[2]);
            if s[0] == 'e' && s[1] == 'y' && s[2] == 'J' {
                assert(f =~= "eyJ"@);
            }
        }
    }
    assert forall|c: char| #[trigger] hex_digit(c) == text::is_hex_digit(c) by {}
    if forall|i: int| 0 <= i < s.len() ==> hex_digit(#[trigger] s[i]) {
        assert forall|i: int| 0 <= i < s.len() implies text::is_hex_digit(#[trigger] s[i]) by {
            assert(hex_digit(s[i]));
        }
    }
    if forall|i: int| 0 <= i < s.len() ==> text::is_hex_digit(#[trigger] s[i]) {
        assert forall|i: int| 0 <= i < s.len() implies hex_digit(#[trigger] s[i]) by {
            assert(text::is_hex_digit(s[i]));
        }
    }
}

/// Script and signs that mail in Latin letters is written with.
pub open spec fn usual(c: char) -> bool {
    let u = c as int;
    ||| u < 0x250
    ||| 0x2000 <= u < 0x2070 || 0x20A0 <= u < 0x20D0 || u == 0x2122
    ||| 0x2190 <= u <= 0x21FF || 0x23E9 <= u <= 0x23FA || 0x25AA <= u <= 0x25FE
    ||| 0x2600 <= u < 0x27C0
    ||| 0x1F000 <= u < 0x1FAFF
    ||| u == 0xFE0F
}

proof fn lemma_off_script(s: Seq<char>)
    ensures
        classify::off_script(s) == s.filter(|c: char| !usual(c)).len(),
    decreases s.len(),
{
    reveal(Seq::filter);
    if s.len() > 0 {
        lemma_off_script(s.drop_last());
    }
}

/// A run is binary when a fifth of its characters, of three at least, is none of the
/// usual ones.
pub proof fn lemma_binary_run(s: &[char], r: bool)
    requires
        call_ensures(classify::is_binary_chars, (s,), r),
    ensures
        r <==> s@.len() >= 3 && 5 * s@.filter(|c: char| !usual(c)).len() >= s@.len(),
{
    lemma_off_script(s@);
}

/// An identifier of a message stands in angle brackets, holds an at sign and no space.
pub proof fn lemma_message_id_shape(t: &[char], r: bool)
    requires
        call_ensures(classify::is_message_id, (t,), r),
    ensures
        r <==> t@.len() >= 1 && t@[0] == '<' && t@[t@.len() - 1] == '>' && (exists|i: int|
            0 <= i < t@.len() && #[trigger] t@[i] == '@') && forall|i: int|
            0 <= i < t@.len() ==> #[trigger] t@[i] != ' ',
{
    let s = t@;
    if s.contains('@') {
        let i = choose|i: int| 0 <= i < s.len() && s[i] == '@';
        assert(s[i] == '@');
    }
    if exists|i: int| 0 <= i < s.len() && #[trigger] s[i] == '@' {
        let i = choose|i: int| 0 <= i < s.len() && #[trigger] s[i] == '@';
        assert(s.contains('@'));
    }
    if s.contains(' ') {
        let i = choose|i: int| 0 <= i < s.len() && s[i] == ' ';
        assert(s[i] == ' ');
    }
}

/// A subject's escape, a U+0001 and the character behind it, is left out; every other
/// subject stays as it is.
pub proof fn lemma_subject_escape(s: &str, rest: Seq<char>, r: String)
    requires
        call_ensures(props::clean_subject, (s,), r),
    ensures
        (s@.len() == 0 || s@[0] as int != 1) ==> r@ == s@,
        s@.len() == 1 && s@[0] as int == 1 ==> r@.len() == 0,
        s@.len() >= 2 && s@[0] as int == 1 && s@.skip(2) == rest ==> r@ == rest,
{
}

/// A text stands at the front of another.
pub open spec fn begins(t: Seq<char>, p: Seq<char>) -> bool {
    p.len() <= t.len() && t.take(p.len() as int) == p
}

/// A text stands somewhere in another.
pub open spec fn inside(t: Seq<char>, p: Seq<char>) -> bool {
    exists|k: int| 0 <= k <= t.len() - p.len() && #[trigger] t.subrange(k, k + p.len()) == p
}

proof fn lemma_inside(t: Seq<char>, p: Seq<char>)
    requires
        p.len() > 0,
    ensures
        search::occurs(t, p) == inside(t, p),
{
    search::lemma_first_from(t, p, 0);
    match search::first(t, p) {
        Some(k) => {
            assert(t.subrange(k, k + p.len()) == p);
        },
        None => {
            assert forall|k: int| 0 <= k <= t.len() - p.len() implies #[trigger] t.subrange(
                k,
                k + p.len(),
            ) != p by {
                assert(!search::stands_at(t, p, k));
            }
        },
    }
}

/// A word, or the beginning of one, that the store writes itself.
pub open spec fn store_word(t: Seq<char>) -> bool {
    ||| alike(t, "IPM.Note"@) || alike(t, "Anonymous"@) || alike(t, "Internal"@)
    ||| alike(t, "External"@) || alike(t, "Normal"@) || alike(t, "None"@) || alike(t, "Unknown"@)
    ||| alike(t, "Focused"@) || alike(t, "Mailbox"@) || alike(t, "SMTP"@)
    ||| begins(t, "image/"@) || begins(t, "application/"@) || begins(t, "text/"@)
    ||| begins(t, "multipart/"@)
}

/// What the store writes itself is one of its words, a GUID or a payload.
pub proof fn lemma_store_words(t: &[char], is_guid: bool, is_payload: bool, r: bool)
    requires
        call_ensures(classify::is_guid_chars, (t,), is_guid),
        call_ensures(classify::is_opaque_chars, (t,), is_payload),
        call_ensures(classify::is_enum_value, (t,), r),
    ensures
        r <==> store_word(t@) || is_guid || is_payload,
{
    let s = t@;
    lemma_alike("IPM.Note"@, s);
    lemma_alike("Anonymous"@, s);
    lemma_alike("Internal"@, s);
    lemma_alike("External"@, s);
    lemma_alike("Normal"@, s);
    lemma_alike("None"@, s);
    lemma_alike("Unknown"@, s);
    lemma_alike("Focused"@, s);
    lemma_alike("Mailbox"@, s);
    lemma_alike("SMTP"@, s);
    lemma_alike(s, "IPM.Note"@);
    lemma_alike(s, "Anonymous"@);
    lemma_alike(s, "Internal"@);
    lemma_alike(s, "External"@);
    lemma_alike(s, "Normal"@);
    lemma_alike(s, "None"@);
    lemma_alike(s, "Unknown"@);
    lemma_alike(s, "Focused"@);
    lemma_alike(s, "Mailbox"@);
    lemma_alike(s, "SMTP"@);
    lemma_begins(s, "image/"@);
    lemma_begins(s, "application/"@);
    lemma_begins(s, "text/"@);
    lemma_begins(s, "multipart/"@);
}

proof fn lemma_begins(t: Seq<char>, p: Seq<char>)
    ensures
        begins(t, p) == search::has_prefix(t, p),
{
    if p.len() <= t.len() {
        assert(t.take(p.len() as int) =~= t.subrange(0, p.len() as int));
    }
}

/// A run reads as a name: 2 to 48 characters, half of them letters at least, no
/// address, no markup, no end of a sentence within and no comma at the end, and
/// nothing that the store writes itself.
pub proof fn lemma_name_shape(t: &[char], letters: usize, store_value: bool, r: bool)
    requires
        call_ensures(classify::is_enum_value, (t,), store_value),
        call_ensures(classify::reads_as_person, (t, letters), r),
    ensures
        r <==> 2 <= t@.len() <= 48 && !t@.contains('@') && !t@.contains('<') && !t@.contains('>')
            && !inside(t@, seq!['.', ' ']) && t@.last() != ',' && 2 * letters >= t@.len()
            && !store_value,
{
    reveal_strlit(". ");
    assert(". "@ =~= seq!['.', ' ']);
    lemma_inside(t@, seq!['.', ' ']);
}

/// The end of a sentence stands at `k`.
pub open spec fn sentence_end(t: Seq<char>, k: int) -> bool {
    0 <= k && k + 1 < t.len() && t[k] == '.' && t[k + 1] == ' '
}

proof fn lemma_sentences(t: Seq<char>)
    ensures
        classify::sentence_ends(t) == 0 <==> forall|k: int| !#[trigger] sentence_end(t, k),
        classify::sentence_ends(t) < 2 <==> forall|j: int, k: int|
            #[trigger] sentence_end(t, j) && #[trigger] sentence_end(t, k) ==> j == k,
    decreases t.len(),
{
    if t.len() >= 2 {
        let front = t.drop_last();
        lemma_sentences(front);
        let last = t.len() - 2;
        assert forall|k: int| #[trigger] sentence_end(front, k) <==> sentence_end(t, k) && k
            != last by {}
        assert(sentence_end(t, last) == (t[last] == '.' && t.last() == ' '));
        if classify::sentence_ends(front) > 0 {
            let k = choose|k: int| #[trigger] sentence_end(front, k);
            assert(sentence_end(t, k));
            if classify::sentence_ends(front) >= 2 {
                let (a, b) = choose|a: int, b: int|
                    #[trigger] sentence_end(front, a) && #[trigger] sentence_end(front, b) && a
                        != b;
                assert(sentence_end(t, a) && sentence_end(t, b));
            } else if sentence_end(t, last) {
                assert(k != last);
            } else {
                assert forall|j: int, i: int|
                    #[trigger] sentence_end(t, j) && #[trigger] sentence_end(t, i) implies j
                    == i by {
                    assert(sentence_end(front, j) && sentence_end(front, i));
                }
            }
        } else {
            assert forall|j: int| #[trigger] sentence_end(t, j) implies j == last by {
                assert(!sentence_end(front, j));
            }
        }
    }
}

/// A run reads as a subject: 3 to 400 characters, half of them letters at least, no
/// address, no link, one end of a sentence within at most, and nothing that the store
/// writes itself.
pub proof fn lemma_subject_shape(
    t: &[char],
    letters: usize,
    store_value: bool,
    address: bool,
    r: bool,
)
    requires
        call_ensures(classify::is_enum_value, (t,), store_value),
        call_ensures(classify::is_email_chars, (t,), address),
        call_ensures(classify::reads_as_subject, (t, letters), r),
    ensures
        r <==> 3 <= t@.len() <= 400 && !address && !store_value && !inside(t@, "http"@) && !inside(
            t@,
            "mailto:"@,
        ) && 2 * letters >= t@.len() && forall|j: int, k: int|
            #[trigger] sentence_end(t@, j) && #[trigger] sentence_end(t@, k) ==> j == k,
{
    reveal_strlit("http");
    reveal_strlit("mailto:");
    lemma_inside(t@, "http"@);
    lemma_inside(t@, "mailto:"@);
    lemma_sentences(t@);
}

} // verus!
