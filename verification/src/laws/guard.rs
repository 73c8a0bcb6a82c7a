//! Laws of what may be run: by its first word, and one statement at a time.

use vstd::prelude::*;
use crate::laws::texts::{alike, blank, lemma_alike, letter};
use crate::sql;
use crate::statement;
use crate::statement::TokenV;
use crate::text;

verus! {

/// A character that neither quotes nor ends anything.
pub open spec fn plain(c: char) -> bool {
    letter(c) || 48 <= c as int <= 57 || c == '_' || c == ' ' || c == '*' || c == ',' || c == '='
        || c == '.' || c == '<' || c == '>'
}

/// The characters from `i` up to `h` are plain.
pub open spec fn plain_to(s: Seq<char>, i: int, h: int) -> bool {
    0 <= i <= h <= s.len() && forall|k: int| i <= k < h ==> plain(#[trigger] s[k])
}

/// A statement without marks: it begins with the word `w`, goes on in plain characters
/// and does not end in a blank.
pub open spec fn unmarked(s: Seq<char>, w: Seq<char>) -> bool {
    &&& w.len() > 0 && w.len() <= s.len() && s.take(w.len() as int) == w
    &&& forall|k: int| 0 <= k < w.len() ==> letter(#[trigger] w[k])
    &&& w.len() < s.len() ==> s[w.len() as int] == ' '
    &&& s.last() != ' '
    &&& plain_to(s, 0, s.len() as int)
}

/// A word with which a statement that reads may begin, with nothing to explain and no
/// names to give first.
pub open spec fn reading_word(w: Seq<char>) -> bool {
    alike(w, "select"@) || alike(w, "describe"@) || alike(w, "summarize"@) || alike(w, "show"@)
        || alike(w, "pragma"@) || alike(w, "table"@)
}

/// A word with which a statement may begin.
pub open spec fn allowed_word(w: Seq<char>) -> bool {
    reading_word(w) || alike(w, "with"@) || alike(w, "explain"@)
}

proof fn lemma_word_stays(s: Seq<char>, i: int, h: int)
    requires
        0 <= i <= h < s.len(),
        !statement::in_tag(s[h]),
        s[h] != '$',
    ensures
        statement::past_word(s, i) <= h,
    decreases h - i,
{
    if i < h {
        lemma_word_stays(s, i + 1, h);
    }
}

/// A text that is plain up to `h`, where it ends or something stands that no word goes
/// on with, and no quote that belongs to what is in front of it.
pub open spec fn stops_at(s: Seq<char>, h: int) -> bool {
    &&& 0 <= h <= s.len()
    &&& h < s.len() ==> !statement::in_tag(s[h]) && s[h] != '$' && (s[h] == '\'' ==> h > 0 && s[h
        - 1] == ' ')
}

/// What one part of plain text is: it stays in front of `h`, and is a word, a comma or
/// a mark of no meaning.
proof fn lemma_plain_part(s: Seq<char>, i: int, h: int)
    requires
        plain_to(s, i, h),
        stops_at(s, h),
        i < h,
    ensures
        ({
            let (end, token) = statement::part(s, i);
            &&& i < end <= h
            &&& token matches Some(t) ==> !(t is Semicolon) && !(t is Open)
            &&& s[i] != ' ' ==> token is Some
        }),
{
    let c = s[i];
    assert(plain(c));
    statement::lemma_part_moves_on(s, i);
    if i + 1 < h {
        assert(plain(s[i + 1]));
    }
    if h < s.len() {
        lemma_word_stays(s, i, h);
    }
}

proof fn lemma_no_semicolon(s: Seq<char>, i: int, h: int)
    requires
        plain_to(s, i, h),
        stops_at(s, h),
        h == s.len() || (s[h] == '\'' && statement::past_char(s, h + 1, '\'', '\'') == s.len()),
    ensures
        forall|k: int|
            0 <= k < statement::parts_from(s, i).len() ==> !(#[trigger] statement::parts_from(
                s,
                i,
            )[k] is Semicolon),
    decreases h - i,
{
    let ts = statement::parts_from(s, i);
    if i < h {
        lemma_plain_part(s, i, h);
        let (end, token) = statement::part(s, i);
        lemma_no_semicolon(s, end, h);
        let rest = statement::parts_from(s, end);
        assert forall|k: int| 0 <= k < ts.len() implies !(#[trigger] ts[k] is Semicolon) by {
            match token {
                Some(t) => {
                    assert(ts == seq![t] + rest);
                    if k > 0 {
                        assert(ts[k] == rest[k - 1]);
                    }
                },
                None => {
                    assert(ts == rest);
                },
            }
        }
    } else if h < s.len() {
        let rest = statement::parts_from(s, s.len() as int);
        assert(rest.len() == 0);
        assert(ts == seq![TokenV::Other] + rest);
    }
}

proof fn lemma_first_word(s: Seq<char>, w: Seq<char>, h: int)
    requires
        0 < w.len() <= h <= s.len(),
        s.take(w.len() as int) == w,
        forall|k: int| 0 <= k < w.len() ==> letter(#[trigger] w[k]),
        w.len() < s.len() ==> s[w.len() as int] == ' ',
    ensures
        statement::parts_from(s, 0).len() > 0,
        statement::parts_from(s, 0)[0] == TokenV::Word(text::ascii_lowered(w)),
{
    let n = w.len() as int;
    assert(letter(w[0]));
    assert(s.take(n)[0] == s[0]);
    lemma_word_end(s, w, 0);
    if n > 1 {
        assert(letter(w[1]));
        assert(s.take(n)[1] == s[1]);
    }
    assert(s.subrange(0, n) =~= w);
    let (end, token) = statement::part(s, 0);
    assert(token == Some(TokenV::Word(text::ascii_lowered(w))));
    let ts = statement::parts_from(s, 0);
    assert(ts == seq![token->Some_0] + statement::parts_from(s, end));
}

proof fn lemma_word_end(s: Seq<char>, w: Seq<char>, i: int)
    requires
        0 <= i <= w.len() <= s.len(),
        s.take(w.len() as int) == w,
        forall|k: int| 0 <= k < w.len() ==> letter(#[trigger] w[k]),
        w.len() < s.len() ==> s[w.len() as int] == ' ',
    ensures
        statement::past_word(s, i) == w.len(),
    decreases w.len() - i,
{
    if i < w.len() {
        assert(letter(w[i]));
        assert(s.take(w.len() as int)[i] == s[i]);
        lemma_word_end(s, w, i + 1);
    } else if i < s.len() {
        assert(!statement::in_tag(s[i])) by {
            assert(text::is_space(' '));
        }
    }
}

proof fn lemma_words()
    ensures
        text::ascii_lowered("select"@) == "select"@,
        text::ascii_lowered("with"@) == "with"@,
        text::ascii_lowered("describe"@) == "describe"@,
        text::ascii_lowered("summarize"@) == "summarize"@,
        text::ascii_lowered("show"@) == "show"@,
        text::ascii_lowered("explain"@) == "explain"@,
        text::ascii_lowered("pragma"@) == "pragma"@,
        text::ascii_lowered("table"@) == "table"@,
        "with"@.len() == 4,
        "explain"@.len() == 7,
        "select"@.len() == 6,
        "describe"@.len() == 8,
        "summarize"@.len() == 9,
        "show"@.len() == 4,
        "show"@ != "with"@,
        "pragma"@.len() == 6,
        "table"@.len() == 5,
{
    reveal_strlit("select");
    reveal_strlit("with");
    reveal_strlit("describe");
    reveal_strlit("summarize");
    reveal_strlit("show");
    reveal_strlit("explain");
    reveal_strlit("pragma");
    reveal_strlit("table");
    assert(text::ascii_lowered("select"@) =~= "select"@);
    assert(text::ascii_lowered("with"@) =~= "with"@);
    assert(text::ascii_lowered("describe"@) =~= "describe"@);
    assert(text::ascii_lowered("summarize"@) =~= "summarize"@);
    assert(text::ascii_lowered("show"@) =~= "show"@);
    assert(text::ascii_lowered("explain"@) =~= "explain"@);
    assert(text::ascii_lowered("pragma"@) =~= "pragma"@);
    assert(text::ascii_lowered("table"@) =~= "table"@);
    assert("show"@[0] == 's' && "with"@[0] == 'w');
}

proof fn lemma_alike_words(w: Seq<char>)
    ensures
        allowed_word(w) == sql::may_start(text::ascii_lowered(w)),
        reading_word(w) ==> statement::reads(text::ascii_lowered(w)) && text::ascii_lowered(w)
            != "with"@ && text::ascii_lowered(w) != "explain"@,
{
    lemma_words();
    lemma_alike(w, "select"@);
    lemma_alike(w, "with"@);
    lemma_alike(w, "describe"@);
    lemma_alike(w, "summarize"@);
    lemma_alike(w, "show"@);
    lemma_alike(w, "explain"@);
    lemma_alike(w, "pragma"@);
    lemma_alike(w, "table"@);
}

proof fn lemma_not_trimmed(s: Seq<char>)
    requires
        s.len() > 0,
        !blank(s[0]),
        !blank(s.last()),
    ensures
        text::trimmed(s) == s,
{
}

proof fn lemma_judged(s: Seq<char>, w: Seq<char>)
    requires
        statement::parts_from(s, 0).len() > 0,
        statement::parts_from(s, 0)[0] == TokenV::Word(text::ascii_lowered(w)),
        reading_word(w),
    ensures
        sql::may_start(statement::start(statement::tokens(s))),
        statement::first_writing(statement::verbs(statement::tokens(s))) is None,
{
    lemma_alike_words(w);
    let ts = statement::tokens(s);
    let low = text::ascii_lowered(w);
    assert(statement::past_opens(ts) == ts);
    assert(statement::verbs(ts) == seq![low]);
    statement::lemma_none_writes(seq![low]);
    assert forall|i: int| 0 <= i < 1 implies statement::reads(#[trigger] seq![low][i]) by {}
}

/// A statement without marks is judged by its first word: with a reading one it may
/// run, whatever the case of its letters; with one that is not allowed it may not.
pub proof fn lemma_first_word_decides(s: &str, w: Seq<char>, r: Result<(), String>)
    requires
        unmarked(s@, w),
        call_ensures(sql::check_read_only, (s,), r),
    ensures
        reading_word(w) ==> r is Ok,
        !allowed_word(w) ==> r is Err,
{
    let t = s@;
    let n = t.len() as int;
    assert(letter(w[0]));
    assert(t.take(w.len() as int)[0] == t[0]);
    assert(plain(t[n - 1]));
    lemma_not_trimmed(t);
    lemma_first_word(t, w, n);
    lemma_alike_words(w);
    let ts = statement::tokens(t);
    assert(statement::past_opens(ts) == ts);
    assert(statement::start(ts) == text::ascii_lowered(w));
    if reading_word(w) {
        lemma_judged(t, w);
        lemma_no_semicolon(t, 0, n);
    }
}

/// What stands between quotes makes no difference, be it a second statement.
pub proof fn lemma_quoted_text_is_no_statement(
    s: &str,
    w: Seq<char>,
    h: int,
    r: Result<(), String>,
)
    requires
        0 < w.len() < h < s@.len() - 1,
        s@.take(w.len() as int) == w,
        forall|k: int| 0 <= k < w.len() ==> letter(#[trigger] w[k]),
        s@[w.len() as int] == ' ',
        plain_to(s@, 0, h),
        s@[h - 1] == ' ',
        s@[h] == '\'',
        s@.last() == '\'',
        forall|k: int| h < k < s@.len() - 1 ==> #[trigger] s@[k] != '\'',
        reading_word(w),
        call_ensures(sql::check_read_only, (s,), r),
    ensures
        r is Ok,
{
    let t = s@;
    assert(letter(w[0]));
    assert(t.take(w.len() as int)[0] == t[0]);
    lemma_not_trimmed(t);
    lemma_first_word(t, w, h);
    lemma_judged(t, w);
    lemma_quote_end(t, h + 1);
    lemma_no_semicolon(t, 0, h);
}

proof fn lemma_quote_end(s: Seq<char>, i: int)
    requires
        0 <= i < s.len(),
        s.last() == '\'',
        forall|k: int| i <= k < s.len() - 1 ==> #[trigger] s[k] != '\'',
    ensures
        statement::past_char(s, i, '\'', '\'') == s.len(),
    decreases s.len() - i,
{
    if i < s.len() - 1 {
        assert(s[i] != '\'');
        lemma_quote_end(s, i + 1);
    }
}

proof fn lemma_second_statement(s: Seq<char>, i: int, h: int) -> (k: int)
    requires
        plain_to(s, i, h),
        stops_at(s, h),
        h + 1 < s.len(),
        s[h] == ';',
        plain_to(s, h + 1, s.len() as int),
        s[h + 1] != ' ',
    ensures
        0 <= k < statement::parts_from(s, i).len() - 1,
        statement::parts_from(s, i)[k] is Semicolon,
        !(statement::parts_from(s, i)[k + 1] is Semicolon),
    decreases h - i,
{
    let ts = statement::parts_from(s, i);
    if i < h {
        lemma_plain_part(s, i, h);
        let (end, token) = statement::part(s, i);
        let k = lemma_second_statement(s, end, h);
        let rest = statement::parts_from(s, end);
        match token {
            Some(t) => {
                assert(ts == seq![t] + rest);
                assert(ts[k + 1] == rest[k] && ts[k + 1 + 1] == rest[k + 1]);
                k + 1
            },
            None => k,
        }
    } else {
        assert(plain(s[h + 1]));
        lemma_plain_part(s, h + 1, s.len() as int);
        let (end, token) = statement::part(s, h + 1);
        let rest = statement::parts_from(s, h + 1);
        assert(rest == seq![token->Some_0] + statement::parts_from(s, end));
        assert(statement::part(s, h) == (h + 1, Some(TokenV::Semicolon)));
        assert(ts == seq![TokenV::Semicolon] + rest);
        assert(ts[1] == rest[0]);
        0
    }
}

/// A second statement behind a semicolon is refused, whatever the first.
pub proof fn lemma_one_statement_at_a_time(s: &str, h: int, r: Result<(), String>)
    requires
        0 < h,
        h + 1 < s@.len(),
        plain_to(s@, 0, h),
        s@[0] != ' ',
        s@[h] == ';',
        plain_to(s@, h + 1, s@.len() as int),
        s@[h + 1] != ' ',
        s@.last() != ' ',
        call_ensures(sql::check_read_only, (s,), r),
    ensures
        r is Err,
{
    let t = s@;
    assert(plain(t[0]));
    assert(plain(t[t.len() - 1]));
    lemma_not_trimmed(t);
    let k = lemma_second_statement(t, 0, h);
    let ts = statement::tokens(t);
    assert(ts[k] is Semicolon && !(ts[k + 1] is Semicolon));
    assert(!statement::is_single(ts));
}

} // verus!
