//! Statements as sequences of words and marks, and the verbs that run in them.
//!
//! What stands in quotes or in a comment is no part of a statement's structure: a
//! semicolon or a verb there means nothing.

use vstd::prelude::*;
use crate::search;
use crate::text;
use crate::views;

verus! {

broadcast use views::lemma_views_push;

/// A part of a statement.
#[derive(Clone, Debug)]
pub enum Token {
    /// A word in small letters.
    Word(Vec<char>),
    /// `(`
    Open,
    /// `)`
    Close,
    /// `,`
    Comma,
    /// `;`
    Semicolon,
    /// A quoted text or name, a digit, or any other mark.
    Other,
}

/// A part of a statement, its word as a sequence of characters.
pub enum TokenV {
    Word(Seq<char>),
    Open,
    Close,
    Comma,
    Semicolon,
    Other,
}

impl View for Token {
    type V = TokenV;

    open spec fn view(&self) -> TokenV {
        match self {
            Token::Word(w) => TokenV::Word(w@),
            Token::Open => TokenV::Open,
            Token::Close => TokenV::Close,
            Token::Comma => TokenV::Comma,
            Token::Semicolon => TokenV::Semicolon,
            Token::Other => TokenV::Other,
        }
    }
}

/// White space, or a space without width.
pub open spec fn is_blank(c: char) -> bool {
    text::is_space(c) || c == '\u{200b}' || c == '\u{2060}' || c == '\u{feff}'
}

fn blank(c: char) -> (r: bool)
    ensures
        r == is_blank(c),
{
    text::is_whitespace(c) || c == '\u{200b}' || c == '\u{2060}' || c == '\u{feff}'
}

pub open spec fn is_digit(c: char) -> bool {
    '0' <= c && c <= '9'
}

/// Whether a word can begin with this character.
pub open spec fn begins_word(c: char) -> bool {
    text::is_ascii_letter(c) || c == '_' || (c as u32 >= 0x80 && !is_blank(c))
}

fn starts_word(c: char) -> (r: bool)
    ensures
        r == begins_word(c),
{
    text::ascii_letter(c) || c == '_' || (c as u32 >= 0x80 && !blank(c))
}

/// Whether the tag of a dollar quote can hold this character.
pub open spec fn in_tag(c: char) -> bool {
    begins_word(c) || is_digit(c)
}

fn tag_char(c: char) -> (r: bool)
    ensures
        r == in_tag(c),
{
    starts_word(c) || ('0' <= c && c <= '9')
}

/// The offset just past the first `a` or `b` from `i` on; the end if there is
/// none.
pub open spec fn past_char(s: Seq<char>, i: int, a: char, b: char) -> int
    decreases s.len() - i,
{
    if i >= s.len() {
        s.len() as int
    } else if s[i] == a || s[i] == b {
        i + 1
    } else {
        past_char(s, i + 1, a, b)
    }
}

fn find_past_char(s: &[char], from: usize, a: char, b: char) -> (r: usize)
    requires
        from <= s@.len(),
    ensures
        r == past_char(s@, from as int, a, b),
        from <= r <= s@.len(),
{
    let n: usize = s.len();
    let mut i: usize = from;
    while i < n
        invariant
            n == s@.len(),
            from <= i <= n,
            past_char(s@, i as int, a, b) == past_char(s@, from as int, a, b),
        decreases n - i,
    {
        if s[i] == a || s[i] == b {
            return i + 1;
        }
        i = i + 1;
    }
    n
}

/// The offset just past the quote that ends an escaped text whose contents begin
/// at `i`. A backslash takes the character behind it along, and a doubled quote
/// stands for one.
pub open spec fn past_escaped(s: Seq<char>, i: int) -> int
    decreases s.len() - i,
{
    if i >= s.len() {
        s.len() as int
    } else if s[i] == '\\' && i + 1 < s.len() {
        past_escaped(s, i + 2)
    } else if s[i] == '\'' {
        if i + 1 < s.len() && s[i + 1] == '\'' {
            past_escaped(s, i + 2)
        } else {
            i + 1
        }
    } else {
        past_escaped(s, i + 1)
    }
}

fn find_past_escaped(s: &[char], from: usize) -> (r: usize)
    requires
        from <= s@.len(),
    ensures
        r == past_escaped(s@, from as int),
        from <= r <= s@.len(),
{
    let n: usize = s.len();
    let mut i: usize = from;
    while i < n
        invariant
            n == s@.len(),
            from <= i <= n,
            past_escaped(s@, i as int) == past_escaped(s@, from as int),
        decreases n - i,
    {
        if s[i] == '\'' && !(n - i > 1 && s[i + 1] == '\'') {
            return i + 1;
        }
        if n - i > 1 && (s[i] == '\\' || s[i] == '\'') {
            i = i + 2;
        } else {
            i = i + 1;
        }
    }
    n
}

/// The offset just past the end of a comment in slashes and stars that is `depth`
/// deep at `i`. Such comments nest.
pub open spec fn past_comment(s: Seq<char>, i: int, depth: int) -> int
    decreases s.len() - i,
{
    if i + 1 >= s.len() {
        s.len() as int
    } else if s[i] == '/' && s[i + 1] == '*' {
        past_comment(s, i + 2, depth + 1)
    } else if s[i] == '*' && s[i + 1] == '/' {
        if depth <= 1 {
            i + 2
        } else {
            past_comment(s, i + 2, depth - 1)
        }
    } else {
        past_comment(s, i + 1, depth)
    }
}

fn find_past_comment(s: &[char], from: usize) -> (r: usize)
    requires
        from <= s@.len(),
    ensures
        r == past_comment(s@, from as int, 1),
        from <= r <= s@.len(),
{
    let n: usize = s.len();
    let mut i: usize = from;
    let mut depth: usize = 1;
    while i < n && n - i > 1
        invariant
            n == s@.len(),
            from <= i <= n,
            1 <= depth <= 1 + (i - from),
            past_comment(s@, i as int, depth as int) == past_comment(s@, from as int, 1),
        decreases n - i,
    {
        if s[i] == '/' && s[i + 1] == '*' {
            depth = depth + 1;
            i = i + 2;
        } else if s[i] == '*' && s[i + 1] == '/' {
            if depth <= 1 {
                return i + 2;
            }
            depth = depth - 1;
            i = i + 2;
        } else {
            i = i + 1;
        }
    }
    n
}

/// The offset just past the word whose characters go on at `i`.
pub open spec fn past_word(s: Seq<char>, i: int) -> int
    decreases s.len() - i,
{
    if 0 <= i < s.len() && (in_tag(s[i]) || s[i] == '$') {
        past_word(s, i + 1)
    } else {
        i
    }
}

fn find_past_word(s: &[char], from: usize) -> (r: usize)
    requires
        from <= s@.len(),
    ensures
        r == past_word(s@, from as int),
        from <= r <= s@.len(),
{
    let n: usize = s.len();
    let mut i: usize = from;
    while i < n && (tag_char(s[i]) || s[i] == '$')
        invariant
            n == s@.len(),
            from <= i <= n,
            past_word(s@, i as int) == past_word(s@, from as int),
        decreases n - i,
    {
        i = i + 1;
    }
    i
}

/// The offset of the dollar sign that ends the tag whose characters go on at `i`,
/// if nothing else stands in front of it.
pub open spec fn tag_end(s: Seq<char>, i: int) -> Option<int>
    decreases s.len() - i,
{
    if i < 0 || i >= s.len() {
        None
    } else if s[i] == '$' {
        Some(i)
    } else if in_tag(s[i]) {
        tag_end(s, i + 1)
    } else {
        None
    }
}

fn find_tag_end(s: &[char], from: usize) -> (r: Option<usize>)
    requires
        from <= s@.len(),
    ensures
        search::place(r) == tag_end(s@, from as int),
        r matches Some(p) ==> from <= p < s@.len(),
{
    let n: usize = s.len();
    let mut i: usize = from;
    while i < n
        invariant
            n == s@.len(),
            from <= i <= n,
            tag_end(s@, i as int) == tag_end(s@, from as int),
        decreases n - i,
    {
        if s[i] == '$' {
            return Some(i);
        }
        if !tag_char(s[i]) {
            return None;
        }
        i = i + 1;
    }
    None
}

/// The offset just past a text in dollar quotes that begins at `i`, if one does:
/// it ends where the tag between dollar signs that it begins with comes again.
pub open spec fn past_dollars(s: Seq<char>, i: int) -> Option<int> {
    if i + 1 < s.len() && is_digit(s[i + 1]) {
        None
    } else {
        match tag_end(s, i + 1) {
            None => None,
            Some(p) => match search::first_from(s, s.subrange(i, p + 1), p + 1) {
                Some(q) => Some(q + (p + 1 - i)),
                None => Some(s.len() as int),
            },
        }
    }
}

proof fn lemma_tag_end(s: Seq<char>, i: int)
    ensures
        tag_end(s, i) matches Some(p) ==> i <= p < s.len(),
    decreases s.len() - i,
{
    if 0 <= i < s.len() {
        lemma_tag_end(s, i + 1);
    }
}

fn find_past_dollars(s: &[char], i: usize) -> (r: Option<usize>)
    requires
        i < s@.len(),
    ensures
        search::place(r) == past_dollars(s@, i as int),
        r matches Some(p) ==> i < p <= s@.len(),
{
    let n: usize = s.len();
    if n - i > 1 && '0' <= s[i + 1] && s[i + 1] <= '9' {
        return None;
    }
    match find_tag_end(s, i + 1) {
        None => None,
        Some(p) => {
            let tag: &[char] = vstd::slice::slice_subrange(s, i, p + 1);
            proof {
                search::lemma_first_from(s@, tag@, p + 1);
            }
            match search::find_chars_from(s, tag, p + 1) {
                Some(q) => Some(q + (p + 1 - i)),
                None => Some(n),
            }
        },
    }
}

/// Where the part of a statement that begins at `i` ends, and what it is. White
/// space and comments are nothing.
pub open spec fn part(s: Seq<char>, i: int) -> (int, Option<TokenV>) {
    let c = s[i];
    let next = if i + 1 < s.len() {
        s[i + 1]
    } else {
        ' '
    };
    if is_blank(c) {
        (i + 1, None)
    } else if c == '-' && next == '-' {
        (past_char(s, i + 2, '\n', '\r'), None)
    } else if c == '/' && next == '*' {
        (past_comment(s, i + 2, 1), None)
    } else if c == '\'' || c == '"' || c == '`' {
        (past_char(s, i + 1, c, c), Some(TokenV::Other))
    } else if (c == 'e' || c == 'E') && next == '\'' {
        (past_escaped(s, i + 2), Some(TokenV::Other))
    } else if begins_word(c) {
        (past_word(s, i), Some(TokenV::Word(text::ascii_lowered(s.subrange(i, past_word(s, i))))))
    } else if c == '$' && past_dollars(s, i) is Some {
        (past_dollars(s, i)->0, Some(TokenV::Other))
    } else if c == '(' {
        (i + 1, Some(TokenV::Open))
    } else if c == ')' {
        (i + 1, Some(TokenV::Close))
    } else if c == ',' {
        (i + 1, Some(TokenV::Comma))
    } else if c == ';' {
        (i + 1, Some(TokenV::Semicolon))
    } else {
        (i + 1, Some(TokenV::Other))
    }
}

proof fn lemma_past_char(s: Seq<char>, i: int, a: char, b: char)
    requires
        0 <= i <= s.len(),
    ensures
        i <= past_char(s, i, a, b) <= s.len(),
    decreases s.len() - i,
{
    if i < s.len() {
        lemma_past_char(s, i + 1, a, b);
    }
}

proof fn lemma_past_escaped(s: Seq<char>, i: int)
    requires
        0 <= i <= s.len(),
    ensures
        i <= past_escaped(s, i) <= s.len(),
    decreases s.len() - i,
{
    if i < s.len() {
        lemma_past_escaped(s, i + 1);
        if i + 2 <= s.len() {
            lemma_past_escaped(s, i + 2);
        }
    }
}

proof fn lemma_past_comment(s: Seq<char>, i: int, depth: int)
    requires
        0 <= i <= s.len(),
    ensures
        i <= past_comment(s, i, depth) <= s.len(),
    decreases s.len() - i,
{
    if i + 1 < s.len() {
        lemma_past_comment(s, i + 1, depth);
        lemma_past_comment(s, i + 2, depth + 1);
        lemma_past_comment(s, i + 2, depth - 1);
    }
}

proof fn lemma_past_word(s: Seq<char>, i: int)
    requires
        0 <= i <= s.len(),
    ensures
        i <= past_word(s, i) <= s.len(),
        i < s.len() && begins_word(s[i]) ==> i < past_word(s, i),
    decreases s.len() - i,
{
    if i < s.len() {
        lemma_past_word(s, i + 1);
    }
}

/// Every part of a statement takes some of it.
pub proof fn lemma_part_moves_on(s: Seq<char>, i: int)
    requires
        0 <= i < s.len(),
    ensures
        i < part(s, i).0 <= s.len(),
{
    lemma_past_char(s, i + 1, s[i], s[i]);
    lemma_past_word(s, i);
    if i + 2 <= s.len() {
        lemma_past_char(s, i + 2, '\n', '\r');
        lemma_past_comment(s, i + 2, 1);
        lemma_past_escaped(s, i + 2);
    }
    lemma_tag_end(s, i + 1);
    if let Some(p) = tag_end(s, i + 1) {
        search::lemma_first_from(s, s.subrange(i, p + 1), p + 1);
    }
}

/// The parts of a statement from offset `i` on.
pub open spec fn parts_from(s: Seq<char>, i: int) -> Seq<TokenV>
    decreases s.len() - i,
{
    if i < 0 || i >= s.len() {
        seq![]
    } else {
        proof {
            lemma_part_moves_on(s, i);
        }
        let (end, token) = part(s, i);
        match token {
            Some(t) => seq![t] + parts_from(s, end),
            None => parts_from(s, end),
        }
    }
}

/// The parts of a statement.
pub open spec fn tokens(s: Seq<char>) -> Seq<TokenV> {
    parts_from(s, 0)
}

fn read_part(s: &[char], i: usize) -> (r: (usize, Option<Token>))
    requires
        i < s@.len(),
    ensures
        r.0 == part(s@, i as int).0,
        match r.1 {
            Some(t) => part(s@, i as int).1 == Some(t@),
            None => part(s@, i as int).1 is None,
        },
{
    let c: char = s[i];
    let next: char = if s.len() - i > 1 {
        s[i + 1]
    } else {
        ' '
    };
    if blank(c) {
        (i + 1, None)
    } else if c == '-' && next == '-' {
        (find_past_char(s, i + 2, '\n', '\r'), None)
    } else if c == '/' && next == '*' {
        (find_past_comment(s, i + 2), None)
    } else if c == '\'' || c == '"' || c == '`' {
        (find_past_char(s, i + 1, c, c), Some(Token::Other))
    } else if (c == 'e' || c == 'E') && next == '\'' {
        (find_past_escaped(s, i + 2), Some(Token::Other))
    } else if starts_word(c) {
        let end: usize = find_past_word(s, i);
        let word: Vec<char> = text::to_ascii_lower(vstd::slice::slice_subrange(s, i, end));
        (end, Some(Token::Word(word)))
    } else {
        let quoted: Option<usize> = if c == '$' {
            find_past_dollars(s, i)
        } else {
            None
        };
        match quoted {
            Some(end) => (end, Some(Token::Other)),
            None => (
                i + 1,
                Some(
                    if c == '(' {
                        Token::Open
                    } else if c == ')' {
                        Token::Close
                    } else if c == ',' {
                        Token::Comma
                    } else if c == ';' {
                        Token::Semicolon
                    } else {
                        Token::Other
                    },
                ),
            ),
        }
    }
}

/// The parts of a statement.
pub fn tokenize(s: &[char]) -> (r: Vec<Token>)
    ensures
        views::views(r@) == tokens(s@),
{
    let mut out: Vec<Token> = Vec::new();
    let mut i: usize = 0;
    assert(views::views(out@) + parts_from(s@, 0) =~= parts_from(s@, 0));
    while i < s.len()
        invariant
            i <= s@.len(),
            views::views(out@) + parts_from(s@, i as int) == tokens(s@),
        decreases s@.len() - i,
    {
        proof {
            lemma_part_moves_on(s@, i as int);
        }
        let (end, token) = read_part(s, i);
        if let Some(t) = token {
            proof {
                let rest = parts_from(s@, end as int);
                assert(views::views(out@) + (seq![t@] + rest) =~= views::views(out@).push(t@) + rest);
            }
            out.push(t);
        }
        i = end;
    }
    assert(views::views(out@) + parts_from(s@, i as int) =~= views::views(out@));
    out
}

/// What stands behind the brackets that the parts open with.
pub open spec fn past_opens(ts: Seq<TokenV>) -> Seq<TokenV>
    decreases ts.len(),
{
    if ts.len() > 0 && ts[0] is Open {
        past_opens(ts.skip(1))
    } else {
        ts
    }
}

fn skip_opens<'a>(ts: &'a [Token]) -> (r: &'a [Token])
    ensures
        views::views(r@) == past_opens(views::views(ts@)),
        r@.len() <= ts@.len(),
{
    let ghost all = views::views(ts@);
    let mut i: usize = 0;
    assert(all.skip(0) =~= all);
    while i < ts.len() && matches!(ts[i], Token::Open)
        invariant
            i <= ts@.len(),
            all == views::views(ts@),
            past_opens(all.skip(i as int)) == past_opens(all),
        decreases ts@.len() - i,
    {
        assert(all[i as int] == ts@[i as int]@);
        assert(all.skip(i as int).skip(1) =~= all.skip(i + 1));
        i = i + 1;
    }
    proof {
        if i < ts@.len() {
            assert(all.skip(i as int)[0] == ts@[i as int]@);
        }
    }
    let rest: &[Token] = vstd::slice::slice_subrange(ts, i, ts.len());
    assert(views::views(rest@) =~= all.skip(i as int));
    rest
}

/// The place just past the bracket that closes what is `depth` brackets deep at
/// `i`; the end if there is none.
pub open spec fn group_end(ts: Seq<TokenV>, i: int, depth: int) -> int
    decreases ts.len() - i,
{
    if i >= ts.len() {
        ts.len() as int
    } else if ts[i] is Open {
        group_end(ts, i + 1, depth + 1)
    } else if ts[i] is Close {
        if depth <= 1 {
            i + 1
        } else {
            group_end(ts, i + 1, depth - 1)
        }
    } else {
        group_end(ts, i + 1, depth)
    }
}

/// A bracket closes inside, or with the end.
pub proof fn lemma_group_end(ts: Seq<TokenV>, i: int, depth: int)
    requires
        0 <= i <= ts.len(),
    ensures
        i <= group_end(ts, i, depth) <= ts.len(),
    decreases ts.len() - i,
{
    if i < ts.len() {
        lemma_group_end(ts, i + 1, depth);
        lemma_group_end(ts, i + 1, depth + 1);
        lemma_group_end(ts, i + 1, depth - 1);
    }
}

fn find_group_end(ts: &[Token], from: usize) -> (r: usize)
    requires
        1 <= from <= ts@.len(),
    ensures
        r == group_end(views::views(ts@), from as int, 1),
        from <= r <= ts@.len(),
{
    let ghost all = views::views(ts@);
    let n: usize = ts.len();
    let mut i: usize = from;
    let mut depth: usize = 1;
    while i < n
        invariant
            n == ts@.len(),
            all == views::views(ts@),
            1 <= from <= i <= n,
            1 <= depth <= 1 + (i - from),
            group_end(all, i as int, depth as int) == group_end(all, from as int, 1),
        decreases n - i,
    {
        assert(all[i as int] == ts@[i as int]@);
        match &ts[i] {
            Token::Open => {
                depth = depth + 1;
            },
            Token::Close => {
                if depth <= 1 {
                    return i + 1;
                }
                depth = depth - 1;
            },
            _ => {},
        }
        i = i + 1;
    }
    n
}

/// The place of the first `as` outside brackets from `i` on; the end if there is
/// none.
pub open spec fn as_at(ts: Seq<TokenV>, i: int) -> int
    decreases ts.len() - i,
{
    if i < 0 || i >= ts.len() {
        ts.len() as int
    } else if ts[i] == TokenV::Word("as"@) {
        i
    } else if ts[i] is Open {
        proof {
            lemma_group_end(ts, i + 1, 1);
        }
        as_at(ts, group_end(ts, i + 1, 1))
    } else {
        as_at(ts, i + 1)
    }
}

fn is_word(t: &Token, w: &str) -> (r: bool)
    ensures
        r == (t@ == TokenV::Word(w@)),
{
    match t {
        Token::Word(v) => text::same_chars(v.as_slice(), text::chars_of(w).as_slice()),
        _ => false,
    }
}

fn find_as(ts: &[Token]) -> (r: usize)
    ensures
        r == as_at(views::views(ts@), 0),
        r <= ts@.len(),
{
    let ghost all = views::views(ts@);
    let n: usize = ts.len();
    let mut i: usize = 0;
    while i < n
        invariant
            n == ts@.len(),
            all == views::views(ts@),
            i <= n,
            as_at(all, i as int) == as_at(all, 0),
        decreases n - i,
    {
        assert(all[i as int] == ts@[i as int]@);
        if is_word(&ts[i], "as") {
            return i;
        }
        if matches!(ts[i], Token::Open) {
            i = find_group_end(ts, i + 1);
        } else {
            i = i + 1;
        }
    }
    n
}

/// The place of the first opening bracket from `i` on; the end if there is none.
pub open spec fn open_at(ts: Seq<TokenV>, i: int) -> int
    decreases ts.len() - i,
{
    if i < 0 || i >= ts.len() {
        ts.len() as int
    } else if ts[i] is Open {
        i
    } else {
        open_at(ts, i + 1)
    }
}

proof fn lemma_open_at(ts: Seq<TokenV>, i: int)
    requires
        0 <= i <= ts.len(),
    ensures
        i <= open_at(ts, i) <= ts.len(),
    decreases ts.len() - i,
{
    if i < ts.len() {
        lemma_open_at(ts, i + 1);
    }
}

proof fn lemma_as_at(ts: Seq<TokenV>, i: int)
    requires
        0 <= i <= ts.len(),
    ensures
        i <= as_at(ts, i) <= ts.len(),
    decreases ts.len() - i,
{
    if i < ts.len() {
        lemma_group_end(ts, i + 1, 1);
        lemma_as_at(ts, group_end(ts, i + 1, 1));
        lemma_as_at(ts, i + 1);
    }
}

fn find_open(ts: &[Token], from: usize) -> (r: usize)
    requires
        from <= ts@.len(),
    ensures
        r == open_at(views::views(ts@), from as int),
        from <= r <= ts@.len(),
{
    let ghost all = views::views(ts@);
    let n: usize = ts.len();
    let mut i: usize = from;
    while i < n
        invariant
            n == ts@.len(),
            all == views::views(ts@),
            from <= i <= n,
            open_at(all, i as int) == open_at(all, from as int),
        decreases n - i,
    {
        assert(all[i as int] == ts@[i as int]@);
        if matches!(ts[i], Token::Open) {
            return i;
        }
        i = i + 1;
    }
    n
}

/// The words that stand between `explain` and its options or its statement.
pub open spec fn is_manner(t: TokenV) -> bool {
    t == TokenV::Word("analyze"@) || t == TokenV::Word("analyse"@) || t == TokenV::Word("verbose"@)
}

pub open spec fn past_manner(ts: Seq<TokenV>) -> Seq<TokenV>
    decreases ts.len(),
{
    if ts.len() > 0 && is_manner(ts[0]) {
        past_manner(ts.skip(1))
    } else {
        ts
    }
}

fn skip_manner<'a>(ts: &'a [Token]) -> (r: &'a [Token])
    ensures
        views::views(r@) == past_manner(views::views(ts@)),
        r@.len() <= ts@.len(),
{
    let ghost all = views::views(ts@);
    let mut i: usize = 0;
    assert(all.skip(0) =~= all);
    while i < ts.len() && (is_word(&ts[i], "analyze") || is_word(&ts[i], "analyse") || is_word(
        &ts[i],
        "verbose",
    ))
        invariant
            i <= ts@.len(),
            all == views::views(ts@),
            past_manner(all.skip(i as int)) == past_manner(all),
        decreases ts@.len() - i,
    {
        assert(all[i as int] == ts@[i as int]@);
        assert(all.skip(i as int).skip(1) =~= all.skip(i + 1));
        i = i + 1;
    }
    proof {
        if i < ts@.len() {
            assert(all.skip(i as int)[0] == ts@[i as int]@);
        }
    }
    let rest: &[Token] = vstd::slice::slice_subrange(ts, i, ts.len());
    assert(views::views(rest@) =~= all.skip(i as int));
    rest
}

/// Whether a bracket behind `explain` is a statement, by its first word: none of
/// these can name an option.
pub open spec fn is_query(t: TokenV) -> bool {
    ||| t == TokenV::Word("select"@)
    ||| t == TokenV::Word("with"@)
    ||| t == TokenV::Word("from"@)
    ||| t == TokenV::Word("table"@)
}

/// Whether the parts begin with options in brackets and go on behind them.
pub open spec fn has_options(ts: Seq<TokenV>) -> bool {
    &&& ts.len() > 1
    &&& ts[0] is Open
    &&& ts[1] is Word && !is_query(ts[1])
    &&& group_end(ts, 1, 1) < ts.len()
    &&& !(ts[group_end(ts, 1, 1)] is Semicolon)
}

/// The statement that is explained, of what stands behind `explain`.
pub open spec fn explained(ts: Seq<TokenV>) -> Seq<TokenV> {
    let rest = past_manner(ts);
    if has_options(rest) {
        rest.skip(group_end(rest, 1, 1))
    } else {
        rest
    }
}

fn find_explained<'a>(ts: &'a [Token]) -> (r: &'a [Token])
    ensures
        views::views(r@) == explained(views::views(ts@)),
        r@.len() <= ts@.len(),
{
    let rest: &[Token] = skip_manner(ts);
    let ghost all = views::views(rest@);
    if rest.len() > 1 {
        assert(all[0] == rest@[0]@ && all[1] == rest@[1]@);
        let first: &Token = &rest[1];
        if matches!(rest[0], Token::Open) && matches!(first, Token::Word(_)) && !(is_word(
            first,
            "select",
        ) || is_word(first, "with") || is_word(first, "from") || is_word(first, "table")) {
            let end: usize = find_group_end(rest, 1);
            if end < rest.len() {
                assert(all[end as int] == rest@[end as int]@);
                if !matches!(rest[end], Token::Semicolon) {
                    let statement: &[Token] = vstd::slice::slice_subrange(rest, end, rest.len());
                    assert(views::views(statement@) =~= all.skip(end as int));
                    return statement;
                }
            }
        }
    }
    rest
}

/// The verbs of statements that only read. `with` and `explain` are none: what
/// they stand in front of decides.
pub open spec fn reads(verb: Seq<char>) -> bool {
    ||| verb == "select"@
    ||| verb == "from"@
    ||| verb == "values"@
    ||| verb == "table"@
    ||| verb == "pivot"@
    ||| verb == "pivot_wider"@
    ||| verb == "unpivot"@
    ||| verb == "pivot_longer"@
    ||| verb == "describe"@
    ||| verb == "desc"@
    ||| verb == "summarize"@
    ||| verb == "show"@
    ||| verb == "pragma"@
}

fn is_reading(t: &Token) -> (r: bool)
    ensures
        r == (t@ matches TokenV::Word(w) && reads(w)),
{
    is_word(t, "select") || is_word(t, "from") || is_word(t, "values") || is_word(t, "table")
        || is_word(t, "pivot") || is_word(t, "pivot_wider") || is_word(t, "unpivot") || is_word(
        t,
        "pivot_longer",
    ) || is_word(t, "describe") || is_word(t, "desc") || is_word(t, "summarize") || is_word(
        t,
        "show",
    ) || is_word(t, "pragma")
}

/// The verbs that run in a statement, in the order in which they stand: behind
/// `explain` that of the statement explained; of a statement that begins with
/// `with` those of its named queries and, last, that of the statement they are
/// for; else its first word, which is empty where none stands first. Brackets
/// around a statement are passed over.
pub open spec fn verbs(ts: Seq<TokenV>) -> Seq<Seq<char>>
    decreases ts.len(), 0nat,
{
    let rest = past_opens(ts);
    proof {
        lemma_past_opens(ts);
    }
    if rest.len() == 0 {
        seq![seq![]]
    } else if rest[0] == TokenV::Word("with"@) {
        list_verbs(rest.skip(1))
    } else if rest[0] == TokenV::Word("explain"@) {
        proof {
            lemma_explained(rest.skip(1));
        }
        verbs(explained(rest.skip(1)))
    } else {
        match rest[0] {
            TokenV::Word(w) => seq![w],
            _ => seq![seq![]],
        }
    }
}

/// The verbs of a list of named queries, each a name, `as` and a statement in
/// brackets, and of the statement behind it.
pub open spec fn list_verbs(ts: Seq<TokenV>) -> Seq<Seq<char>>
    decreases ts.len(), 1nat,
{
    let open = open_at(ts, as_at(ts, 0) + 1);
    let end = group_end(ts, open + 1, 1);
    proof {
        lemma_list_item(ts);
    }
    if as_at(ts, 0) >= ts.len() || open >= ts.len() {
        seq![seq![]]
    } else {
        verbs(ts.subrange(open + 1, end)) + if end < ts.len() && ts[end] is Comma {
            list_verbs(ts.skip(end + 1))
        } else {
            verbs(ts.skip(end))
        }
    }
}

/// Passing over brackets adds nothing.
pub proof fn lemma_past_opens(ts: Seq<TokenV>)
    ensures
        past_opens(ts).len() <= ts.len(),
    decreases ts.len(),
{
    if ts.len() > 0 {
        lemma_past_opens(ts.skip(1));
    }
}

/// What is explained is part of what stands behind `explain`.
pub proof fn lemma_explained(ts: Seq<TokenV>)
    ensures
        explained(ts).len() <= ts.len(),
{
    lemma_past_manner(ts);
    let rest = past_manner(ts);
    if rest.len() > 1 {
        lemma_group_end(rest, 1, 1);
    }
}

proof fn lemma_past_manner(ts: Seq<TokenV>)
    ensures
        past_manner(ts).len() <= ts.len(),
    decreases ts.len(),
{
    if ts.len() > 0 {
        lemma_past_manner(ts.skip(1));
    }
}

/// Where a named query stands in a list.
pub proof fn lemma_list_item(ts: Seq<TokenV>)
    ensures
        as_at(ts, 0) < ts.len() && open_at(ts, as_at(ts, 0) + 1) < ts.len() ==> 1 <= open_at(
            ts,
            as_at(ts, 0) + 1,
        ) < group_end(ts, open_at(ts, as_at(ts, 0) + 1) + 1, 1) <= ts.len(),
{
    lemma_as_at(ts, 0);
    let a = as_at(ts, 0);
    if a < ts.len() {
        lemma_open_at(ts, a + 1);
        let open = open_at(ts, a + 1);
        if open < ts.len() {
            lemma_group_end(ts, open + 1, 1);
        }
    }
}

/// The verb that a statement runs in the end.
pub open spec fn verb(s: Seq<char>) -> Seq<char> {
    verbs(tokens(s)).last()
}

/// A statement has a verb, if only an empty one.
pub proof fn lemma_some_verb(ts: Seq<TokenV>)
    ensures
        verbs(ts).len() > 0,
        list_verbs(ts).len() > 0,
    decreases ts.len(),
{
    let rest = past_opens(ts);
    lemma_past_opens(ts);
    if rest.len() > 0 {
        lemma_some_verb(rest.skip(1));
        lemma_explained(rest.skip(1));
        lemma_some_verb(explained(rest.skip(1)));
    }
    lemma_list_item(ts);
    let open = open_at(ts, as_at(ts, 0) + 1);
    let end = group_end(ts, open + 1, 1);
    if as_at(ts, 0) < ts.len() && open < ts.len() {
        lemma_some_verb(ts.subrange(open + 1, end));
    }
}

/// The first verb that does more than read.
pub open spec fn first_writing(vs: Seq<Seq<char>>) -> Option<Seq<char>>
    decreases vs.len(),
{
    if vs.len() == 0 {
        None
    } else if !reads(vs[0]) {
        Some(vs[0])
    } else {
        first_writing(vs.skip(1))
    }
}

/// Where no verb does more than read, every one reads.
pub proof fn lemma_none_writes(vs: Seq<Seq<char>>)
    ensures
        first_writing(vs) is None <==> forall|i: int| 0 <= i < vs.len() ==> reads(#[trigger] vs[i]),
    decreases vs.len(),
{
    if vs.len() > 0 {
        lemma_none_writes(vs.skip(1));
        if reads(vs[0]) {
            assert(forall|i: int| 0 <= i < vs.len() - 1 ==> vs.skip(1)[i] == vs[i + 1]);
            assert(forall|i: int| 1 <= i < vs.len() ==> #[trigger] vs[i] == vs.skip(1)[i - 1]);
        }
    }
}

proof fn lemma_first_writing_of_one(w: Seq<char>)
    ensures
        first_writing(seq![w]) == (if reads(w) {
            None
        } else {
            Some(w)
        }),
{
    reveal_with_fuel(first_writing, 2);
}

proof fn lemma_first_writing_of_both(a: Seq<Seq<char>>, b: Seq<Seq<char>>)
    ensures
        first_writing(a + b) == (if first_writing(a) is Some {
            first_writing(a)
        } else {
            first_writing(b)
        }),
    decreases a.len(),
{
    if a.len() == 0 {
        assert(a + b =~= b);
    } else {
        assert((a + b).skip(1) =~= a.skip(1) + b);
        lemma_first_writing_of_both(a.skip(1), b);
    }
}

/// The verbs that are still to be looked at: those of statements and of lists of
/// named queries (`true`), the last first.
spec fn pending(todo: Seq<(bool, &[Token])>) -> Seq<Seq<char>>
    decreases todo.len(),
{
    if todo.len() == 0 {
        seq![]
    } else {
        let ts = views::views(todo.last().1@);
        (if todo.last().0 {
            list_verbs(ts)
        } else {
            verbs(ts)
        }) + pending(todo.drop_last())
    }
}

spec fn weight(todo: Seq<(bool, &[Token])>) -> nat
    decreases todo.len(),
{
    if todo.len() == 0 {
        0
    } else {
        todo.last().1@.len() + 1 + weight(todo.drop_last())
    }
}

proof fn lemma_pending_push(todo: Seq<(bool, &[Token])>, item: (bool, &[Token]))
    ensures
        first_writing(pending(todo.push(item))) == ({
            let own = if item.0 {
                list_verbs(views::views(item.1@))
            } else {
                verbs(views::views(item.1@))
            };
            if first_writing(own) is Some {
                first_writing(own)
            } else {
                first_writing(pending(todo))
            }
        }),
        weight(todo.push(item)) == weight(todo) + item.1@.len() + 1,
{
    assert(todo.push(item).drop_last() =~= todo);
    let own = if item.0 {
        list_verbs(views::views(item.1@))
    } else {
        verbs(views::views(item.1@))
    };
    lemma_first_writing_of_both(own, pending(todo));
}

/// The first verb of a statement that does more than read.
pub fn find_writing(ts: &[Token]) -> (r: Option<Vec<char>>)
    ensures
        match r {
            Some(w) => first_writing(verbs(views::views(ts@))) == Some(w@),
            None => first_writing(verbs(views::views(ts@))) is None,
        },
{
    let ghost want = first_writing(verbs(views::views(ts@)));
    let mut todo: Vec<(bool, &[Token])> = Vec::new();
    proof {
        lemma_pending_push(seq![], (false, ts));
    }
    todo.push((false, ts));
    while todo.len() > 0
        invariant
            want == first_writing(verbs(views::views(ts@))),
            first_writing(pending(todo@)) == want,
        decreases weight(todo@),
    {
        let ghost before = todo@;
        match todo.pop() {
            None => {},
            Some((is_list, s)) => {
                let ghost left = todo@;
                let ghost all = views::views(s@);
                proof {
                    assert(before =~= left.push((is_list, s)));
                    lemma_pending_push(left, (is_list, s));
                    lemma_empty_does_not_read();
                }
                let nothing: Vec<char> = Vec::new();
                assert(nothing@ =~= Seq::<char>::empty());
                let n: usize = s.len();
                if is_list {
                    proof {
                        lemma_list_item(all);
                    }
                    let a: usize = find_as(s);
                    if a >= n {
                        return Some(nothing);
                    }
                    let open: usize = find_open(s, a + 1);
                    if open >= n {
                        return Some(nothing);
                    }
                    let end: usize = find_group_end(s, open + 1);
                    let body: &[Token] = vstd::slice::slice_subrange(s, open + 1, end);
                    assert(views::views(body@) =~= all.subrange(open + 1, end as int));
                    let more: bool = end < n && matches!(s[end], Token::Comma);
                    let from: usize = if more {
                        end + 1
                    } else {
                        end
                    };
                    let rest: &[Token] = vstd::slice::slice_subrange(s, from, n);
                    proof {
                        if end < n {
                            assert(all[end as int] == s@[end as int]@);
                        }
                        assert(views::views(rest@) =~= all.skip(from as int));
                        let tail = if more {
                            list_verbs(all.skip(end + 1))
                        } else {
                            verbs(all.skip(end as int))
                        };
                        lemma_first_writing_of_both(
                            verbs(all.subrange(open + 1, end as int)),
                            tail,
                        );
                        lemma_pending_push(left, (more, rest));
                        lemma_pending_push(left.push((more, rest)), (false, body));
                    }
                    todo.push((more, rest));
                    todo.push((false, body));
                } else {
                    let rest: &[Token] = skip_opens(s);
                    let ghost opened = views::views(rest@);
                    if rest.len() == 0 {
                        return Some(nothing);
                    }
                    proof {
                        assert(opened[0] == rest@[0]@);
                        if let TokenV::Word(w) = opened[0] {
                            lemma_first_writing_of_one(w);
                        }
                    }
                    let behind: &[Token] = vstd::slice::slice_subrange(rest, 1, rest.len());
                    assert(views::views(behind@) =~= opened.skip(1));
                    if is_word(&rest[0], "with") {
                        proof {
                            lemma_pending_push(left, (true, behind));
                        }
                        todo.push((true, behind));
                    } else if is_word(&rest[0], "explain") {
                        let statement: &[Token] = find_explained(behind);
                        proof {
                            lemma_pending_push(left, (false, statement));
                        }
                        todo.push((false, statement));
                    } else if !is_reading(&rest[0]) {
                        return match &rest[0] {
                            Token::Word(w) => Some(text::to_chars(w.as_slice())),
                            _ => Some(nothing),
                        };
                    }
                }
            },
        }
    }
    None
}

/// A statement without a verb does not read.
proof fn lemma_empty_does_not_read()
    ensures
        !reads(seq![]),
        first_writing(seq![Seq::<char>::empty()]) == Some(Seq::<char>::empty()),
{
    reveal_strlit("select");
    reveal_strlit("from");
    reveal_strlit("values");
    reveal_strlit("table");
    reveal_strlit("pivot");
    reveal_strlit("pivot_wider");
    reveal_strlit("unpivot");
    reveal_strlit("pivot_longer");
    reveal_strlit("describe");
    reveal_strlit("desc");
    reveal_strlit("summarize");
    reveal_strlit("show");
    reveal_strlit("pragma");
    assert(!reads(seq![])) by {
        assert("select"@.len() == 6);
        assert("from"@.len() == 4);
        assert("values"@.len() == 6);
        assert("table"@.len() == 5);
        assert("pivot"@.len() == 5);
        assert("pivot_wider"@.len() == 11);
        assert("unpivot"@.len() == 7);
        assert("pivot_longer"@.len() == 12);
        assert("describe"@.len() == 8);
        assert("desc"@.len() == 4);
        assert("summarize"@.len() == 9);
        assert("show"@.len() == 4);
        assert("pragma"@.len() == 6);
    }
    assert(Seq::<char>::empty() =~= seq![]);
}

/// The word that a statement begins with, brackets passed over.
pub open spec fn start(ts: Seq<TokenV>) -> Seq<char> {
    let rest = past_opens(ts);
    if rest.len() == 0 {
        seq![]
    } else {
        match rest[0] {
            TokenV::Word(w) => w,
            _ => seq![],
        }
    }
}

/// The word that a statement begins with.
pub fn start_word(ts: &[Token]) -> (r: Vec<char>)
    ensures
        r@ == start(views::views(ts@)),
{
    let rest: &[Token] = skip_opens(ts);
    if rest.len() == 0 {
        return Vec::new();
    }
    assert(views::views(rest@)[0] == rest@[0]@);
    match &rest[0] {
        Token::Word(w) => text::to_chars(w.as_slice()),
        _ => Vec::new(),
    }
}

/// Whether nothing but semicolons stands behind a semicolon.
pub open spec fn is_single(ts: Seq<TokenV>) -> bool {
    forall|i: int, j: int|
        0 <= i < j < ts.len() && #[trigger] ts[i] is Semicolon ==> #[trigger] ts[j] is Semicolon
}

/// Whether the parts are one statement.
pub fn single(ts: &[Token]) -> (r: bool)
    ensures
        r == is_single(views::views(ts@)),
{
    let ghost all = views::views(ts@);
    let mut ended: bool = false;
    let ghost mut at: int = 0;
    let mut i: usize = 0;
    while i < ts.len()
        invariant
            i <= ts@.len(),
            all == views::views(ts@),
            ended ==> 0 <= at < i && all[at] is Semicolon,
            !ended ==> forall|k: int| 0 <= k < i ==> !(#[trigger] all[k] is Semicolon),
            forall|k: int, j: int|
                0 <= k < j < i && #[trigger] all[k] is Semicolon ==> #[trigger] all[j] is Semicolon,
        decreases ts@.len() - i,
    {
        assert(all[i as int] == ts@[i as int]@);
        if matches!(ts[i], Token::Semicolon) {
            ended = true;
            proof {
                at = i as int;
            }
        } else if ended {
            assert(all[at] is Semicolon && !(all[i as int] is Semicolon));
            return false;
        }
        i = i + 1;
    }
    true
}

} // verus!
