//! Which statements may run, and what their results look like.

use vstd::prelude::*;
use crate::ost::props;
use crate::ost::props::format_time_us;
use crate::search;
use crate::statement;
use crate::statement::Token;
use crate::text;

verus! {

/// Whether a character separates the words of a statement here: white space or an
/// opening bracket.
pub open spec fn separates(c: char) -> bool {
    text::is_space(c) || c == '('
}

/// `s` from its first character on that does not separate words.
pub open spec fn from_word(s: Seq<char>) -> Seq<char>
    decreases s.len(),
{
    if s.len() > 0 && separates(s[0]) {
        from_word(s.skip(1))
    } else {
        s
    }
}

/// `s` up to its first character that separates words.
pub open spec fn to_separator(s: Seq<char>) -> Seq<char>
    decreases s.len(),
{
    if s.len() == 0 || separates(s[0]) {
        seq![]
    } else {
        seq![s[0]] + to_separator(s.skip(1))
    }
}

/// The first word of a statement, in small letters.
pub open spec fn first_word(s: Seq<char>) -> Seq<char> {
    text::ascii_lowered(to_separator(from_word(s)))
}

/// The words that a statement may begin with.
pub open spec fn may_start(word: Seq<char>) -> bool {
    ||| word == "select"@
    ||| word == "with"@
    ||| word == "describe"@
    ||| word == "summarize"@
    ||| word == "show"@
    ||| word == "explain"@
    ||| word == "pragma"@
    ||| word == "table"@
}

/// Why a statement may not run, if it may not: it begins with another word than
/// those allowed, a verb that runs in it does more than read, or another statement
/// stands behind it.
pub open spec fn objection(sql: Seq<char>) -> Option<Seq<char>> {
    let t = text::trimmed(sql);
    let tokens = statement::tokens(t);
    if !may_start(statement::start(tokens)) {
        Some(
            "only read-only statements are allowed; this one starts with `"@ + first_word(t)
                + "`"@,
        )
    } else {
        match statement::first_writing(statement::verbs(tokens)) {
            Some(verb) => Some(
                "only read-only statements are allowed; this one runs `"@ + verb + "`"@,
            ),
            None => if statement::is_single(tokens) {
                None
            } else {
                Some("only one statement per call"@)
            },
        }
    }
}

fn word_start(s: &[char]) -> (r: usize)
    ensures
        r <= s@.len(),
        s@.skip(r as int) == from_word(s@),
{
    let n: usize = s.len();
    let mut i: usize = 0;
    assert(s@.skip(0) =~= s@);
    while i < n && (text::is_whitespace(s[i]) || s[i] == '(')
        invariant
            n == s@.len(),
            i <= n,
            from_word(s@.skip(i as int)) == from_word(s@),
        decreases n - i,
    {
        assert(s@.skip(i as int).skip(1) =~= s@.skip(i + 1));
        i = i + 1;
    }
    i
}

fn read_word(s: &[char]) -> (r: Vec<char>)
    ensures
        r@ == to_separator(s@),
{
    let n: usize = s.len();
    let mut out: Vec<char> = Vec::new();
    let mut i: usize = 0;
    assert(s@.skip(0) =~= s@);
    assert(out@ + to_separator(s@) =~= to_separator(s@));
    while i < n && !(text::is_whitespace(s[i]) || s[i] == '(')
        invariant
            n == s@.len(),
            i <= n,
            out@ + to_separator(s@.skip(i as int)) == to_separator(s@),
        decreases n - i,
    {
        proof {
            let rest = s@.skip(i as int);
            assert(rest.skip(1) =~= s@.skip(i + 1));
            assert(out@ + (seq![rest[0]] + to_separator(rest.skip(1))) =~= out@.push(rest[0])
                + to_separator(rest.skip(1)));
        }
        out.push(s[i]);
        i = i + 1;
    }
    assert(out@ + to_separator(s@.skip(i as int)) =~= out@);
    out
}

fn is_start(w: &[char]) -> (r: bool)
    ensures
        r == may_start(w@),
{
    is_text(w, "select") || is_text(w, "with") || is_text(w, "describe") || is_text(w, "summarize")
        || is_text(w, "show") || is_text(w, "explain") || is_text(w, "pragma") || is_text(
        w,
        "table",
    )
}

fn is_text(w: &[char], t: &str) -> (r: bool)
    ensures
        r == (w@ == t@),
{
    text::same_chars(w, text::chars_of(t).as_slice())
}

/// Reject anything that is not a single read-only statement.
///
/// This is a guardrail, not a sandbox: the real protection is that the connection
/// has no access to files or the network. The check exists so that a model asking
/// for data cannot accidentally change the in-memory catalog the views live in. So
/// it is the verbs that run that count, not only the word in front: a `with` may
/// introduce an insertion, or hold one, and `explain analyze` runs what it
/// explains.
pub fn check_read_only(sql: &str) -> (r: Result<(), String>)
    ensures
        match r {
            Ok(_) => objection(sql@) is None,
            Err(e) => objection(sql@) == Some(e@),
        },
        r is Ok ==> statement::reads(statement::verb(text::trimmed(sql@))),
        r is Ok ==> statement::is_single(statement::tokens(text::trimmed(sql@))),
{
    let cs: Vec<char> = text::chars_of(sql);
    let t: &[char] = text::trim(cs.as_slice());
    let tokens: Vec<Token> = statement::tokenize(t);
    if !is_start(statement::start_word(tokens.as_slice()).as_slice()) {
        let rest: &[char] = vstd::slice::slice_subrange(t, word_start(t), t.len());
        assert(rest@ =~= from_word(t@));
        let first: Vec<char> = text::to_ascii_lower(read_word(rest).as_slice());
        let word: String = text::string_of(first.as_slice());
        return Err(
            text::cat3(
                "only read-only statements are allowed; this one starts with `",
                word.as_str(),
                "`",
            ),
        );
    }
    if let Some(verb) = statement::find_writing(tokens.as_slice()) {
        let word: String = text::string_of(verb.as_slice());
        return Err(
            text::cat3(
                "only read-only statements are allowed; this one runs `",
                word.as_str(),
                "`",
            ),
        );
    }
    // One statement per call, so a leading SELECT cannot smuggle a second verb.
    if !statement::single(tokens.as_slice()) {
        return Err("only one statement per call".to_owned());
    }
    proof {
        lemma_allowed_is_one_statement(sql@);
    }
    Ok(())
}

/// A statement that may run begins with one of the words allowed; it and every
/// statement in it that runs only reads; and no semicolon of it, outside quotes
/// and comments, has anything but semicolons behind it.
pub proof fn lemma_allowed_is_one_statement(sql: Seq<char>)
    requires
        objection(sql) is None,
    ensures
        may_start(statement::start(statement::tokens(text::trimmed(sql)))),
        statement::reads(statement::verb(text::trimmed(sql))),
        forall|i: int|
            0 <= i < statement::verbs(statement::tokens(text::trimmed(sql))).len()
                ==> statement::reads(
                #[trigger] statement::verbs(statement::tokens(text::trimmed(sql)))[i],
            ),
        statement::is_single(statement::tokens(text::trimmed(sql))),
{
    let verbs = statement::verbs(statement::tokens(text::trimmed(sql)));
    statement::lemma_some_verb(statement::tokens(text::trimmed(sql)));
    statement::lemma_none_writes(verbs);
    assert(verbs.last() == verbs[verbs.len() - 1]);
}

/// The unit of a timestamp.
#[derive(Clone, Copy, Debug)]
pub enum TimeUnit {
    Second,
    Millisecond,
    Microsecond,
    Nanosecond,
}

/// A value of a query result. A floating-point number is carried by its bits, and
/// a value without a form of its own by its debug text.
#[derive(Clone, Debug)]
pub enum SqlValue {
    Null,
    Boolean(bool),
    /// Any signed integer of up to 64 bits.
    Int(i64),
    /// Any unsigned integer of up to 64 bits.
    UInt(u64),
    HugeInt(i128),
    UHugeInt(u128),
    Float(u64),
    Text(String),
    Timestamp(TimeUnit, i64),
    /// The length of a byte string.
    Blob(usize),
    Other(String),
}

/// A cell of a result as it is shown.
#[derive(Clone, Debug)]
pub enum Json {
    Null,
    Bool(bool),
    Int(i64),
    UInt(u64),
    /// A floating-point number, by its bits.
    Float(u64),
    Text(String),
}

/// A shown cell with its text as a sequence of characters.
pub enum JsonV {
    Null,
    Bool(bool),
    Int(i64),
    UInt(u64),
    Float(u64),
    Text(Seq<char>),
}

impl View for Json {
    type V = JsonV;

    open spec fn view(&self) -> JsonV {
        match *self {
            Json::Null => JsonV::Null,
            Json::Bool(b) => JsonV::Bool(b),
            Json::Int(n) => JsonV::Int(n),
            Json::UInt(n) => JsonV::UInt(n),
            Json::Float(bits) => JsonV::Float(bits),
            Json::Text(s) => JsonV::Text(s@),
        }
    }
}

/// `n`, or the nearest number that 64 bits hold.
pub open spec fn saturated(n: int) -> int {
    if n > i64::MAX {
        i64::MAX as int
    } else if n < i64::MIN {
        i64::MIN as int
    } else {
        n
    }
}

/// A time in microseconds since 1970. Nanoseconds are cut towards zero.
pub open spec fn time_in_us(unit: TimeUnit, n: i64) -> int {
    match unit {
        TimeUnit::Second => saturated(n * 1_000_000),
        TimeUnit::Millisecond => saturated(n * 1_000),
        TimeUnit::Microsecond => n as int,
        TimeUnit::Nanosecond => if n >= 0 {
            n as int / 1_000
        } else {
            -(-(n as int) / 1_000)
        },
    }
}

/// JSON has no 128-bit integer, so anything outside 64 bits becomes a text rather
/// than a silently rounded number.
pub open spec fn shown_int(n: int) -> JsonV {
    if i64::MIN <= n <= i64::MAX {
        JsonV::Int(n as i64)
    } else {
        JsonV::Text(text::signed(n))
    }
}

/// A value of a query result as it is shown.
pub open spec fn shown(v: SqlValue) -> JsonV {
    match v {
        SqlValue::Null => JsonV::Null,
        SqlValue::Boolean(b) => JsonV::Bool(b),
        SqlValue::Int(n) => JsonV::Int(n),
        SqlValue::UInt(n) => JsonV::UInt(n),
        SqlValue::HugeInt(n) => shown_int(n as int),
        SqlValue::UHugeInt(n) => if n <= i128::MAX {
            shown_int(n as int)
        } else {
            JsonV::Null
        },
        SqlValue::Float(bits) => JsonV::Float(bits),
        SqlValue::Text(s) => JsonV::Text(s@),
        SqlValue::Timestamp(unit, n) => JsonV::Text(props::time_text(time_in_us(unit, n))),
        SqlValue::Blob(len) => JsonV::Text("<"@ + text::dec(len as nat) + " bytes>"@),
        SqlValue::Other(s) => JsonV::Text(s@),
    }
}

fn saturate(n: i128) -> (r: i64)
    ensures
        r == saturated(n as int),
{
    if n > i64::MAX as i128 {
        i64::MAX
    } else if n < i64::MIN as i128 {
        i64::MIN
    } else {
        n as i64
    }
}

fn to_us(unit: TimeUnit, n: i64) -> (r: i64)
    ensures
        r == time_in_us(unit, n),
{
    match unit {
        TimeUnit::Second => saturate(n as i128 * 1_000_000),
        TimeUnit::Millisecond => saturate(n as i128 * 1_000),
        TimeUnit::Microsecond => n,
        TimeUnit::Nanosecond => if n >= 0 {
            n / 1_000
        } else {
            let magnitude: i128 = -(n as i128);
            (-(magnitude / 1_000)) as i64
        },
    }
}

/// A 128-bit integer as it is shown.
pub fn i128_json(n: i128) -> (r: Json)
    ensures
        r@ == shown_int(n as int),
{
    if i64::MIN as i128 <= n && n <= i64::MAX as i128 {
        Json::Int(n as i64)
    } else {
        Json::Text(text::signed_string_128(n))
    }
}

/// Show a value of a query result. A timestamp becomes `YYYY-MM-DD HH:MM:SS` (UTC)
/// rather than a bare integer, because that is what a model can reason about
/// without being told the unit.
pub fn to_json(v: SqlValue) -> (r: Json)
    ensures
        r@ == shown(v),
{
    match v {
        SqlValue::Null => Json::Null,
        SqlValue::Boolean(b) => Json::Bool(b),
        SqlValue::Int(n) => Json::Int(n),
        SqlValue::UInt(n) => Json::UInt(n),
        // `sum()` over a BIGINT column returns HUGEINT, so this is a normal
        // aggregate result, not an exotic one.
        SqlValue::HugeInt(n) => i128_json(n),
        SqlValue::UHugeInt(n) => if n <= i128::MAX as u128 {
            i128_json(n as i128)
        } else {
            Json::Null
        },
        SqlValue::Float(bits) => Json::Float(bits),
        SqlValue::Text(s) => Json::Text(s),
        SqlValue::Timestamp(unit, n) => Json::Text(format_time_us(to_us(unit, n))),
        SqlValue::Blob(len) => Json::Text(
            text::cat3("<", text::dec_string(len as u64).as_str(), " bytes>"),
        ),
        SqlValue::Other(s) => Json::Text(s),
    }
}

/// The rows of a result, each cell with the name of its column.
pub struct Rows {
    pub columns: Vec<String>,
    pub rows: Vec<Vec<Json>>,
    /// True when the query produced more rows than the limit.
    pub truncated: bool,
}

/// The cells of a row as they are shown.
pub open spec fn shown_row(row: Seq<SqlValue>) -> Seq<JsonV> {
    Seq::new(row.len(), |i: int| shown(row[i]))
}

/// The cells of each row.
pub open spec fn cells(rows: Seq<Vec<Json>>) -> Seq<Seq<JsonV>> {
    Seq::new(rows.len(), |i: int| crate::views::views(rows[i]@))
}

/// The lesser of the number of rows there are and of those that are wanted.
pub open spec fn kept(fetched: nat, limit: nat) -> nat {
    if fetched <= limit {
        fetched
    } else {
        limit
    }
}

/// Whether enough rows have been fetched. Where another row comes up then, it is
/// not read: that it is there tells that there are more.
pub fn enough(fetched: usize, limit: usize) -> (r: bool)
    ensures
        r == (fetched >= limit),
{
    fetched >= limit
}

fn show_row(row: Vec<SqlValue>) -> (r: Vec<Json>)
    ensures
        crate::views::views(r@) == shown_row(row@),
{
    broadcast use crate::views::lemma_views_push;

    let ghost want = shown_row(row@);
    let mut out: Vec<Json> = Vec::new();
    assert(crate::views::views(out@) =~= want.take(0));
    for v in it: row
        invariant
            it.seq() == row@,
            want == shown_row(row@),
            crate::views::views(out@) == want.take(it.index()),
    {
        let ghost k = it.index();
        assert(want.take(k + 1) =~= want.take(k).push(want[k]));
        out.push(to_json(v));
    }
    assert(want.take(want.len() as int) =~= want);
    out
}

/// Show at most `limit` of the rows that were fetched; `more` is whether another
/// one came up behind them.
pub fn query(columns: Vec<String>, fetched: Vec<Vec<SqlValue>>, limit: usize, more: bool) -> (r:
    Rows)
    ensures
        r.columns@ == columns@,
        cells(r.rows@) == Seq::new(
            kept(fetched@.len(), limit as nat),
            |i: int| shown_row(fetched@[i]@),
        ),
        r.truncated == (more || fetched@.len() > limit),
{
    let ghost all = fetched@;
    let truncated: bool = more || fetched.len() > limit;
    let mut out: Vec<Vec<Json>> = Vec::new();
    let ghost want = Seq::new(kept(all.len(), limit as nat), |i: int| shown_row(all[i]@));
    assert(cells(out@) =~= want.take(0));
    for row in it: fetched
        invariant
            it.seq() == all,
            want == Seq::new(kept(all.len(), limit as nat), |i: int| shown_row(all[i]@)),
            out@.len() == kept(it.index() as nat, limit as nat),
            cells(out@) == want.take(out@.len() as int),
    {
        let ghost k = it.index();
        assert(row == all[k]);
        if out.len() < limit {
            let ghost before = cells(out@);
            let shown_cells: Vec<Json> = show_row(row);
            let ghost added = crate::views::views(shown_cells@);
            out.push(shown_cells);
            proof {
                assert(cells(out@) =~= before.push(added));
                assert(want.take(k + 1) =~= want.take(k).push(want[k]));
            }
        }
    }
    assert(want.take(out@.len() as int) =~= want);
    Rows { columns, rows: out, truncated }
}

} // verus!
