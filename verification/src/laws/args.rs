//! Laws of the command line: what each argument behind others adds to them.

use vstd::prelude::*;
use crate::cli;
use crate::cli::{Action, ActionV, NumberError, Options, OptionsV, Parsed, ParsedV, StepV};
use crate::laws::same_text;
use crate::laws::times::{all_digits, digit, number};
use crate::text;
use crate::views;

verus! {

proof fn lemma_digits(s: Seq<char>, from: int, upto: int, acc: int, negative: bool)
    requires
        0 <= from <= upto <= s.len(),
        all_digits(s.subrange(from, upto)),
        upto == s.len(),
        negative ==> acc <= 0,
        !negative ==> acc >= 0,
    ensures
        ({
            let n = value_of(s.subrange(from, upto), if negative {
                -acc
            } else {
                acc
            });
            let whole = if negative {
                -n
            } else {
                n
            };
            (-0x8000_0000_0000_0000 <= whole < 0x8000_0000_0000_0000 ==> cli::digits_from(
                s,
                from,
                acc,
                negative,
            ) == Ok::<int, NumberError>(whole)) && n >= 0
        }),
    decreases upto - from,
{
    let part = s.subrange(from, upto);
    if from < upto {
        assert(part[0] == s[from]);
        assert(digit(part[0]) is Some);
        let d = s[from] as int - '0' as int;
        let next = if negative {
            10 * acc - d
        } else {
            10 * acc + d
        };
        assert(part.skip(1) =~= s.subrange(from + 1, upto));
        assert forall|i: int| 0 <= i < upto - from - 1 implies digit(
            #[trigger] s.subrange(from + 1, upto)[i],
        ) is Some by {
            assert(s.subrange(from + 1, upto)[i] == part[i + 1]);
        }
        lemma_digits(s, from + 1, upto, next, negative);
        lemma_value_grows(
            s.subrange(from + 1, upto),
            if negative {
                -next
            } else {
                next
            },
        );
    }
}

/// The number that digits make behind a number.
pub open spec fn value_of(s: Seq<char>, acc: int) -> int
    decreases s.len(),
{
    if s.len() == 0 {
        acc
    } else {
        value_of(
            s.skip(1),
            10 * acc + match digit(s[0]) {
                Some(d) => d,
                None => 0,
            },
        )
    }
}

proof fn lemma_value_grows(s: Seq<char>, acc: int)
    requires
        acc >= 0,
    ensures
        value_of(s, acc) >= acc,
    decreases s.len(),
{
    if s.len() > 0 {
        let d = match digit(s[0]) {
            Some(d) => d,
            None => 0,
        };
        lemma_value_grows(s.skip(1), 10 * acc + d);
    }
}

proof fn lemma_value_push(s: Seq<char>, acc: int)
    requires
        s.len() > 0,
    ensures
        value_of(s, acc) == 10 * value_of(s.drop_last(), acc) + match digit(s.last()) {
            Some(d) => d,
            None => 0,
        },
    decreases s.len(),
{
    let d = match digit(s[0]) {
        Some(d) => d,
        None => 0,
    };
    if s.len() > 1 {
        lemma_value_push(s.skip(1), 10 * acc + d);
        assert(s.skip(1).drop_last() =~= s.drop_last().skip(1));
        assert(s.skip(1).last() == s.last());
        assert(s.drop_last()[0] == s[0]);
        assert(value_of(s.drop_last(), acc) == value_of(s.drop_last().skip(1), 10 * acc + d));
    } else {
        assert(s.last() == s[0]);
        assert(value_of(s.skip(1), 10 * acc + d) == 10 * acc + d);
        assert(value_of(s.drop_last(), acc) == acc);
    }
}

proof fn lemma_value_is_number(s: Seq<char>)
    ensures
        value_of(s, 0) == number(s),
    decreases s.len(),
{
    if s.len() > 0 {
        lemma_value_push(s, 0);
        lemma_value_is_number(s.drop_last());
    }
}

/// Digits, behind a sign or without one, are read as the number that they make, as
/// long as 64 bits hold it.
pub proof fn lemma_number_is_read(digits: Seq<char>, s: &str, r: Result<i64, NumberError>)
    requires
        digits.len() > 0,
        all_digits(digits),
        s@ == digits || s@ == seq!['+'] + digits || s@ == seq!['-'] + digits,
        call_ensures(cli::parse_i64, (s,), r),
    ensures
        s@ != seq!['-'] + digits && number(digits) < 0x8000_0000_0000_0000 ==> (r matches Ok(n)
            && n == number(digits)),
        s@ == seq!['-'] + digits && number(digits) <= 0x8000_0000_0000_0000 ==> (r matches Ok(n)
            && n == -number(digits)),
{
    lemma_value_is_number(digits);
    let t = s@;
    assert(digit(digits[0]) is Some);
    if t == digits {
        assert(t.subrange(0, t.len() as int) =~= digits);
        lemma_digits(t, 0, t.len() as int, 0, false);
        assert(t != seq!['-'] + digits) by {
            assert((seq!['-'] + digits).len() == digits.len() + 1);
        }
    } else {
        assert(t.subrange(1, t.len() as int) =~= digits);
        assert(t[0] == '+' || t[0] == '-');
        lemma_digits(t, 1, t.len() as int, 0, t[0] == '-');
        if t == seq!['-'] + digits {
            assert((seq!['-'] + digits)[0] == '-');
        } else {
            assert((seq!['+'] + digits)[0] == '+');
        }
    }
}

/// A text that is no number is refused.
pub proof fn lemma_no_number(s: &str, r: Result<i64, NumberError>)
    requires
        s@.len() == 0 || exists|i: int|
            0 <= i < s@.len() && digit(#[trigger] s@[i]) is None && !(i == 0 && s@.len() > 1 && (
            s@[0] == '+' || s@[0] == '-')),
        call_ensures(cli::parse_i64, (s,), r),
    ensures
        r is Err,
{
    let t = s@;
    if t.len() > 0 {
        let i = choose|i: int|
            0 <= i < t.len() && digit(#[trigger] t[i]) is None && !(i == 0 && t.len() > 1 && (t[0]
                == '+' || t[0] == '-'));
        if t[0] == '+' || t[0] == '-' {
            if t.len() > 1 {
                lemma_bad_digit(t, 1, 0, t[0] == '-', i);
            }
        } else {
            lemma_bad_digit(t, 0, 0, false, i);
        }
    }
}

proof fn lemma_bad_digit(s: Seq<char>, from: int, acc: int, negative: bool, i: int)
    requires
        0 <= from <= i < s.len(),
        digit(s[i]) is None,
    ensures
        cli::digits_from(s, from, acc, negative) is Err,
    decreases s.len() - from,
{
    if from < i && '0' <= s[from] && s[from] <= '9' {
        let d = s[from] as int - '0' as int;
        let next = if negative {
            10 * acc - d
        } else {
            10 * acc + d
        };
        lemma_bad_digit(s, from + 1, next, negative, i);
    }
}

proof fn lemma_step_same(args: Seq<Seq<char>>, more: Seq<Seq<char>>, i: int, o: OptionsV)
    requires
        0 <= i < args.len(),
        cli::step_of(args, i, o) is On,
    ensures
        cli::step_of(args + more, i, o) == cli::step_of(args, i, o),
{
    let all = args + more;
    assert(all[i] == args[i]);
    if i + 1 < args.len() {
        assert(all[i + 1] == args[i + 1]);
    }
}

proof fn lemma_goes_on(
    args: Seq<Seq<char>>,
    more: Seq<Seq<char>>,
    i: int,
    o: OptionsV,
    p: OptionsV,
)
    requires
        0 <= i <= args.len(),
        cli::parsed_from(args, i, o) == Ok::<ParsedV, Seq<char>>(ParsedV::Run(p)),
    ensures
        cli::parsed_from(args + more, i, o) == cli::parsed_from(args + more, args.len() as int, p),
    decreases args.len() - i,
{
    if i < args.len() {
        if let StepV::On(next, q) = cli::step_of(args, i, o) {
            lemma_step_same(args, more, i, o);
            assert(i < next <= args.len());
            lemma_goes_on(args, more, next, q, p);
        }
    }
}

/// One argument that stands behind others, with what belongs to it.
pub enum Behind {
    List,
    Limit(String, i64),
    BodyChars(String, i64),
    Bytes(String, i64),
    Out(String),
    Path(String),
    Info,
    Sql(String),
    Message(String, i64),
    Attachments(String, i64),
    /// Two numbers with a colon between them: the whole, and the text and the number
    /// of either.
    Attachment(String, (String, i64), (String, i64)),
    Help,
    Version,
}

/// How the argument is written.
pub open spec fn words(a: Behind) -> Seq<Seq<char>> {
    match a {
        Behind::List => seq!["--list"@],
        Behind::Limit(s, _) => seq!["--limit"@, s@],
        Behind::BodyChars(s, _) => seq!["--max-body-chars"@, s@],
        Behind::Bytes(s, _) => seq!["--max-bytes"@, s@],
        Behind::Out(s) => seq!["--out"@, s@],
        Behind::Path(s) => seq![s@],
        Behind::Info => seq!["--info"@],
        Behind::Sql(s) => seq!["--sql"@, s@],
        Behind::Message(s, _) => seq!["--message"@, s@],
        Behind::Attachments(s, _) => seq!["--attachments"@, s@],
        Behind::Attachment(s, _, _) => seq!["--attachment"@, s@],
        Behind::Help => seq!["--help"@],
        Behind::Version => seq!["--version"@],
    }
}

/// A number that a text spells; a path does not begin with a hyphen.
pub open spec fn well_said(a: Behind) -> bool {
    match a {
        Behind::Limit(s, n) => spells(s, n),
        Behind::BodyChars(s, n) => spells(s, n),
        Behind::Bytes(s, n) => spells(s, n),
        Behind::Message(s, n) => spells(s, n),
        Behind::Attachments(s, n) => spells(s, n),
        Behind::Attachment(s, m, b) => spells(m.0, m.1) && spells(b.0, b.1) && !m.0@.contains(':')
            && s@ == m.0@ + seq![':'] + b.0@,
        Behind::Path(s) => s@.len() == 0 || s@[0] != '-',
        _ => true,
    }
}

/// A text is read as a number.
pub open spec fn spells(s: String, n: i64) -> bool {
    cli::integer(s@) == Ok::<int, NumberError>(n as int)
}

/// A number without a sign whose 64 bits are those of `n`.
pub open spec fn same_bits(b: u64, n: i64) -> bool {
    b == n || b == n + 0x1_0000_0000_0000_0000
}

/// Everything but what the argument sets stays.
pub open spec fn others_stay(a: Behind, o: Options, p: Options) -> bool {
    &&& !(a is Path) ==> same_text(p.path, o.path)
    &&& !(a is List) ==> p.list == o.list
    &&& !(a is Limit) ==> p.limit == o.limit
    &&& !(a is BodyChars) ==> p.max_body_chars == o.max_body_chars
    &&& !(a is Bytes) ==> p.max_bytes == o.max_bytes
    &&& !(a is Out) ==> same_text(p.out, o.out)
}

/// What the argument sets.
pub open spec fn is_set(a: Behind, p: Options) -> bool {
    match a {
        Behind::List => p.list,
        Behind::Limit(_, n) => same_bits(p.limit, n),
        Behind::BodyChars(_, n) => p.max_body_chars matches Some(b) && same_bits(b, n),
        Behind::Bytes(_, n) => p.max_bytes matches Some(b) && same_bits(b, n),
        Behind::Out(s) => p.out matches Some(t) && t@ == s@,
        Behind::Path(s) => p.path matches Some(t) && t@ == s@,
        Behind::Info => p.action matches Some(Action::Info),
        Behind::Sql(s) => p.action matches Some(Action::Sql(t)) && t@ == s@,
        Behind::Message(_, n) => p.action matches Some(Action::Message(m)) && m == n,
        Behind::Attachments(_, n) => p.action matches Some(Action::Attachments(m)) && m == n,
        Behind::Attachment(_, m, b) => p.action matches Some(Action::Attachment(x, y)) && x == m.1
            && y == b.1,
        _ => true,
    }
}

/// An argument that chooses what to do.
pub open spec fn chooses(a: Behind) -> bool {
    a is Info || a is Sql || a is Message || a is Attachments || a is Attachment
}

/// An empty command line asks for nothing: rows are limited to 10000.
pub proof fn lemma_no_arguments(args: &Vec<String>, r: Result<Parsed, String>)
    requires
        args@.len() == 0,
        call_ensures(cli::parse_args, (args,), r),
    ensures
        r matches Ok(Parsed::Run(o)) && o.path is None && o.action is None && !o.list && o.limit
            == 10_000 && o.max_body_chars is None && o.max_bytes is None && o.out is None,
{
    let o = r->Ok_0->Run_0;
    assert(o@.path == text::opt_text(o.path));
    assert(o@.out == text::opt_text(o.out));
}

proof fn lemma_flag_words()
    ensures
        "--list"@ != "--info"@,
        "--list"@.len() == 6,
        "--info"@.len() == 6,
        "--sql"@.len() == 5,
        "--out"@.len() == 5,
        "--sql"@ != "--out"@,
        "--limit"@.len() == 7,
        "--message"@.len() == 9,
        "--version"@.len() == 9,
        "--message"@ != "--version"@,
        "--attachments"@.len() == 13,
        "--attachment"@.len() == 12,
        "--max-body-chars"@.len() == 16,
        "--max-bytes"@.len() == 11,
        "--help"@.len() == 6,
        "--help"@ != "--info"@,
        "--help"@ != "--list"@,
        "-h"@.len() == 2,
        "-V"@.len() == 2,
{
    reveal_strlit("--list");
    reveal_strlit("--info");
    reveal_strlit("--sql");
    reveal_strlit("--out");
    reveal_strlit("--limit");
    reveal_strlit("--message");
    reveal_strlit("--version");
    reveal_strlit("--attachments");
    reveal_strlit("--attachment");
    reveal_strlit("--max-body-chars");
    reveal_strlit("--max-bytes");
    reveal_strlit("--help");
    reveal_strlit("-h");
    reveal_strlit("-V");
    assert("--list"@[2] == 'l' && "--info"@[2] == 'i' && "--help"@[2] == 'h');
    assert("--sql"@[2] == 's' && "--out"@[2] == 'o');
    assert("--message"@[2] == 'm' && "--version"@[2] == 'v');
}

proof fn lemma_path_is_no_flag(s: Seq<char>)
    requires
        s.len() == 0 || s[0] != '-',
    ensures
        s != "--info"@ && s != "--sql"@ && s != "--message"@ && s != "--attachments"@ && s
            != "--attachment"@ && s != "--limit"@ && s != "--max-body-chars"@ && s
            != "--max-bytes"@ && s != "--out"@ && s != "--list"@ && s != "-h"@ && s != "--help"@
            && s != "-V"@ && s != "--version"@,
{
    reveal_strlit("--list");
    reveal_strlit("--info");
    reveal_strlit("--sql");
    reveal_strlit("--out");
    reveal_strlit("--limit");
    reveal_strlit("--message");
    reveal_strlit("--version");
    reveal_strlit("--attachments");
    reveal_strlit("--attachment");
    reveal_strlit("--max-body-chars");
    reveal_strlit("--max-bytes");
    reveal_strlit("--help");
    reveal_strlit("-h");
    reveal_strlit("-V");
}

proof fn lemma_pair(s: Seq<char>, m: Seq<char>, b: Seq<char>)
    requires
        s == m + seq![':'] + b,
        !m.contains(':'),
    ensures
        s.index_of_first(':') == Some(m.len() as int),
        s.take(m.len() as int) == m,
        s.skip(m.len() as int + 1) == b,
{
    let n = m.len() as int;
    s.index_of_first_ensures(':');
    assert(s[n] == ':');
    assert(s.contains(':'));
    let at = s.index_of_first(':')->Some_0;
    if at < n {
        assert(m[at] == s[at]);
        assert(m.contains(':'));
    }
    assert(s.take(n) =~= m);
    assert(s.skip(n + 1) =~= b);
}

/// One more argument adds what it says to what the arguments before it came to, and
/// changes nothing else. What to do is chosen once: a second choice is refused. Asking
/// for help or the version ends it.
pub proof fn lemma_one_more_argument(
    args: &Vec<String>,
    a: Behind,
    all: &Vec<String>,
    o: Options,
    r: Result<Parsed, String>,
)
    requires
        well_said(a),
        views::views(all@) == views::views(args@) + words(a),
        call_ensures(cli::parse_args, (args,), Ok::<Parsed, String>(Parsed::Run(o))),
        call_ensures(cli::parse_args, (all,), r),
    ensures
        a is Help ==> r == Ok::<Parsed, String>(Parsed::Help),
        a is Version ==> r == Ok::<Parsed, String>(Parsed::Version),
        chooses(a) && o.action is Some ==> r is Err,
        !(a is Help) && !(a is Version) && !(chooses(a) && o.action is Some) ==> (
        r matches Ok(Parsed::Run(p)) && others_stay(a, o, p) && is_set(a, p) && (!chooses(a)
            ==> o@.action == p@.action)),
{
    let before = views::views(args@);
    let more = words(a);
    let start = cli::no_options();
    let whole = before + more;
    let n = before.len() as int;
    lemma_goes_on(before, more, 0, start, o@);
    lemma_flag_words();
    assert(whole[n] == more[0]);
    if more.len() > 1 {
        assert(whole[n + 1] == more[1]);
    }
    match a {
        Behind::Path(s) => {
            lemma_path_is_no_flag(s@);
        },
        Behind::Attachment(s, m, b) => {
            lemma_pair(s@, m.0@, b.0@);
        },
        _ => {},
    }
    let step = cli::step_of(whole, n, o@);
    assert(cli::parsed_from(whole, n, o@) == match step {
        StepV::On(next, p) => cli::parsed_from(whole, next, p),
        StepV::End(e) => Ok(e),
        StepV::Fail(e) => Err(e),
    });
    if let StepV::On(next, p) = step {
        assert(next == whole.len());
        assert(cli::parsed_from(whole, next, p) == Ok::<ParsedV, Seq<char>>(ParsedV::Run(p)));
        let got = r->Ok_0->Run_0;
        assert(got@ == p);
        assert(got@.path == text::opt_text(got.path));
        assert(got@.out == text::opt_text(got.out));
        assert(o@.path == text::opt_text(o.path));
        assert(o@.out == text::opt_text(o.out));
    }
}

} // verus!
