//! The command line: one action per run on one store.

use vstd::prelude::*;
use crate::text;
use crate::views;

verus! {

/// Why a text is no 64-bit integer.
#[derive(Clone, Copy, Debug, PartialEq, Eq, Structural)]
pub enum NumberError {
    Empty,
    InvalidDigit,
    TooLarge,
    TooSmall,
}

/// What is said of a text that is no 64-bit integer.
pub open spec fn number_error(e: NumberError) -> Seq<char> {
    match e {
        NumberError::Empty => "cannot parse integer from empty string"@,
        NumberError::InvalidDigit => "invalid digit found in string"@,
        NumberError::TooLarge => "number too large to fit in target type"@,
        NumberError::TooSmall => "number too small to fit in target type"@,
    }
}

impl NumberError {
    pub fn display(self) -> (r: String)
        ensures
            r@ == number_error(self),
    {
        match self {
            NumberError::Empty => "cannot parse integer from empty string".to_owned(),
            NumberError::InvalidDigit => "invalid digit found in string".to_owned(),
            NumberError::TooLarge => "number too large to fit in target type".to_owned(),
            NumberError::TooSmall => "number too small to fit in target type".to_owned(),
        }
    }
}

/// The number that `acc` and the decimal digits from `i` on make.
pub open spec fn digits_from(s: Seq<char>, i: int, acc: int, negative: bool) -> Result<
    int,
    NumberError,
>
    decreases s.len() - i,
{
    if i < 0 || i >= s.len() {
        Ok(acc)
    } else if !('0' <= s[i] <= '9') {
        Err(NumberError::InvalidDigit)
    } else {
        let d = s[i] as int - '0' as int;
        let next = if negative {
            10 * acc - d
        } else {
            10 * acc + d
        };
        if next > i64::MAX {
            Err(NumberError::TooLarge)
        } else if next < i64::MIN {
            Err(NumberError::TooSmall)
        } else {
            digits_from(s, i + 1, next, negative)
        }
    }
}

/// The 64-bit integer that a text spells: decimal digits, with a sign or without.
pub open spec fn integer(s: Seq<char>) -> Result<int, NumberError> {
    if s.len() == 0 {
        Err(NumberError::Empty)
    } else if s[0] == '-' || s[0] == '+' {
        if s.len() == 1 {
            Err(NumberError::InvalidDigit)
        } else {
            digits_from(s, 1, 0, s[0] == '-')
        }
    } else {
        digits_from(s, 0, 0, false)
    }
}

/// Read a 64-bit integer.
pub fn parse_i64(s: &str) -> (r: Result<i64, NumberError>)
    ensures
        match r {
            Ok(n) => integer(s@) == Ok::<int, NumberError>(n as int),
            Err(e) => integer(s@) == Err::<int, NumberError>(e),
        },
{
    let cs: Vec<char> = text::chars_of(s);
    let n: usize = cs.len();
    if n == 0 {
        return Err(NumberError::Empty);
    }
    let signed: bool = cs[0] == '-' || cs[0] == '+';
    let negative: bool = cs[0] == '-';
    if signed && n == 1 {
        return Err(NumberError::InvalidDigit);
    }
    let mut i: usize = if signed {
        1
    } else {
        0
    };
    let mut acc: i64 = 0;
    while i < n
        invariant
            n == cs@.len(),
            cs@ == s@,
            i <= n,
            digits_from(s@, i as int, acc as int, negative) == integer(s@),
        decreases n - i,
    {
        let c: char = cs[i];
        if !('0' <= c && c <= '9') {
            return Err(NumberError::InvalidDigit);
        }
        let d: i128 = (c as u8 - 48) as i128;
        let next: i128 = if negative {
            10 * acc as i128 - d
        } else {
            10 * acc as i128 + d
        };
        if next > i64::MAX as i128 {
            return Err(NumberError::TooLarge);
        }
        if next < i64::MIN as i128 {
            return Err(NumberError::TooSmall);
        }
        acc = next as i64;
        i = i + 1;
    }
    Ok(acc)
}

/// What to do with the store once it is open. Serving is the default; every action
/// prints one document and exits.
#[derive(Clone, Debug)]
pub enum Action {
    Info,
    Sql(String),
    Message(i64),
    Attachments(i64),
    Attachment(i64, i64),
}

/// An action with its text as a sequence of characters.
pub enum ActionV {
    Info,
    Sql(Seq<char>),
    Message(int),
    Attachments(int),
    Attachment(int, int),
}

impl View for Action {
    type V = ActionV;

    open spec fn view(&self) -> ActionV {
        match *self {
            Action::Info => ActionV::Info,
            Action::Sql(s) => ActionV::Sql(s@),
            Action::Message(n) => ActionV::Message(n as int),
            Action::Attachments(n) => ActionV::Attachments(n as int),
            Action::Attachment(m, a) => ActionV::Attachment(m as int, a as int),
        }
    }
}

/// What the command line asks for.
#[derive(Clone, Debug)]
pub struct Options {
    pub path: Option<String>,
    pub action: Option<Action>,
    pub list: bool,
    pub limit: u64,
    pub max_body_chars: Option<u64>,
    pub max_bytes: Option<u64>,
    pub out: Option<String>,
}

/// Options with their texts as sequences of characters.
pub struct OptionsV {
    pub path: Option<Seq<char>>,
    pub action: Option<ActionV>,
    pub list: bool,
    pub limit: u64,
    pub max_body_chars: Option<u64>,
    pub max_bytes: Option<u64>,
    pub out: Option<Seq<char>>,
}

impl View for Options {
    type V = OptionsV;

    open spec fn view(&self) -> OptionsV {
        OptionsV {
            path: text::opt_text(self.path),
            action: match self.action {
                Some(a) => Some(a@),
                None => None,
            },
            list: self.list,
            limit: self.limit,
            max_body_chars: self.max_body_chars,
            max_bytes: self.max_bytes,
            out: text::opt_text(self.out),
        }
    }
}

/// The options of an empty command line: serve, with at most 10,000 rows per query.
pub open spec fn no_options() -> OptionsV {
    OptionsV {
        path: None,
        action: None,
        list: false,
        limit: 10_000,
        max_body_chars: None,
        max_bytes: None,
        out: None,
    }
}

/// What a command line comes to.
#[derive(Clone, Debug)]
pub enum Parsed {
    Help,
    Version,
    Run(Options),
}

/// What a command line comes to, texts as sequences of characters.
pub enum ParsedV {
    Help,
    Version,
    Run(OptionsV),
}

impl View for Parsed {
    type V = ParsedV;

    open spec fn view(&self) -> ParsedV {
        match *self {
            Parsed::Help => ParsedV::Help,
            Parsed::Version => ParsedV::Version,
            Parsed::Run(o) => ParsedV::Run(o@),
        }
    }
}

/// A number given as a bound: the 64-bit pattern read without a sign.
pub open spec fn bound(n: int) -> u64 {
    (n % 0x1_0000_0000_0000_0000) as u64
}

fn to_bound(n: i64) -> (r: u64)
    ensures
        r == bound(n as int),
{
    if n >= 0 {
        n as u64
    } else {
        (n as i128 + 0x1_0000_0000_0000_0000) as u64
    }
}

/// The value behind the flag at `i`.
pub open spec fn value_of(args: Seq<Seq<char>>, i: int, flag: Seq<char>) -> Result<
    Seq<char>,
    Seq<char>,
> {
    if i + 1 < args.len() {
        Ok(args[i + 1])
    } else {
        Err(flag + " needs a value"@)
    }
}

/// The number behind the flag at `i`.
pub open spec fn number_of(args: Seq<Seq<char>>, i: int, flag: Seq<char>) -> Result<
    int,
    Seq<char>,
> {
    match value_of(args, i, flag) {
        Err(e) => Err(e),
        Ok(raw) => match integer(raw) {
            Ok(n) => Ok(n),
            Err(_) => Err(flag + " wants a number, got "@ + text::debug_of(raw)),
        },
    }
}

/// The options with an action set. One action per run, so a typo cannot silently
/// override an earlier flag.
pub open spec fn with_action(o: OptionsV, a: ActionV) -> Result<OptionsV, Seq<char>> {
    if o.action is Some {
        Err("pick one of --info, --sql, --message, --attachments, --attachment"@)
    } else {
        Ok(OptionsV { action: Some(a), ..o })
    }
}

/// The message and the attachment that a pair of numbers names.
pub open spec fn pair_of(pair: Seq<char>) -> Result<(int, int), Seq<char>> {
    match pair.index_of_first(':') {
        None => Err("--attachment wants <message_nid>:<attachment_nid>"@),
        Some(p) => match integer(pair.take(p)) {
            Err(e) => Err(number_error(e)),
            Ok(m) => match integer(pair.skip(p + 1)) {
                Err(e) => Err(number_error(e)),
                Ok(a) => Ok((m, a)),
            },
        },
    }
}

/// What one argument does: go on behind it, end, or fail.
pub enum StepV {
    On(int, OptionsV),
    End(ParsedV),
    Fail(Seq<char>),
}

/// Go on with an action set.
pub open spec fn act(o: OptionsV, a: ActionV, next: int) -> StepV {
    match with_action(o, a) {
        Ok(p) => StepV::On(next, p),
        Err(e) => StepV::Fail(e),
    }
}

/// What the argument at `i` does.
pub open spec fn step_of(args: Seq<Seq<char>>, i: int, o: OptionsV) -> StepV {
    let a = args[i];
    if a == "--info"@ {
        act(o, ActionV::Info, i + 1)
    } else if a == "--sql"@ {
        match value_of(args, i, a) {
            Ok(v) => act(o, ActionV::Sql(v), i + 2),
            Err(e) => StepV::Fail(e),
        }
    } else if a == "--message"@ {
        match number_of(args, i, a) {
            Ok(n) => act(o, ActionV::Message(n), i + 2),
            Err(e) => StepV::Fail(e),
        }
    } else if a == "--attachments"@ {
        match number_of(args, i, a) {
            Ok(n) => act(o, ActionV::Attachments(n), i + 2),
            Err(e) => StepV::Fail(e),
        }
    } else if a == "--attachment"@ {
        match value_of(args, i, a) {
            Ok(v) => match pair_of(v) {
                Ok((m, at)) => act(o, ActionV::Attachment(m, at), i + 2),
                Err(e) => StepV::Fail(e),
            },
            Err(e) => StepV::Fail(e),
        }
    } else if a == "--limit"@ {
        match number_of(args, i, a) {
            Ok(n) => StepV::On(i + 2, OptionsV { limit: bound(n), ..o }),
            Err(e) => StepV::Fail(e),
        }
    } else if a == "--max-body-chars"@ {
        match number_of(args, i, a) {
            Ok(n) => StepV::On(i + 2, OptionsV { max_body_chars: Some(bound(n)), ..o }),
            Err(e) => StepV::Fail(e),
        }
    } else if a == "--max-bytes"@ {
        match number_of(args, i, a) {
            Ok(n) => StepV::On(i + 2, OptionsV { max_bytes: Some(bound(n)), ..o }),
            Err(e) => StepV::Fail(e),
        }
    } else if a == "--out"@ {
        match value_of(args, i, a) {
            Ok(v) => StepV::On(i + 2, OptionsV { out: Some(v), ..o }),
            Err(e) => StepV::Fail(e),
        }
    } else if a == "--list"@ {
        StepV::On(i + 1, OptionsV { list: true, ..o })
    } else if a == "-h"@ || a == "--help"@ {
        StepV::End(ParsedV::Help)
    } else if a == "-V"@ || a == "--version"@ {
        StepV::End(ParsedV::Version)
    } else if a.len() > 0 && a[0] == '-' {
        StepV::Fail("unknown flag "@ + a)
    } else {
        StepV::On(i + 1, OptionsV { path: Some(a), ..o })
    }
}

/// What the arguments from `i` on come to.
pub open spec fn parsed_from(args: Seq<Seq<char>>, i: int, o: OptionsV) -> Result<
    ParsedV,
    Seq<char>,
>
    decreases args.len() - i,
{
    if i < 0 || i >= args.len() {
        Ok(ParsedV::Run(o))
    } else {
        match step_of(args, i, o) {
            StepV::On(next, p) => parsed_from(args, next, p),
            StepV::End(r) => Ok(r),
            StepV::Fail(e) => Err(e),
        }
    }
}

fn is(a: &String, b: &str) -> (r: bool)
    ensures
        r == (a@ == b@),
{
    text::same_chars(text::chars_of(a.as_str()).as_slice(), text::chars_of(b).as_slice())
}

fn need(args: &Vec<String>, i: usize) -> (r: Result<String, String>)
    requires
        i < args@.len(),
    ensures
        match r {
            Ok(v) => value_of(views::views(args@), i as int, args@[i as int]@) == Ok::<
                Seq<char>,
                Seq<char>,
            >(v@),
            Err(e) => value_of(views::views(args@), i as int, args@[i as int]@) == Err::<
                Seq<char>,
                Seq<char>,
            >(e@),
        },
{
    if args.len() - i > 1 {
        assert(views::views(args@)[i + 1] == args@[i + 1]@);
        Ok(args[i + 1].clone())
    } else {
        Err(text::cat2(args[i].as_str(), " needs a value"))
    }
}

fn number(args: &Vec<String>, i: usize) -> (r: Result<i64, String>)
    requires
        i < args@.len(),
    ensures
        match r {
            Ok(n) => number_of(views::views(args@), i as int, args@[i as int]@) == Ok::<
                int,
                Seq<char>,
            >(n as int),
            Err(e) => number_of(views::views(args@), i as int, args@[i as int]@) == Err::<
                int,
                Seq<char>,
            >(e@),
        },
{
    let raw: String = need(args, i)?;
    match parse_i64(raw.as_str()) {
        Ok(n) => Ok(n),
        Err(_) => Err(
            text::cat3(
                args[i].as_str(),
                " wants a number, got ",
                text::debug_string(raw.as_str()).as_str(),
            ),
        ),
    }
}

/// Set the action of a run, unless one is set already.
pub fn set(slot: &mut Option<Action>, a: Action) -> (r: Result<(), String>)
    ensures
        match r {
            Ok(_) => *old(slot) is None && *final(slot) == Some(a),
            Err(e) => *old(slot) is Some && *final(slot) == *old(slot) && e@
                == "pick one of --info, --sql, --message, --attachments, --attachment"@,
        },
{
    if slot.is_some() {
        return Err(
            "pick one of --info, --sql, --message, --attachments, --attachment".to_owned(),
        );
    }
    *slot = Some(a);
    Ok(())
}

fn read_pair(pair: &String) -> (r: Result<(i64, i64), String>)
    ensures
        match r {
            Ok((m, a)) => pair_of(pair@) == Ok::<(int, int), Seq<char>>((m as int, a as int)),
            Err(e) => pair_of(pair@) == Err::<(int, int), Seq<char>>(e@),
        },
{
    let cs: Vec<char> = text::chars_of(pair.as_str());
    match text::find_char(cs.as_slice(), ':') {
        None => Err("--attachment wants <message_nid>:<attachment_nid>".to_owned()),
        Some(p) => {
            assert(cs@.subrange(0, p as int) =~= pair@.take(p as int));
            assert(cs@.subrange(p + 1, cs@.len() as int) =~= pair@.skip(p + 1));
            let left: String = text::string_range(cs.as_slice(), 0, p);
            let right: String = text::string_range(cs.as_slice(), p + 1, cs.len());
            match parse_i64(left.as_str()) {
                Err(e) => Err(e.display()),
                Ok(m) => match parse_i64(right.as_str()) {
                    Err(e) => Err(e.display()),
                    Ok(a) => Ok((m, a)),
                },
            }
        },
    }
}

/// What one argument did.
enum Step {
    On(usize),
    End(Parsed),
    Fail(String),
}

fn act_on(o: &mut Options, a: Action, next: usize) -> (r: Step)
    ensures
        match r {
            Step::On(n) => act(old(o)@, a@, next as int) == StepV::On(n as int, final(o)@) && n
                == next,
            Step::End(_) => false,
            Step::Fail(e) => act(old(o)@, a@, next as int) == StepV::Fail(e@),
        },
{
    match set(&mut o.action, a) {
        Ok(_) => Step::On(next),
        Err(e) => Step::Fail(e),
    }
}

fn step(args: &Vec<String>, i: usize, o: &mut Options) -> (r: Step)
    requires
        i < args@.len(),
    ensures
        match r {
            Step::On(n) => step_of(views::views(args@), i as int, old(o)@) == StepV::On(
                n as int,
                final(o)@,
            ) && i < n <= args@.len(),
            Step::End(p) => step_of(views::views(args@), i as int, old(o)@) == StepV::End(p@),
            Step::Fail(e) => step_of(views::views(args@), i as int, old(o)@) == StepV::Fail(e@),
        },
{
    let a: &String = &args[i];
    assert(args@.len() == args.len());
    assert(views::views(args@)[i as int] == a@);
    if is(a, "--info") {
        act_on(o, Action::Info, i + 1)
    } else if is(a, "--sql") {
        match need(args, i) {
            Ok(v) => act_on(o, Action::Sql(v), i + 2),
            Err(e) => Step::Fail(e),
        }
    } else if is(a, "--message") {
        match number(args, i) {
            Ok(n) => act_on(o, Action::Message(n), i + 2),
            Err(e) => Step::Fail(e),
        }
    } else if is(a, "--attachments") {
        match number(args, i) {
            Ok(n) => act_on(o, Action::Attachments(n), i + 2),
            Err(e) => Step::Fail(e),
        }
    } else if is(a, "--attachment") {
        match need(args, i) {
            Ok(v) => match read_pair(&v) {
                Ok((m, at)) => act_on(o, Action::Attachment(m, at), i + 2),
                Err(e) => Step::Fail(e),
            },
            Err(e) => Step::Fail(e),
        }
    } else if is(a, "--limit") {
        match number(args, i) {
            Ok(n) => {
                o.limit = to_bound(n);
                Step::On(i + 2)
            },
            Err(e) => Step::Fail(e),
        }
    } else if is(a, "--max-body-chars") {
        match number(args, i) {
            Ok(n) => {
                o.max_body_chars = Some(to_bound(n));
                Step::On(i + 2)
            },
            Err(e) => Step::Fail(e),
        }
    } else if is(a, "--max-bytes") {
        match number(args, i) {
            Ok(n) => {
                o.max_bytes = Some(to_bound(n));
                Step::On(i + 2)
            },
            Err(e) => Step::Fail(e),
        }
    } else if is(a, "--out") {
        match need(args, i) {
            Ok(v) => {
                o.out = Some(v);
                Step::On(i + 2)
            },
            Err(e) => Step::Fail(e),
        }
    } else if is(a, "--list") {
        o.list = true;
        Step::On(i + 1)
    } else if is(a, "-h") || is(a, "--help") {
        Step::End(Parsed::Help)
    } else if is(a, "-V") || is(a, "--version") {
        Step::End(Parsed::Version)
    } else {
        let cs: Vec<char> = text::chars_of(a.as_str());
        if cs.len() > 0 && cs[0] == '-' {
            Step::Fail(text::cat2("unknown flag ", a.as_str()))
        } else {
            o.path = Some(a.clone());
            Step::On(i + 1)
        }
    }
}

/// Read a command line, without the program's own name.
pub fn parse_args(args: &Vec<String>) -> (r: Result<Parsed, String>)
    ensures
        match r {
            Ok(p) => parsed_from(views::views(args@), 0, no_options()) == Ok::<ParsedV, Seq<char>>(
                p@,
            ),
            Err(e) => parsed_from(views::views(args@), 0, no_options()) == Err::<
                ParsedV,
                Seq<char>,
            >(e@),
        },
{
    let mut o: Options = Options {
        path: None,
        action: None,
        list: false,
        limit: 10_000,
        max_body_chars: None,
        max_bytes: None,
        out: None,
    };
    let ghost all = views::views(args@);
    let mut i: usize = 0;
    while i < args.len()
        invariant
            i <= args@.len(),
            all == views::views(args@),
            parsed_from(all, i as int, o@) == parsed_from(all, 0, no_options()),
        decreases args@.len() - i,
    {
        match step(args, i, &mut o) {
            Step::On(next) => {
                i = next;
            },
            Step::End(p) => {
                return Ok(p);
            },
            Step::Fail(e) => {
                return Err(e);
            },
        }
    }
    Ok(Parsed::Run(o))
}

/// One action per run: once an action is chosen, no later argument replaces it.
pub proof fn lemma_first_action_stays(args: Seq<Seq<char>>, i: int, o: OptionsV)
    requires
        0 <= i,
        o.action is Some,
    ensures
        parsed_from(args, i, o) matches Ok(ParsedV::Run(p)) ==> p.action == o.action,
    decreases args.len() - i,
{
    if i < args.len() {
        if let StepV::On(next, p) = step_of(args, i, o) {
            lemma_first_action_stays(args, next, p);
        }
    }
}

/// Where the database of a profile is, given a path that may be the database, its
/// directory, or the directory above.
#[derive(Clone, Copy, Debug, PartialEq, Eq, Structural)]
pub enum DataDir {
    /// The directory that the path is in.
    Parent,
    /// The path itself.
    Here,
    /// The `Data` directory below the path.
    Data,
}

/// Which directory a path means, given its file name and whether a database is
/// found in it and in the `Data` directory below it.
pub fn mac_data_dir(file_name: Option<&str>, db_here: bool, db_in_data: bool) -> (r: Option<DataDir>)
    ensures
        r == (if file_name matches Some(n) && n@ == "Outlook.sqlite"@ {
            Some(DataDir::Parent)
        } else if db_here {
            Some(DataDir::Here)
        } else if db_in_data {
            Some(DataDir::Data)
        } else {
            None
        }),
{
    if let Some(n) = file_name {
        if text::same_chars(
            text::chars_of(n).as_slice(),
            text::chars_of("Outlook.sqlite").as_slice(),
        ) {
            return Some(DataDir::Parent);
        }
    }
    if db_here {
        Some(DataDir::Here)
    } else if db_in_data {
        Some(DataDir::Data)
    } else {
        None
    }
}

} // verus!
