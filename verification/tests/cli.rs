use ost_mcp::cli::{mac_data_dir, parse_args, parse_i64, Action, DataDir, NumberError, Options, Parsed};

fn parse(args: &[&str]) -> Result<Parsed, String> {
    parse_args(&args.iter().map(|a| a.to_string()).collect())
}

fn run(args: &[&str]) -> Options {
    match parse(args) {
        Ok(Parsed::Run(o)) => o,
        _ => panic!("no run"),
    }
}

fn fail(args: &[&str]) -> String {
    match parse(args) {
        Err(e) => e,
        Ok(_) => panic!("parsed"),
    }
}

#[test]
fn an_empty_command_line_serves() {
    let o = run(&[]);
    assert!(o.action.is_none() && o.path.is_none() && o.out.is_none());
    assert!(!o.list);
    assert_eq!(o.limit, 10_000);
    assert_eq!((o.max_body_chars, o.max_bytes), (None, None));
}

#[test]
fn each_flag_sets_its_option() {
    let o = run(&["store.ost", "--message", "2097188", "--max-body-chars", "5", "--limit", "7"]);
    assert_eq!(o.path.as_deref(), Some("store.ost"));
    assert!(matches!(o.action, Some(Action::Message(2097188))));
    assert_eq!(o.max_body_chars, Some(5));
    assert_eq!(o.limit, 7);
    let o = run(&["--attachment", "-1000001:12", "--out", "x.bin", "--max-bytes", "9"]);
    assert!(matches!(o.action, Some(Action::Attachment(-1000001, 12))));
    assert_eq!(o.out.as_deref(), Some("x.bin"));
    assert_eq!(o.max_bytes, Some(9));
    assert!(matches!(run(&["--info"]).action, Some(Action::Info)));
    assert!(matches!(run(&["--attachments", "+5"]).action, Some(Action::Attachments(5))));
    match run(&["--sql", "--info"]).action {
        Some(Action::Sql(q)) => assert_eq!(q, "--info"),
        _ => panic!("no query"),
    }
    assert!(run(&["--list"]).list);
    assert_eq!(run(&["a", "b"]).path.as_deref(), Some("b"));
}

#[test]
fn a_negative_bound_wraps() {
    assert_eq!(run(&["--limit", "-1"]).limit, u64::MAX);
}

#[test]
fn help_and_version_end_the_line() {
    assert!(matches!(parse(&["-h", "--nonsense"]), Ok(Parsed::Help)));
    assert!(matches!(parse(&["--help"]), Ok(Parsed::Help)));
    assert!(matches!(parse(&["x", "-V"]), Ok(Parsed::Version)));
    assert!(matches!(parse(&["--version"]), Ok(Parsed::Version)));
}

#[test]
fn the_first_action_stays() {
    assert_eq!(
        fail(&["--info", "--message", "1"]),
        "pick one of --info, --sql, --message, --attachments, --attachment"
    );
    let mut slot = None;
    assert!(ost_mcp::cli::set(&mut slot, Action::Message(1)).is_ok());
    assert!(ost_mcp::cli::set(&mut slot, Action::Info).is_err());
    assert!(matches!(slot, Some(Action::Message(1))));
}

#[test]
fn mistakes_are_named() {
    assert_eq!(fail(&["--nonsense"]), "unknown flag --nonsense");
    assert_eq!(fail(&["-"]), "unknown flag -");
    assert_eq!(fail(&["--sql"]), "--sql needs a value");
    assert_eq!(fail(&["--message"]), "--message needs a value");
    assert_eq!(fail(&["--message", "x\"y"]), "--message wants a number, got \"x\\\"y\"");
    assert_eq!(fail(&["--limit", ""]), "--limit wants a number, got \"\"");
    assert_eq!(
        fail(&["--attachment", "12"]),
        "--attachment wants <message_nid>:<attachment_nid>"
    );
    assert_eq!(fail(&["--attachment", "x:1"]), "invalid digit found in string");
    assert_eq!(fail(&["--attachment", "1:"]), "cannot parse integer from empty string");
    assert_eq!(
        fail(&["--attachment", "9223372036854775808:1"]),
        "number too large to fit in target type"
    );
    assert_eq!(
        fail(&["--attachment", "1:-9223372036854775809"]),
        "number too small to fit in target type"
    );
}

#[test]
fn numbers_are_read_as_the_standard_library_reads_them() {
    for s in [
        "0", "-0", "+0", "007", "-7", "+7", "9223372036854775807", "-9223372036854775808",
        "9223372036854775808", "-9223372036854775809", "", "+", "-", "--1", "1 ", " 1", "1x", "x",
        "\u{661}", "99999999999999999999x", "+-1",
    ] {
        match (parse_i64(s), s.parse::<i64>()) {
            (Ok(a), Ok(b)) => assert_eq!(a, b),
            (Err(a), Err(b)) => assert_eq!(a.display(), b.to_string()),
            _ => panic!("{s:?}"),
        }
    }
    assert!(matches!(parse_i64(""), Err(NumberError::Empty)));
    assert!(matches!(parse_i64("-"), Err(NumberError::InvalidDigit)));
}

#[test]
fn a_profile_may_be_named_three_ways() {
    assert_eq!(mac_data_dir(Some("Outlook.sqlite"), false, false), Some(DataDir::Parent));
    assert_eq!(mac_data_dir(Some("Data"), true, false), Some(DataDir::Here));
    assert_eq!(mac_data_dir(Some("Main Identity"), false, true), Some(DataDir::Data));
    assert_eq!(mac_data_dir(Some("Data"), true, true), Some(DataDir::Here));
    assert_eq!(mac_data_dir(None, false, false), None);
}
