use ost_mcp::sql::{check_read_only, enough, i128_json, query, to_json, Json, SqlValue, TimeUnit};

#[test]
fn read_only_check() {
    assert!(check_read_only("SELECT 1").is_ok());
    assert!(check_read_only("  with x as (select 1) select * from x").is_ok());
    assert!(check_read_only("(SELECT 1) UNION (SELECT 2)").is_ok());
    assert!(check_read_only("select 1;").is_ok());
    assert!(check_read_only("CREATE TABLE t (a INT)").is_err());
    assert!(check_read_only("COPY messages TO 'out.csv'").is_err());
    assert!(check_read_only("select 1; drop view messages").is_err());
}

#[test]
fn refusals_say_why() {
    assert_eq!(
        check_read_only("Drop view messages").unwrap_err(),
        "only read-only statements are allowed; this one starts with `drop`"
    );
    assert_eq!(
        check_read_only("  ").unwrap_err(),
        "only read-only statements are allowed; this one starts with ``"
    );
    assert_eq!(check_read_only("select 1; select 2").unwrap_err(), "only one statement per call");
    assert_eq!(
        check_read_only("select 1;; -- done\n ;drop view messages").unwrap_err(),
        "only one statement per call"
    );
}

#[test]
fn every_read_only_verb_is_allowed() {
    for verb in ["select", "describe", "summarize", "show", "pragma", "table"] {
        assert!(check_read_only(&format!("{verb} x")).is_ok());
        assert!(check_read_only(&format!("\t((\u{a0}{} x);;", verb.to_uppercase())).is_ok());
        assert!(check_read_only(&format!("{verb}x")).is_err());
        assert!(check_read_only(&format!("explain {verb} x")).is_ok());
        assert!(check_read_only(&format!("with a as (select 1) {verb} x")).is_ok());
    }
    assert!(check_read_only("withx").is_err());
    assert!(check_read_only("explainx").is_err());
}

#[test]
fn the_verb_behind_named_queries_decides() {
    let insert = "WITH x AS (SELECT 1 AS a) INSERT INTO t SELECT a FROM x";
    assert_eq!(
        check_read_only(insert).unwrap_err(),
        "only read-only statements are allowed; this one runs `insert`"
    );
    for sql in [
        "with x as (select 1) update t set a = 1",
        "with x as materialized (select 1), y(a, b) as (select 2, 3) delete from t",
        "(with x as (select 1) insert into t select 1)",
        "with recursive x(n) as (select 1 union all select n + 1 from x) merge into t using x on a",
        "with x as (select ')' as a) insert into t values (1)",
        "with x as (select 1) /* select */ insert into t values (1)",
        "with x as (select 1)-- select\ninsert into t values (1)",
        "with \"as (select 1) select\" as (select 1) insert into t values (1)",
        "with x as (insert into t values (1) returning a) select * from x",
        "with x as (with y as (select 1) delete from t returning a) select * from x",
        "with x as (select 1)",
        "with x as (select 1);",
        "with",
    ] {
        assert!(check_read_only(sql).is_err(), "{sql}");
    }
    for sql in [
        "with x as (select 1), y as not materialized (select 'insert into t') select * from x, y",
        "with x as (select 1) (select * from x) union (select 2)",
        "with x as (select 1) from x",
        "with x as (select 1) values (1)",
        "with x as (with y as (select 1) select * from y) select * from x",
        "with update as (select 1) select * from update",
        "with x(a) as (select 1) select a as b from x where a in (select 2)",
    ] {
        assert!(check_read_only(sql).is_ok(), "{sql}");
    }
}

#[test]
fn the_statement_explained_decides() {
    assert_eq!(
        check_read_only("explain analyze insert into t values (1)").unwrap_err(),
        "only read-only statements are allowed; this one runs `insert`"
    );
    for sql in [
        "explain insert into t values (1)",
        "EXPLAIN (ANALYZE, FORMAT json) DELETE FROM t",
        "explain analyze with x as (select 1) insert into t select 1",
        "explain verbose create table t as select 1",
        "explain (values (1)) insert into t select 1",
        "explain",
        "explain x",
    ] {
        assert!(check_read_only(sql).is_err(), "{sql}");
    }
    for sql in [
        "explain select 1",
        "explain analyze select 1;",
        "explain (analyze, format json) select 1",
        "explain (select 1)",
        "explain ((select 1) union (select 2))",
        "explain (values (1))",
        "explain analyze with x as (select 1) select * from x",
    ] {
        assert!(check_read_only(sql).is_ok(), "{sql}");
    }
}

#[test]
fn quotes_and_comments_hide_what_they_hold() {
    for sql in [
        "select ';' ",
        "select 'a;b' as \"c;d\", `e;f` from t where g = ';'",
        "select 'it''s; fine'",
        "select e'it\\'s; fine', E'a''b\\';c'",
        "select $$one; two$$, $tag$ $$ ; $tag$",
        "select 1 -- one; two",
        "select 1 /* one; /* two; */ three; */ + 1",
        "/* first */ select 1",
        "-- first; line\nselect 1",
        "select*from t",
        "select 1; -- done",
        "select 1; ;",
    ] {
        assert!(check_read_only(sql).is_ok(), "{sql}");
    }
    for sql in [
        "select 'a'; drop view messages",
        "select 'it''s'; drop view messages",
        "select e'\\''; drop view messages --'",
        "select $$a$$; drop view messages",
        "select $1; drop view messages -- $1",
        "select /* /* */ 1 */ 2; drop view messages",
        "select \"a\"\";\"; drop view messages",
        "/* select */ drop view messages",
    ] {
        assert!(check_read_only(sql).is_err(), "{sql}");
    }
}

fn text(j: Json) -> String {
    match j {
        Json::Text(s) => s,
        _ => panic!("no text"),
    }
}

#[test]
fn values_become_json() {
    assert!(matches!(to_json(SqlValue::Null), Json::Null));
    assert!(matches!(to_json(SqlValue::Boolean(true)), Json::Bool(true)));
    assert!(matches!(to_json(SqlValue::Int(-5)), Json::Int(-5)));
    assert!(matches!(to_json(SqlValue::UInt(u64::MAX)), Json::UInt(u64::MAX)));
    assert!(matches!(to_json(SqlValue::HugeInt(7)), Json::Int(7)));
    assert!(matches!(to_json(SqlValue::UHugeInt(7)), Json::Int(7)));
    assert!(matches!(to_json(SqlValue::UHugeInt(u128::MAX)), Json::Null));
    assert!(matches!(to_json(SqlValue::Float(1.5f64.to_bits())), Json::Float(b) if b == 1.5f64.to_bits()));
    assert_eq!(text(to_json(SqlValue::Text("x".to_string()))), "x");
    assert_eq!(text(to_json(SqlValue::Blob(12))), "<12 bytes>");
    assert_eq!(text(to_json(SqlValue::Other("Date32(3)".to_string()))), "Date32(3)");
}

#[test]
fn timestamps_become_text_in_every_unit() {
    for (unit, n) in [
        (TimeUnit::Second, 1_700_000_000),
        (TimeUnit::Millisecond, 1_700_000_000_000),
        (TimeUnit::Microsecond, 1_700_000_000_000_000),
        (TimeUnit::Nanosecond, 1_700_000_000_000_000_000),
    ] {
        assert_eq!(text(to_json(SqlValue::Timestamp(unit, n))), "2023-11-14 22:13:20");
    }
    // Truncated toward zero, then told as the second it falls in.
    assert_eq!(text(to_json(SqlValue::Timestamp(TimeUnit::Nanosecond, -1))), "1970-01-01 00:00:00");
    assert_eq!(
        text(to_json(SqlValue::Timestamp(TimeUnit::Nanosecond, -1_000))),
        "1969-12-31 23:59:59"
    );
    // A count that does not fit is held at the last instant that does.
    assert_eq!(
        text(to_json(SqlValue::Timestamp(TimeUnit::Second, i64::MAX))),
        text(to_json(SqlValue::Timestamp(TimeUnit::Microsecond, i64::MAX)))
    );
    assert_eq!(
        text(to_json(SqlValue::Timestamp(TimeUnit::Millisecond, i64::MIN))),
        text(to_json(SqlValue::Timestamp(TimeUnit::Microsecond, i64::MIN)))
    );
}

#[test]
fn numbers_beyond_64_bits_are_text() {
    assert!(matches!(i128_json(i64::MAX as i128), Json::Int(i64::MAX)));
    assert!(matches!(i128_json(i64::MIN as i128), Json::Int(i64::MIN)));
    assert_eq!(text(i128_json(i64::MAX as i128 + 1)), "9223372036854775808");
    assert_eq!(text(i128_json(i128::MIN)), "-170141183460469231731687303715884105728");
}

fn fetched(n: i64) -> Vec<Vec<SqlValue>> {
    (0..n).map(|i| vec![SqlValue::Int(i)]).collect()
}

#[test]
fn a_result_stops_at_its_limit_and_says_so() {
    let r = query(vec!["n".to_string()], fetched(3), 3, false);
    assert_eq!(r.columns, vec!["n"]);
    assert_eq!(r.rows.len(), 3);
    assert!(!r.truncated);
    let r = query(vec!["n".to_string()], fetched(3), 3, true);
    assert_eq!(r.rows.len(), 3);
    assert!(r.truncated);
    assert!(matches!(r.rows[2][0], Json::Int(2)));
    let r = query(vec!["n".to_string()], fetched(4), 3, false);
    assert_eq!(r.rows.len(), 3);
    assert!(r.truncated);
    let r = query(vec!["n".to_string()], fetched(0), 3, false);
    assert!(r.rows.is_empty() && !r.truncated);
    assert!(!enough(2, 3));
    assert!(enough(3, 3));
    assert!(enough(0, 0));
}
