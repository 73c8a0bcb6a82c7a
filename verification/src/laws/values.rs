//! Laws of the values of a query result and how they are shown.

use vstd::prelude::*;
use crate::laws::times::{
    in_four_places,
    is_decimal,
    lemma_signed_is_decimal,
    lemma_text_reads_back,
    reads_as,
};
use crate::sql;
use crate::sql::{Json, Rows, SqlValue, TimeUnit};
use crate::text;
use crate::views;

verus! {

/// The text of a shown cell that is one.
pub open spec fn shows_text(r: Json, s: Seq<char>) -> bool {
    r matches Json::Text(t) && t@ == s
}

/// A whole number is shown as itself where 64 bits hold it, and in decimal else.
pub open spec fn shows_number(r: Json, n: int) -> bool {
    if -0x8000_0000_0000_0000 <= n < 0x8000_0000_0000_0000 {
        r matches Json::Int(k) && k == n
    } else {
        r matches Json::Text(t) && is_decimal(t@, n)
    }
}

/// `us` is the moment that lies `n` units behind 1970, or the last whole microsecond
/// towards 1970 where it lies between two.
pub open spec fn same_moment(us: int, unit: TimeUnit, n: i64) -> bool {
    match unit {
        TimeUnit::Second => us == 1_000_000 * n,
        TimeUnit::Millisecond => us == 1_000 * n,
        TimeUnit::Microsecond => us == n,
        TimeUnit::Nanosecond => if n >= 0 {
            1_000 * us <= n < 1_000 * us + 1_000
        } else {
            1_000 * us - 1_000 < n <= 1_000 * us
        },
    }
}

/// A number that may be larger than any 64 bits is shown exactly.
pub proof fn lemma_wide_number_is_exact(n: i128, r: Json)
    requires
        call_ensures(sql::i128_json, (n,), r),
    ensures
        shows_number(r, n as int),
{
    lemma_signed_is_decimal(n as int);
}

/// `r` shows the value `v`: what has a form in a reply keeps it, a number too wide for
/// one is written out, and of a byte string the length is told.
pub open spec fn shows_value(r: Json, v: SqlValue) -> bool {
    match v {
        SqlValue::Null => r is Null,
        SqlValue::Boolean(b) => r == Json::Bool(b),
        SqlValue::Int(n) => r == Json::Int(n),
        SqlValue::UInt(n) => r == Json::UInt(n),
        SqlValue::HugeInt(n) => shows_number(r, n as int),
        SqlValue::UHugeInt(n) => if n <= i128::MAX {
            shows_number(r, n as int)
        } else {
            r is Null
        },
        SqlValue::Float(bits) => r == Json::Float(bits),
        SqlValue::Text(s) => shows_text(r, s@),
        SqlValue::Other(s) => shows_text(r, s@),
        SqlValue::Timestamp(_, _) => r is Text,
        SqlValue::Blob(len) => r matches Json::Text(t) && shows_length(t@, len as int),
    }
}

/// `t` is a number of bytes between angle brackets.
pub open spec fn shows_length(t: Seq<char>, len: int) -> bool {
    &&& t.len() > 8
    &&& t[0] == '<'
    &&& is_decimal(t.subrange(1, t.len() - 7), len)
    &&& t.subrange(t.len() - 7, t.len() as int) == " bytes>"@
}

/// Every value of a result is shown by what it is.
pub proof fn lemma_value_is_shown(v: SqlValue, r: Json)
    requires
        call_ensures(sql::to_json, (v,), r),
    ensures
        shows_value(r, v),
{
    lemma_shown(v, r);
}

/// A time is shown as the date and the time of day of its moment, whatever its unit,
/// as long as its year has four places.
pub proof fn lemma_time_is_shown(unit: TimeUnit, n: i64, us: int, r: Json)
    requires
        call_ensures(sql::to_json, (SqlValue::Timestamp(unit, n),), r),
        same_moment(us, unit, n),
        in_four_places(us),
    ensures
        r matches Json::Text(t) && reads_as(t@, us / 1_000_000),
{
    let v = SqlValue::Timestamp(unit, n);
    assert(r@ == sql::shown(v));
    lemma_text_reads_back(us);
    assert(sql::time_in_us(unit, n) == us) by {
        match unit {
            TimeUnit::Nanosecond => {
                if n >= 0 {
                    assert(n as int / 1_000 == us);
                } else {
                    assert(-(n as int) / 1_000 == -us);
                }
            },
            _ => {},
        }
    }
}

/// A result keeps the first rows up to the limit, in their order, each cell shown, and
/// says whether any were left out.
pub proof fn lemma_result_keeps_the_first_rows(
    columns: Vec<String>,
    fetched: Vec<Vec<SqlValue>>,
    limit: usize,
    more: bool,
    r: Rows,
)
    requires
        call_ensures(sql::query, (columns, fetched, limit, more), r),
    ensures
        r.columns@ == columns@,
        r.rows@.len() <= limit,
        r.rows@.len() <= fetched@.len(),
        r.rows@.len() == limit || r.rows@.len() == fetched@.len(),
        forall|i: int|
            0 <= i < r.rows@.len() ==> (#[trigger] r.rows@[i])@.len() == fetched@[i]@.len(),
        forall|i: int, j: int|
            0 <= i < r.rows@.len() && 0 <= j < r.rows@[i]@.len() ==> shows_value(
                #[trigger] r.rows@[i]@[j],
                fetched@[i]@[j],
            ),
        !r.truncated ==> !more && r.rows@.len() == fetched@.len(),
        r.truncated ==> more || r.rows@.len() < fetched@.len(),
{
    let shown = sql::cells(r.rows@);
    assert(shown.len() == r.rows@.len());
    assert forall|i: int| 0 <= i < r.rows@.len() implies (#[trigger] r.rows@[i])@.len()
        == fetched@[i]@.len() by {
        assert(shown[i] == views::views(r.rows@[i]@));
        assert(shown[i] == sql::shown_row(fetched@[i]@));
        assert(shown[i].len() == fetched@[i]@.len());
    }
    assert forall|i: int, j: int|
        0 <= i < r.rows@.len() && 0 <= j < r.rows@[i]@.len() implies shows_value(
        #[trigger] r.rows@[i]@[j],
        fetched@[i]@[j],
    ) by {
        assert(shown[i] == views::views(r.rows@[i]@));
        assert(shown[i] == sql::shown_row(fetched@[i]@));
        assert(shown[i][j] == r.rows@[i]@[j]@);
        lemma_shown(fetched@[i]@[j], r.rows@[i]@[j]);
    }
}

proof fn lemma_shown(v: SqlValue, r: Json)
    requires
        r@ == sql::shown(v),
    ensures
        shows_value(r, v),
{
    match v {
        SqlValue::HugeInt(n) => {
            lemma_signed_is_decimal(n as int);
        },
        SqlValue::UHugeInt(n) => {
            lemma_signed_is_decimal(n as int);
        },
        SqlValue::Blob(len) => {
            let t = r->Text_0@;
            reveal_strlit("<");
            reveal_strlit(" bytes>");
            lemma_signed_is_decimal(len as int);
            let shown = text::dec(len as nat);
            assert(t.subrange(1, t.len() - 7) =~= shown);
            assert(t.subrange(t.len() - 7, t.len() as int) =~= " bytes>"@);
        },
        _ => {},
    }
}

/// Rows are fetched up to the limit and not beyond.
pub proof fn lemma_fetching_stops_at_the_limit(fetched: usize, limit: usize, r: bool)
    requires
        call_ensures(sql::enough, (fetched, limit), r),
    ensures
        r <==> !(fetched < limit),
{
}

} // verus!
