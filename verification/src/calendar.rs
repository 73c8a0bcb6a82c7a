//! The proleptic Gregorian calendar, counted in days from 1970-01-01.

use vstd::prelude::*;

verus! {

/// A day of the calendar.
#[derive(Clone, Copy, Debug)]
pub struct Date {
    pub year: i64,
    pub month: i64,
    pub day: i64,
}

pub open spec fn is_leap(y: int) -> bool {
    y % 4 == 0 && (y % 100 != 0 || y % 400 == 0)
}

pub open spec fn days_in_month(y: int, m: int) -> int {
    if m == 2 {
        if is_leap(y) {
            29
        } else {
            28
        }
    } else if m == 4 || m == 6 || m == 9 || m == 11 {
        30
    } else {
        31
    }
}

/// A month from 1 to 12 and a day that it has.
pub open spec fn valid_date(y: int, m: int, d: int) -> bool {
    1 <= m <= 12 && 1 <= d <= days_in_month(y, m)
}

/// Days from the first of January to the first of month `m`.
pub open spec fn days_before_month(y: int, m: int) -> int
    decreases m,
{
    if m <= 1 {
        0
    } else {
        days_before_month(y, m - 1) + days_in_month(y, m - 1)
    }
}

/// Leap years among the years 1 to `y`, continued below 1.
pub open spec fn leap_years_to(y: int) -> int {
    y / 4 - y / 100 + y / 400
}

/// Days from 1970-01-01 to the given date.
pub open spec fn day_number(y: int, m: int, d: int) -> int {
    365 * (y - 1970) + leap_years_to(y - 1) - leap_years_to(1969) + days_before_month(y, m) + d - 1
}

/// The year, month and day at `days` days from 1970-01-01, worked out on years
/// that begin in March.
pub open spec fn civil(days: int) -> (int, int, int) {
    let z = days + 719_468;
    let era = z / 146_097;
    let doe = z % 146_097;
    let yoe = (doe - doe / 1460 + doe / 36_524 - doe / 146_096) / 365;
    let doy = doe - (365 * yoe + yoe / 4 - yoe / 100);
    let mp = (5 * doy + 2) / 153;
    let d = doy - (153 * mp + 2) / 5 + 1;
    let m = if mp < 10 {
        mp + 3
    } else {
        mp - 9
    };
    let y = yoe + era * 400;
    (
        if m <= 2 {
            y + 1
        } else {
            y
        },
        m,
        d,
    )
}

proof fn lemma_year_of_era(doe: int)
    requires
        0 <= doe < 146_097,
    ensures
        ({
            let yoe = (doe - doe / 1460 + doe / 36_524 - doe / 146_096) / 365;
            &&& 0 <= yoe <= 399
            &&& 365 * yoe + yoe / 4 - yoe / 100 <= doe
            &&& doe < 365 * (yoe + 1) + (yoe + 1) / 4 - (yoe + 1) / 100 || (yoe == 399 && doe
                == 146_096)
        }),
{
}

/// Day `doy` of a year that begins in March, as month (March is 0) and day.
proof fn lemma_month_of_year(doy: int)
    requires
        0 <= doy <= 365,
    ensures
        ({
            let mp = (5 * doy + 2) / 153;
            let d = doy - (153 * mp + 2) / 5 + 1;
            &&& 0 <= mp <= 11
            &&& 1 <= d
            &&& doy < 306 <==> mp < 10
            &&& d <= 31
            &&& (mp == 1 || mp == 3 || mp == 6 || mp == 8) ==> d <= 30
            &&& mp == 11 ==> d <= 29
            &&& mp == 11 && d == 29 ==> doy == 365
        }),
{
}

/// The day count of [`civil`] is undone by [`day_number`]: the date is one of the
/// calendar, and it is the one that many days from 1970-01-01.
pub proof fn lemma_civil_is_that_day(days: int)
    ensures
        ({
            let (y, m, d) = civil(days);
            valid_date(y, m, d) && day_number(y, m, d) == days
        }),
{
    let z = days + 719_468;
    let era = z / 146_097;
    let doe = z % 146_097;
    let yoe = (doe - doe / 1460 + doe / 36_524 - doe / 146_096) / 365;
    let doy = doe - (365 * yoe + yoe / 4 - yoe / 100);
    assert(z == 146_097 * era + doe && 0 <= doe < 146_097);
    lemma_year_of_era(doe);
    lemma_day_of_year(doe, yoe, doy);
    lemma_march_date(era, yoe, doy);
}

/// How far into its year, which begins in March, a day of the era is.
proof fn lemma_day_of_year(doe: int, yoe: int, doy: int)
    requires
        0 <= yoe <= 399,
        doy == doe - (365 * yoe + yoe / 4 - yoe / 100),
        0 <= doy,
        doe < 365 * (yoe + 1) + (yoe + 1) / 4 - (yoe + 1) / 100 || (yoe == 399 && doe == 146_096),
    ensures
        doy <= 365,
        doy == 365 ==> is_leap(yoe + 1),
{
}

/// Day `doy` of the year that begins in March of year `yoe` of an era.
#[verifier::spinoff_prover]
proof fn lemma_march_date(era: int, yoe: int, doy: int)
    requires
        0 <= yoe <= 399,
        0 <= doy <= 365,
        doy == 365 ==> is_leap(yoe + 1),
    ensures
        ({
            let mp = (5 * doy + 2) / 153;
            let d = doy - (153 * mp + 2) / 5 + 1;
            let m = if mp < 10 {
                mp + 3
            } else {
                mp - 9
            };
            let y = yoe + era * 400;
            let cy = if m <= 2 {
                y + 1
            } else {
                y
            };
            &&& valid_date(cy, m, d)
            &&& day_number(cy, m, d) == 146_097 * era + 365 * yoe + yoe / 4 - yoe / 100 + doy
                - 719_468
        }),
{
    lemma_month_of_year(doy);
    let mp = (5 * doy + 2) / 153;
    let y = yoe + era * 400;
    lemma_before_month(y, mp);
    lemma_leap_years_of_era(yoe, era);
    lemma_leap_of_era(yoe, era);
    assert(leap_years_to(1969) == 477);
    assert(365 * (y - 1970) == 365 * yoe + 146_000 * era - 719_050);
    if mp < 10 {
        assert(days_before_month(y, mp + 3) == (153 * mp + 2) / 5 + 59 + (if is_leap(y) {
            1int
        } else {
            0
        }));
    } else {
        assert(days_before_month(y + 1, mp - 9) == (153 * mp + 2) / 5 - 306);
    }
}

proof fn lemma_leap_of_era(yoe: int, era: int)
    ensures
        is_leap(yoe + 1 + era * 400) == is_leap(yoe + 1),
{
    let a = yoe + 1;
    let b = yoe + 1 + era * 400;
    assert(b % 4 == a % 4) by {
        assert(b == a + 4 * (100 * era));
    }
    assert(b % 100 == a % 100) by {
        assert(b == a + 100 * (4 * era));
    }
    assert(b % 400 == a % 400);
}

proof fn lemma_leap_years_of_era(yoe: int, era: int)
    requires
        0 <= yoe <= 399,
    ensures
        leap_years_to(yoe + 400 * era) == yoe / 4 - yoe / 100 + 97 * era,
        leap_years_to(yoe + 400 * era) - leap_years_to(yoe + 400 * era - 1) == (if is_leap(
            yoe + 400 * era,
        ) {
            1int
        } else {
            0
        }),
{
    let y = yoe + 400 * era;
    assert(y / 4 == yoe / 4 + 100 * era);
    assert(y / 100 == yoe / 100 + 4 * era);
    assert(y / 400 == era);
    lemma_leap_step(y);
}

proof fn lemma_leap_step(y: int)
    ensures
        leap_years_to(y) - leap_years_to(y - 1) == (if is_leap(y) {
            1int
        } else {
            0
        }),
{
    assert(y / 4 - (y - 1) / 4 == (if y % 4 == 0 {
        1int
    } else {
        0
    }));
    assert(y / 100 - (y - 1) / 100 == (if y % 100 == 0 {
        1int
    } else {
        0
    }));
    assert(y / 400 - (y - 1) / 400 == (if y % 400 == 0 {
        1int
    } else {
        0
    }));
    assert(y % 100 == 0 ==> y == 4 * (25 * (y / 100)));
    assert(y % 400 == 0 ==> y == 100 * (4 * (y / 400)));
    assert(y % 100 == 0 ==> y % 4 == 0);
    assert(y % 400 == 0 ==> y % 100 == 0);
}

/// Month `mp` of the year that begins in March of `y`, counted from January.
proof fn lemma_before_month(y: int, mp: int)
    requires
        0 <= mp <= 11,
    ensures
        mp < 10 ==> days_before_month(y, mp + 3) == (153 * mp + 2) / 5 + 59 + (if is_leap(y) {
            1int
        } else {
            0
        }),
        mp >= 10 ==> days_before_month(y + 1, mp - 9) == (153 * mp + 2) / 5 - 306,
{
    reveal_with_fuel(days_before_month, 13);
    assert(mp == 0 || mp == 1 || mp == 2 || mp == 3 || mp == 4 || mp == 5 || mp == 6 || mp == 7
        || mp == 8 || mp == 9 || mp == 10 || mp == 11);
}

proof fn lemma_year_length(y: int)
    ensures
        days_before_month(y, 12) + 31 == 365 + leap_years_to(y) - leap_years_to(y - 1),
{
    reveal_with_fuel(days_before_month, 13);
    lemma_leap_step(y);
}

proof fn lemma_month_order(y: int, m: int, n: int)
    requires
        1 <= m < n,
    ensures
        days_before_month(y, m) + days_in_month(y, m) <= days_before_month(y, n),
    decreases n,
{
    if m < n - 1 {
        lemma_month_order(y, m, n - 1);
    }
}

/// A date lies within its year.
proof fn lemma_within_year(y: int, m: int, d: int)
    requires
        valid_date(y, m, d),
    ensures
        0 <= days_before_month(y, m) + d - 1,
        days_before_month(y, m) + d <= 365 + leap_years_to(y) - leap_years_to(y - 1),
{
    lemma_year_length(y);
    if m < 12 {
        lemma_month_order(y, m, 12);
    }
    if m > 1 {
        lemma_month_order(y, 1, m);
    }
}

proof fn lemma_leap_years_grow(a: int, b: int)
    requires
        a <= b,
    ensures
        leap_years_to(a) <= leap_years_to(b),
    decreases b - a,
{
    if a < b {
        lemma_leap_years_grow(a, b - 1);
        lemma_leap_step(b);
    }
}

/// Of two dates the later has the greater number.
#[verifier::spinoff_prover]
pub proof fn lemma_day_number_orders(y1: int, m1: int, d1: int, y2: int, m2: int, d2: int)
    requires
        valid_date(y1, m1, d1),
        valid_date(y2, m2, d2),
        y1 < y2 || (y1 == y2 && (m1 < m2 || (m1 == m2 && d1 < d2))),
    ensures
        day_number(y1, m1, d1) < day_number(y2, m2, d2),
{
    if y1 < y2 {
        lemma_within_year(y1, m1, d1);
        lemma_within_year(y2, m2, d2);
        lemma_leap_years_grow(y1, y2 - 1);
    } else if m1 < m2 {
        lemma_month_order(y1, m1, m2);
    }
}

/// No other date has that number.
pub proof fn lemma_civil_is_unique(y: int, m: int, d: int)
    requires
        valid_date(y, m, d),
    ensures
        civil(day_number(y, m, d)) == (y, m, d),
{
    let (cy, cm, cd) = civil(day_number(y, m, d));
    lemma_civil_is_that_day(day_number(y, m, d));
    if cy < y || (cy == y && (cm < m || (cm == m && cd < d))) {
        lemma_day_number_orders(cy, cm, cd, y, m, d);
    } else if (cy, cm, cd) != (y, m, d) {
        lemma_day_number_orders(y, m, d, cy, cm, cd);
    }
}

/// `a / b`, rounded down.
pub fn floor_div(a: i64, b: i64) -> (r: i64)
    requires
        b > 0,
    ensures
        r == a as int / b as int,
{
    assert(i64::MIN <= a as int / b as int <= i64::MAX) by (nonlinear_arith)
        requires
            b > 0,
            i64::MIN <= a <= i64::MAX,
    ;
    match a.checked_div_euclid(b) {
        Some(q) => q,
        None => 0,
    }
}

/// What [`floor_div`] leaves over.
pub fn floor_rem(a: i64, b: i64) -> (r: i64)
    requires
        b > 0,
    ensures
        r == a as int % b as int,
{
    assert(i64::MIN <= a as int / b as int <= i64::MAX) by (nonlinear_arith)
        requires
            b > 0,
            i64::MIN <= a <= i64::MAX,
    ;
    match a.checked_rem_euclid(b) {
        Some(q) => q,
        None => 0,
    }
}

/// The date `days` days from 1970-01-01.
pub fn date_of(days: i64) -> (r: Date)
    requires
        -4_000_000_000_000_000 <= days <= 4_000_000_000_000_000,
    ensures
        civil(days as int) == (r.year as int, r.month as int, r.day as int),
{
    proof {
        lemma_year_of_era((days + 719_468) % 146_097);
    }
    let z: i64 = days + 719_468;
    let doe: i64 = floor_rem(z, 146_097);
    let era: i64 = floor_div(z, 146_097);
    let yoe: i64 = (doe - doe / 1460 + doe / 36_524 - doe / 146_096) / 365;
    let doy: i64 = doe - (365 * yoe + yoe / 4 - yoe / 100);
    let mp: i64 = (5 * doy + 2) / 153;
    let day: i64 = doy - (153 * mp + 2) / 5 + 1;
    let month: i64 = if mp < 10 {
        mp + 3
    } else {
        mp - 9
    };
    let year: i64 = yoe + era * 400;
    Date {
        year: if month <= 2 {
            year + 1
        } else {
            year
        },
        month,
        day,
    }
}

} // verus!
