//! Laws of numbers and times as text.

use vstd::prelude::*;
use crate::calendar;
use crate::ost::props;
use crate::text;

verus! {

/// The digit that a character is, if it is one.
pub open spec fn digit(c: char) -> Option<int> {
    if '0' <= c && c <= '9' {
        Some(c as int - '0' as int)
    } else {
        None
    }
}

/// Whether every character is a digit.
pub open spec fn all_digits(s: Seq<char>) -> bool {
    forall|i: int| 0 <= i < s.len() ==> digit(#[trigger] s[i]) is Some
}

/// The number that digits make.
pub open spec fn number(s: Seq<char>) -> int
    decreases s.len(),
{
    if s.len() == 0 {
        0
    } else {
        10 * number(s.drop_last()) + match digit(s.last()) {
            Some(d) => d,
            None => 0,
        }
    }
}

/// `s` is digits that make `n`, without a leading zero.
pub open spec fn is_amount(s: Seq<char>, n: int) -> bool {
    s.len() > 0 && all_digits(s) && number(s) == n && (s.len() > 1 ==> s[0] != '0')
}

/// `s` is `n` in decimal: its amount, and a minus sign in front where it is negative.
pub open spec fn is_decimal(s: Seq<char>, n: int) -> bool {
    if n < 0 {
        s.len() > 1 && s[0] == '-' && is_amount(s.skip(1), -n)
    } else {
        is_amount(s, n)
    }
}

proof fn lemma_dec(n: nat)
    ensures
        text::dec(n).len() > 0,
        all_digits(text::dec(n)),
        number(text::dec(n)) == n,
        n > 0 ==> text::dec(n)[0] != '0',
        n == 0 ==> text::dec(n).len() == 1,
    decreases n,
{
    reveal_with_fuel(number, 2);
    if n >= 10 {
        lemma_dec(n / 10);
        let front = text::dec(n / 10);
        let all = text::dec(n);
        assert(all.drop_last() =~= front);
        assert(all.last() == text::hex_digit((n % 10) as int));
        assert(all[0] == front[0]);
        assert forall|i: int| 0 <= i < all.len() implies digit(#[trigger] all[i]) is Some by {
            if i < front.len() {
                assert(all[i] == front[i]);
            }
        }
    } else {
        assert(text::dec(n).drop_last() =~= seq![]);
    }
}

/// A number is told in decimal.
pub proof fn lemma_signed_is_decimal(n: int)
    ensures
        is_decimal(text::signed(n), n),
{
    if n < 0 {
        lemma_dec((-n) as nat);
        assert(text::signed(n).skip(1) =~= text::dec((-n) as nat));
    } else {
        lemma_dec(n as nat);
    }
}

/// A decimal text is of one number only.
pub proof fn lemma_decimal_is_one_number(s: Seq<char>, m: int, n: int)
    requires
        is_decimal(s, m),
        is_decimal(s, n),
    ensures
        m == n,
{
    if m < 0 || n < 0 {
        assert(digit('-') is None);
    }
}

/// The years 0 to 9999, in microseconds from 1970 on.
pub open spec fn in_four_places(us: int) -> bool {
    -62_167_219_200_000_000 <= us < 253_402_300_800_000_000
}

/// Whether a text is `YYYY-MM-DD HH:MM:SS` and the date and time of day in it are
/// that many seconds from the start of 1970.
pub open spec fn reads_as(s: Seq<char>, secs: int) -> bool {
    let (y, m, d) = (number(s.subrange(0, 4)), number(s.subrange(5, 7)), number(s.subrange(8, 10)));
    let (h, min, sec) = (
        number(s.subrange(11, 13)),
        number(s.subrange(14, 16)),
        number(s.subrange(17, 19)),
    );
    &&& s.len() == 19
    &&& s[4] == '-' && s[7] == '-' && s[10] == ' ' && s[13] == ':' && s[16] == ':'
    &&& all_digits(s.subrange(0, 4)) && all_digits(s.subrange(5, 7)) && all_digits(
        s.subrange(8, 10),
    ) && all_digits(s.subrange(11, 13)) && all_digits(s.subrange(14, 16)) && all_digits(
        s.subrange(17, 19),
    )
    &&& calendar::valid_date(y, m, d)
    &&& 0 <= h < 24 && 0 <= min < 60 && 0 <= sec < 60
    &&& calendar::day_number(y, m, d) * 86_400 + h * 3600 + min * 60 + sec == secs
}

proof fn lemma_two(s: Seq<char>, n: int)
    requires
        0 <= n < 100,
        s == props::two_places(n),
    ensures
        s.len() == 2,
        all_digits(s),
        number(s) == n,
{
    reveal_with_fuel(text::dec, 2);
    reveal_with_fuel(number, 3);
    assert(s =~= seq![text::hex_digit(n / 10), text::hex_digit(n % 10)]);
    assert(s.drop_last() =~= seq![text::hex_digit(n / 10)]);
    assert(s.drop_last().drop_last() =~= seq![]);
}

proof fn lemma_four(s: Seq<char>, y: int)
    requires
        0 <= y < 10_000,
        s == props::year_text(y),
    ensures
        s.len() == 4,
        all_digits(s),
        number(s) == y,
{
    reveal_with_fuel(text::dec, 4);
    reveal_with_fuel(number, 5);
    let full = seq![
        text::hex_digit(y / 1000),
        text::hex_digit(y / 100 % 10),
        text::hex_digit(y / 10 % 10),
        text::hex_digit(y % 10),
    ];
    assert(s =~= full);
    assert(full.drop_last() =~= seq![
        text::hex_digit(y / 1000),
        text::hex_digit(y / 100 % 10),
        text::hex_digit(y / 10 % 10),
    ]);
    assert(full.drop_last().drop_last() =~= seq![
        text::hex_digit(y / 1000),
        text::hex_digit(y / 100 % 10),
    ]);
    assert(full.drop_last().drop_last().drop_last() =~= seq![text::hex_digit(y / 1000)]);
    assert(full.drop_last().drop_last().drop_last().drop_last() =~= seq![]);
}

/// The text of a time reads back as the second that the time lies in.
pub proof fn lemma_text_reads_back(us: int)
    ensures
        in_four_places(us) ==> reads_as(props::time_text(us), us / 1_000_000),
{
    if in_four_places(us) {
        let secs = us / 1_000_000;
        let days = secs / 86_400;
        let rem = secs % 86_400;
        let (y, m, d) = calendar::civil(days);
        let s = props::time_text(us);
        calendar::lemma_civil_is_that_day(days);
        lemma_four_place_year(days);
        lemma_four(props::year_text(y), y);
        lemma_two(props::two_places(m), m);
        lemma_two(props::two_places(d), d);
        lemma_two(props::two_places(rem / 3600), rem / 3600);
        lemma_two(props::two_places((rem % 3600) / 60), (rem % 3600) / 60);
        lemma_two(props::two_places(rem % 60), rem % 60);
        reveal_strlit("-");
        reveal_strlit(" ");
        reveal_strlit(":");
        assert(s.subrange(0, 4) =~= props::year_text(y));
        assert(s.subrange(5, 7) =~= props::two_places(m));
        assert(s.subrange(8, 10) =~= props::two_places(d));
        assert(s.subrange(11, 13) =~= props::two_places(rem / 3600));
        assert(s.subrange(14, 16) =~= props::two_places((rem % 3600) / 60));
        assert(s.subrange(17, 19) =~= props::two_places(rem % 60));
        assert(rem == (rem / 3600) * 3600 + ((rem % 3600) / 60) * 60 + rem % 60);
    }
}

proof fn lemma_four_place_year(days: int)
    requires
        -719_528 <= days < 2_932_897,
    ensures
        0 <= calendar::civil(days).0 < 10_000,
{
    let (y, m, d) = calendar::civil(days);
    calendar::lemma_civil_is_that_day(days);
    assert(calendar::day_number(0, 1, 1) == -719_528);
    assert(calendar::day_number(10_000, 1, 1) == 2_932_897);
    if y < 0 {
        calendar::lemma_day_number_orders(y, m, d, 0, 1, 1);
    }
    if y >= 10_000 && !(y == 10_000 && m == 1 && d == 1) {
        calendar::lemma_day_number_orders(10_000, 1, 1, y, m, d);
    }
}

/// Formatting a time and reading the text back gives the second that it lies in.
pub proof fn lemma_formatted_time_reads_back(us: i64, r: String)
    requires
        call_ensures(props::format_time_us, (us,), r),
        in_four_places(us as int),
    ensures
        reads_as(r@, us as int / 1_000_000),
{
    lemma_text_reads_back(us as int);
}

/// A file time counts tenths of a microsecond from 1601 on: the start of 1970 is 0,
/// and each microsecond more is one more. A file time of 0 is none.
pub proof fn lemma_file_time_counts_from_1601(ft: u64, r: Option<i64>)
    requires
        call_ensures(props::filetime_to_unix_us, (ft,), r),
    ensures
        ft == 0 ==> r is None,
        ft > 0 ==> (r matches Some(us) && 10 * (us - calendar::day_number(1601, 1, 1)
            * 86_400_000_000) <= ft < 10 * (us - calendar::day_number(1601, 1, 1) * 86_400_000_000)
            + 10),
{
    assert(calendar::day_number(1601, 1, 1) == -134_774);
}

} // verus!
