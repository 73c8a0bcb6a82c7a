use ost_mcp::bytes::{copy_range, u16le, u32le, u64le};
use ost_mcp::calendar::{date_of, floor_div, floor_rem};
use ost_mcp::search::{find_bytes, find_bytes_from, find_chars_from, rfind_chars, sooner_of, starts_with};
use ost_mcp::text::{
    all_hex, cat2, cat3, chars_of, contains_char, dec_string, eq_ignore_ascii_case, find_char,
    from_utf16_lossy, hex_string, is_whitespace, rfind_char, same_chars, signed_string,
    signed_string_128, string_of, string_range, strip_pair, to_ascii_lower, trim, trim_end, trim_start,
    utf8_len, zero_pad,
};

fn chars(s: &str) -> Vec<char> {
    s.chars().collect()
}

#[test]
fn white_space_is_the_unicode_property() {
    for u in 0..=0x10FFFF {
        if let Some(c) = char::from_u32(u) {
            assert_eq!(is_whitespace(c), c.is_whitespace(), "U+{u:04X}");
        }
    }
}

#[test]
fn texts_are_trimmed_as_strings_are() {
    for s in ["", "  ", "a", " \t a b\u{a0}\n", "\u{3000}x", "x\u{2028}"] {
        assert_eq!(string_of(trim(&chars(s))), s.trim());
        assert_eq!(string_of(trim_start(&chars(s))), s.trim_start());
        assert_eq!(string_of(trim_end(&chars(s))), s.trim_end());
    }
}

#[test]
fn numbers_are_written_as_formatting_writes_them() {
    for n in [0, 9, 10, 15, 16, 255, 0xABC, u64::MAX] {
        assert_eq!(hex_string(n), format!("{n:X}"));
        assert_eq!(dec_string(n), format!("{n}"));
    }
    for n in [0, -1, 1, -10, i64::MIN, i64::MAX] {
        assert_eq!(signed_string(n), format!("{n}"));
    }
    for n in [0, -1, i128::MIN, i128::MAX] {
        assert_eq!(signed_string_128(n), format!("{n}"));
    }
    assert_eq!(zero_pad("7", 3), "007");
    assert_eq!(zero_pad("1234", 3), "1234");
}

#[test]
fn lone_surrogates_are_replaced() {
    for units in [
        vec![],
        vec![0x41, 0x20AC],
        vec![0xD83D, 0xDE00],
        vec![0xD83D],
        vec![0xDE00, 0x41],
        vec![0xD83D, 0xD83D, 0xDE00],
        vec![0xD83D, 0x41, 0xFFFF],
    ] {
        assert_eq!(from_utf16_lossy(&units), String::from_utf16_lossy(&units));
    }
}

#[test]
fn cases_fold_in_ascii_alone() {
    assert!(eq_ignore_ascii_case("SmTp", "sMtP"));
    assert!(!eq_ignore_ascii_case("\u{c9}", "\u{e9}"));
    assert_eq!(string_of(&to_ascii_lower(&chars("AbZ\u{c9}1"))), "abz\u{c9}1");
}

#[test]
fn characters_are_found_from_either_end() {
    let s = chars("a.b.c");
    assert_eq!(find_char(&s, '.'), Some(1));
    assert_eq!(rfind_char(&s, '.'), Some(3));
    assert_eq!(find_char(&s, 'z'), None);
    assert!(contains_char(&s, 'c') && !contains_char(&s, 'z'));
    assert_eq!(string_of(strip_pair(&chars("<{x<y}>"), '<', '>')), "{x<y}");
    assert_eq!(string_of(strip_pair(&chars("<><"), '<', '>')), "");
    assert!(all_hex(&chars("09afAF")) && !all_hex(&chars("g")));
    assert!(all_hex(&[]));
}

#[test]
fn pieces_join_and_split() {
    assert_eq!(cat2("a", "b"), "ab");
    assert_eq!(cat3("a", "", "c"), "ac");
    assert_eq!(string_range(&chars_of("h\u{e9}llo"), 1, 4), "\u{e9}ll");
    assert!(same_chars(&chars("x"), &chars("x")) && !same_chars(&chars("x"), &chars("xy")));
    for s in ["", "a", "\u{e9}", "\u{20ac}", "\u{1f600}z"] {
        assert_eq!(utf8_len(&chars(s)), s.len() as u128);
    }
}

#[test]
fn needles_are_found_first_and_last() {
    assert_eq!(find_bytes(b"abcabc", b"bc"), Some(1));
    assert_eq!(find_bytes_from(b"abcabc", b"bc", 2), Some(4));
    assert_eq!(find_bytes(b"abc", b"abcd"), None);
    assert_eq!(find_chars_from(&chars("abab"), &chars("ab"), 1), Some(2));
    assert_eq!(rfind_chars(&chars("abab"), &chars("ab")), Some(2));
    assert_eq!(rfind_chars(&chars("a"), &chars("ab")), None);
    assert!(starts_with(&chars("abc"), &chars("ab")) && !starts_with(&chars("a"), &chars("ab")));
    assert_eq!(sooner_of(Some(3), Some(2)), Some(2));
    assert_eq!(sooner_of(None, Some(2)), Some(2));
    assert_eq!(sooner_of(None, None), None);
}

#[test]
fn integers_are_little_endian() {
    let b = [1, 2, 3, 4, 5, 6, 7, 8, 9];
    assert_eq!(u16le(&b, 1), 0x0302);
    assert_eq!(u32le(&b, 1), 0x0504_0302);
    assert_eq!(u64le(&b, 1), 0x0908_0706_0504_0302);
    assert_eq!(copy_range(&b, 2, 4), vec![3, 4]);
    assert_eq!(ost_mcp::bytes::concat(&vec![vec![1], vec![], vec![2, 3]]), vec![1, 2, 3]);
}

#[test]
fn days_count_through_the_calendar() {
    let told = |n: i64| {
        let d = date_of(n);
        (d.year, d.month, d.day)
    };
    assert_eq!(told(0), (1970, 1, 1));
    assert_eq!(told(-1), (1969, 12, 31));
    assert_eq!(told(11_016), (2000, 2, 29));
    assert_eq!(told(11_017), (2000, 3, 1));
    assert_eq!(told(-25_508), (1900, 3, 1));
    assert_eq!(told(-719_528), (0, 1, 1));
    // Each day is followed by the next, over the centuries.
    let mut last = told(-200_000);
    for n in -199_999..200_000 {
        let next = told(n);
        assert!(last < next);
        assert!(next.2 == last.2 + 1 || next.2 == 1);
        last = next;
    }
    assert_eq!(floor_div(-7, 2), -4);
    assert_eq!(floor_rem(-7, 2), 1);
}
