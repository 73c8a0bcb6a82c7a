use ost_mcp::ost::props::{
    clean_subject, decode_string, entryid_address, filetime_to_unix_us, format_time_us, utf16le,
    PT_STRING8, PT_UNICODE,
};

const MUID_OOP: [u8; 16] = [
    0x81, 0x2B, 0x1F, 0xA4, 0xBE, 0xA3, 0x10, 0x19, 0x9D, 0x6E, 0x00, 0xDD, 0x01, 0x0F, 0x54, 0x02,
];

#[test]
fn filetime_epoch_boundary() {
    // 1970-01-01T00:00:00Z expressed as FILETIME.
    assert_eq!(filetime_to_unix_us(116_444_736_000_000_000), Some(0));
    assert_eq!(filetime_to_unix_us(0), None);
}

#[test]
fn formats_a_known_instant() {
    assert_eq!(format_time_us(0), "1970-01-01 00:00:00");
    assert_eq!(format_time_us(1_700_000_000_000_000), "2023-11-14 22:13:20");
}

/// A One-Off EntryID as it appears in a contents table row.
fn one_off(name: &str, kind: &str, addr: &str) -> Vec<u8> {
    let mut b = vec![0u8; 4];
    b.extend_from_slice(&MUID_OOP);
    b.extend_from_slice(&0u16.to_le_bytes());
    b.extend_from_slice(&0x8000u16.to_le_bytes());
    for s in [name, kind, addr] {
        b.extend(s.encode_utf16().flat_map(|u| u.to_le_bytes()));
        b.extend_from_slice(&[0, 0]);
    }
    b
}

#[test]
fn reads_a_one_off_entryid() {
    assert_eq!(
        entryid_address(&one_off("Example Sender", "SMTP", "sender@example.com")),
        Some((
            Some("Example Sender".to_string()),
            Some("sender@example.com".to_string())
        ))
    );
    // A non-SMTP address type yields the name only, never a bogus address.
    assert_eq!(
        entryid_address(&one_off("Fax Gateway", "FAX", "+1 555 0100")),
        Some((Some("Fax Gateway".to_string()), None))
    );
    // An Exchange EntryID has a different provider UID and no name in it.
    let mut ab = one_off("x", "SMTP", "x@y.z");
    ab[4] = 0xDC;
    assert_eq!(entryid_address(&ab), None);
    assert_eq!(entryid_address(&[0; 8]), None);
}

#[test]
fn strips_subject_prefix_escape() {
    assert_eq!(clean_subject("\u{1}\u{4}RE: hello"), "RE: hello");
    assert_eq!(clean_subject("plain"), "plain");
}

#[test]
fn reads_an_eight_bit_entryid() {
    let mut b = vec![0u8; 4];
    b.extend_from_slice(&MUID_OOP);
    b.extend_from_slice(&[0, 0, 0, 0]);
    b.extend_from_slice(b"Name\0smtp\0a@example.com\0");
    assert_eq!(
        entryid_address(&b),
        Some((Some("Name".to_string()), Some("a@example.com".to_string())))
    );
}

#[test]
fn times_before_and_after_the_epoch_format_alike() {
    assert_eq!(format_time_us(-1), "1969-12-31 23:59:59");
    assert_eq!(format_time_us(-86_400_000_000), "1969-12-31 00:00:00");
    assert_eq!(format_time_us(951_782_400_000_000), "2000-02-29 00:00:00");
    assert_eq!(format_time_us(4_107_542_400_000_000), "2100-03-01 00:00:00");
    assert_eq!(format_time_us(-62_135_596_800_000_000), "0001-01-01 00:00:00");
    assert_eq!(format_time_us(-62_324_985_600_000_000), "-005-01-01 00:00:00");
    assert_eq!(format_time_us(i64::MIN), "-290308-12-21 19:59:05");
    assert_eq!(format_time_us(i64::MAX), "294247-01-10 04:00:54");
}

#[test]
fn filetimes_before_the_epoch_are_negative() {
    assert_eq!(filetime_to_unix_us(116_444_735_999_999_990), Some(-1));
    assert_eq!(filetime_to_unix_us(133_444_736_000_000_000), Some(1_700_000_000_000_000));
}

#[test]
fn strings_are_decoded_by_their_type() {
    assert_eq!(decode_string(PT_STRING8, b"plain"), "plain");
    assert_eq!(decode_string(PT_STRING8, b"\xe9"), "\u{fffd}");
    assert_eq!(decode_string(PT_UNICODE, &[0x4f, 0, 0xe9, 0]), "O\u{e9}");
    assert_eq!(utf16le(&[0x3d, 0xd8, 0x00, 0xde]), "\u{1f600}");
    assert_eq!(utf16le(&[0x00, 0xd8, 0x41, 0x00, 0x42]), "\u{fffd}A");
}

#[test]
fn a_subject_may_be_all_prefix() {
    assert_eq!(clean_subject("\u{1}"), "");
    assert_eq!(clean_subject(""), "");
    assert_eq!(clean_subject("\u{1}\u{9}"), "");
}

#[test]
fn times_sort_as_their_texts_do() {
    let times: [i64; 11] = [
        -62_167_219_200_000_000,
        -62_135_596_800_000_001,
        -62_135_596_800_000_000,
        -1,
        0,
        999_999,
        1_000_000,
        951_782_400_000_000,
        951_868_800_000_000,
        1_700_000_000_000_000,
        253_402_300_799_999_999,
    ];
    for w in times.windows(2) {
        let (a, b) = (format_time_us(w[0]), format_time_us(w[1]));
        assert_eq!((a.len(), b.len()), (19, 19));
        assert!(a <= b);
        assert_eq!(a == b, w[0].div_euclid(1_000_000) == w[1].div_euclid(1_000_000));
    }
    assert_eq!(format_time_us(times[0]), "0000-01-01 00:00:00");
    assert_eq!(format_time_us(times[10]), "9999-12-31 23:59:59");
}
