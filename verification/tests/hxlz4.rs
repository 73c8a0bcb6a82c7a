use ost_mcp::mac_outlook::hxlz4::decode_exact;

#[test]
fn literals_only() {
    // token 0x50: literal count 5, match length nibble 0 (unused, no match follows).
    assert_eq!(decode_exact(&[0x50, b'h', b'e', b'l', b'l', b'o'], 5).unwrap(), b"hello");
}

#[test]
fn back_reference_repeats() {
    // 4 literals "abcd", then distance 4 (LE u16), match length 4 -> "abcdabcd".
    let src = [0x40, b'a', b'b', b'c', b'd', 0x04, 0x00];
    assert_eq!(decode_exact(&src, 8).unwrap(), b"abcdabcd");
}

#[test]
fn overlapping_copy_expands_a_run() {
    // 1 literal "x", distance 1, match length 4 -> "xxxxx".
    let src = [0x10, b'x', 0x01, 0x00];
    assert_eq!(decode_exact(&src, 5).unwrap(), b"xxxxx");
}

#[test]
fn extended_literal_length_varint() {
    // token high nibble 15 -> read a 255-continuation varint (here: 0x0A = 10,
    // so 15 + 10 = 25 literals), no match follows.
    let mut src = vec![0xF0, 0x0A];
    src.extend_from_slice(&[b'z'; 25]);
    assert_eq!(decode_exact(&src, 25).unwrap(), vec![b'z'; 25]);
}

#[test]
fn wrong_length_is_rejected() {
    assert!(decode_exact(&[0x50, b'h', b'e', b'l', b'l', b'o'], 6).is_none());
}

#[test]
fn distance_outside_window_is_rejected() {
    assert!(decode_exact(&[0x10, b'x', 0x99, 0x00], 5).is_none());
}

#[test]
fn truncated_input_is_rejected_not_panicking() {
    assert!(decode_exact(&[0xF0], 100).is_none());
    // An empty input decoding to zero expected bytes is trivially correct,
    // not truncated.
    assert_eq!(decode_exact(&[], 0), Some(Vec::new()));
    assert!(decode_exact(&[0x40, b'a', b'b'], 10).is_none());
}

#[test]
fn a_length_continues_over_several_bytes() {
    // 15 + 255 + 5 literals.
    let mut src = vec![0xF0, 0xFF, 0x05];
    src.extend_from_slice(&[b'q'; 275]);
    assert_eq!(decode_exact(&src, 275).unwrap(), vec![b'q'; 275]);
    // 1 literal, then distance 1 and a match of 4 + 15 + 255 + 1.
    let src = [0x1F, b'r', 0x01, 0x00, 0xFF, 0x01];
    assert_eq!(decode_exact(&src, 276).unwrap(), vec![b'r'; 276]);
}

#[test]
fn a_copy_is_periodic_in_its_distance() {
    // 3 literals, then distance 3 and a match of 4 + 3.
    let out = decode_exact(&[0x33, b'a', b'b', b'c', 0x03, 0x00], 10).unwrap();
    assert_eq!(out, b"abcabcabca");
    for k in 3..out.len() {
        assert_eq!(out[k], out[k - 3]);
    }
}

#[test]
fn distance_zero_is_rejected() {
    assert!(decode_exact(&[0x10, b'x', 0x00, 0x00], 5).is_none());
}

#[test]
fn literals_past_the_expected_length_are_rejected() {
    assert!(decode_exact(&[0x50, b'h', b'e', b'l', b'l', b'o'], 4).is_none());
}

#[test]
fn a_match_past_the_expected_length_is_rejected() {
    // 1 literal, then distance 1 and a match of 4: five bytes in all.
    let payload = [0x10, b'x', 0x01, 0x00];
    assert_eq!(decode_exact(&payload, 5).unwrap(), b"xxxxx");
    assert!(decode_exact(&payload, 4).is_none());
    assert!(decode_exact(&payload, 3).is_none());
    assert!(decode_exact(&payload, 6).is_none());
}

#[test]
fn sequences_behind_the_last_byte_are_rejected() {
    // Five bytes are complete after the first sequence; another one follows.
    let payload = [0x10, b'x', 0x01, 0x00, 0x20, b'y', b'z'];
    assert!(decode_exact(&payload, 5).is_none());
    assert_eq!(decode_exact(&payload, 7).unwrap(), b"xxxxxyz");
    // An empty final sequence adds nothing.
    assert_eq!(decode_exact(&[0x10, b'x', 0x01, 0x00, 0x00], 5).unwrap(), b"xxxxx");
}
