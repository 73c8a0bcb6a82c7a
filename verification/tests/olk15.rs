use ost_mcp::mac_outlook::olk15::{
    attachment_metadata, looks_like_message, parse_attachment, parse_message, parse_source, BodyKind,
    ATTACHMENT_MAGIC, MESSAGE_MAGIC,
};
use ost_mcp::mailbox::Error;

fn message_fixture(body: &[u8]) -> Vec<u8> {
    let mut f = Vec::new();
    f.extend_from_slice(&MESSAGE_MAGIC);
    f.extend_from_slice(&[0u8; 16]); // UUID, contents irrelevant here
    f.extend_from_slice(body);
    f
}

#[test]
fn extracts_ascii_html_body() {
    let f = message_fixture(b"garbage<html><body>Hello from example.com</body></html>trailing junk");
    let m = parse_message(&f).expect("body found");
    assert_eq!(m.kind, BodyKind::Html);
    assert_eq!(m.text, "<html><body>Hello from example.com</body></html>");
}

#[test]
fn extracts_utf16_html_body() {
    let html = "<html><body>Ol\u{e1} from example.com</body></html>";
    let utf16_bytes: Vec<u8> = html.encode_utf16().flat_map(|u| u.to_le_bytes()).collect();
    let f = message_fixture(&utf16_bytes);
    let m = parse_message(&f).expect("body found");
    assert_eq!(m.kind, BodyKind::Html);
    assert_eq!(m.text, html);
}

#[test]
fn extracts_calendar_body() {
    let f = message_fixture(b"BEGIN:VCALENDAR\r\nSUMMARY:Sync\r\nEND:VCALENDAR\r\ntrailing");
    let m = parse_message(&f).expect("body found");
    assert_eq!(m.kind, BodyKind::Calendar);
    assert!(m.text.starts_with("BEGIN:VCALENDAR"));
    assert!(m.text.ends_with("END:VCALENDAR"));
}

#[test]
fn truncates_message_card_metadata() {
    let f = message_fixture(
        b"<html>hi</html>{\"MessageCardSerialized\":{\"junk\":1}}",
    );
    let m = parse_message(&f).expect("body found");
    // </html> is found first by the closing-tag rule, so the metadata
    // marker never needs to bite here; this asserts it doesn't leak in.
    assert!(!m.text.contains("MessageCardSerialized"));
}

#[test]
fn html_close_tag_search_does_not_panic_on_byte_length_changing_case_fold() {
    // U+212A KELVIN SIGN is 3 bytes in UTF-8 and folds to ASCII 'k' (1 byte), so an
    // offset into a lowercased copy is no offset into the text.
    let body = "<html>K\u{212A}elvin sign</html>".to_string();
    let f = message_fixture(body.as_bytes());
    let m = parse_message(&f).expect("body found");
    assert_eq!(m.kind, BodyKind::Html);
    assert!(m.text.ends_with("</html>"));
}

#[test]
fn no_marker_returns_none() {
    let f = message_fixture(b"no markers in here at all");
    assert!(parse_message(&f).is_none());
}

#[test]
fn strips_source_binary_prefix() {
    let raw = b"\x01\x02\x03junkFrom: sender@example.com\r\nSubject: Hi\r\n\r\nBody";
    let mime = parse_source(raw).expect("marker found");
    assert!(mime.starts_with(b"From: sender@example.com"));
}

#[test]
fn source_with_no_marker_is_none() {
    assert!(parse_source(b"\x01\x02\x03 nothing mime-shaped here").is_none());
}

fn attachment_fixture(headers: &str, payload_b64: &str) -> Vec<u8> {
    let mut f = Vec::new();
    f.extend_from_slice(&ATTACHMENT_MAGIC);
    f.extend_from_slice(&[0u8; 12]);
    f.extend_from_slice(&[0u8; 16]); // GUID
    f.extend_from_slice(headers.as_bytes());
    f.extend_from_slice(b"\r\r");
    f.extend_from_slice(payload_b64.as_bytes());
    f
}

/// Minimal base64 encoder for the fixture only; the payload length is
/// kept a multiple of 3 so no padding logic is needed.
fn encode_base64(payload: &[u8]) -> String {
    const A: &[u8] = b"ABCDEFGHIJKLMNOPQRSTUVWXYZabcdefghijklmnopqrstuvwxyz0123456789+/";
    assert_eq!(payload.len() % 3, 0);
    let mut s = String::new();
    for chunk in payload.chunks(3) {
        let n = ((chunk[0] as u32) << 16) | ((chunk[1] as u32) << 8) | chunk[2] as u32;
        for shift in [18, 12, 6, 0] {
            s.push(A[((n >> shift) & 0x3f) as usize] as char);
        }
    }
    s
}

#[test]
fn decodes_attachment_payload_and_filename() {
    let payload = b"hello world!"; // 12 bytes, multiple of 3
    let b64 = encode_base64(payload);
    let headers = "Content-type: application/pdf; name=\"invoice.pdf\";\r\nContent-Transfer-Encoding: base64";
    let f = attachment_fixture(headers, &b64);
    let a = parse_attachment(&f).expect("parses");
    assert_eq!(a.filename.as_deref(), Some("invoice.pdf"));
    assert_eq!(a.content_type.as_deref(), Some("application/pdf"));
    assert_eq!(a.bytes, payload);
}

#[test]
fn rejects_wrong_magic() {
    let f = b"NOPE0000".to_vec();
    assert!(parse_attachment(&f).is_err());
}

#[test]
fn header_value_search_does_not_panic_on_byte_length_changing_case_fold() {
    // The same U+212A hazard, this time in the header text of an attachment.
    let payload = b"hello world!";
    let headers = "X-Junk: \u{212A}\r\nContent-type: text/plain; name=\"a.txt\"".to_string();
    let f = attachment_fixture(&headers, &encode_base64(payload));
    let a = parse_attachment(&f).expect("parses");
    assert_eq!(a.filename.as_deref(), Some("a.txt"));
    assert_eq!(a.content_type.as_deref(), Some("text/plain"));
}

#[test]
fn rtf_body_runs_to_the_control_bytes() {
    let f = message_fixture(b"xx{\\rtf1 hello}  \x01\x02\x03rest");
    let m = parse_message(&f).unwrap();
    assert_eq!(m.kind, BodyKind::Rtf);
    assert_eq!(m.text, "{\\rtf1 hello}");
}

#[test]
fn two_control_bytes_are_part_of_the_text() {
    let f = message_fixture(b"{\\rtf1 a\x01\x02b}");
    assert_eq!(parse_message(&f).unwrap().text, "{\\rtf1 a\u{1}\u{2}b}");
}

#[test]
fn body_closing_tag_bounds_html_without_html_closing_tag() {
    let f = message_fixture(b"<HTML><BODY>x</BODY> more");
    assert_eq!(parse_message(&f).unwrap().text, "<HTML><BODY>x</BODY>");
}

#[test]
fn embedded_xml_ends_the_body() {
    let f = message_fixture(b"<html>hi <?xml version=\"1.0\" encoding=\"utf-16\"?></html>");
    assert_eq!(parse_message(&f).unwrap().text, "<html>hi");
}

#[test]
fn the_earliest_marker_decides_the_kind() {
    let f = message_fixture(b"BEGIN:VCALENDAR <html></html>");
    assert_eq!(parse_message(&f).unwrap().kind, BodyKind::Calendar);
    let f = message_fixture(b"<html>{\\rtf</html>");
    assert_eq!(parse_message(&f).unwrap().kind, BodyKind::Html);
}

#[test]
fn invalid_utf8_in_a_body_is_replaced() {
    let f = message_fixture(b"<html>\xff</html>");
    assert_eq!(parse_message(&f).unwrap().text, "<html>\u{fffd}</html>");
}

#[test]
fn message_magic_is_looked_for_separately() {
    assert!(looks_like_message(&message_fixture(b"")));
    assert!(!looks_like_message(b"NOPE0000"));
}

#[test]
fn source_starts_at_the_earliest_header() {
    let raw = b"xxSubject: a\r\nFrom: b";
    assert_eq!(parse_source(raw).unwrap(), b"Subject: a\r\nFrom: b");
}

#[test]
fn attachment_errors_say_what_is_missing() {
    match parse_attachment(b"NOPE0000") {
        Err(Error::Format(e)) => assert_eq!(e, "olk15MsgAttachment: missing d00d magic"),
        _ => panic!("wrong magic"),
    }
    let mut f = ATTACHMENT_MAGIC.to_vec();
    f.extend_from_slice(b"Content-type: a/b");
    match attachment_metadata(&f) {
        Err(Error::Format(e)) => {
            assert_eq!(e, "olk15MsgAttachment: no \\r\\r header terminator")
        }
        _ => panic!("no terminator"),
    }
    match parse_attachment(&attachment_fixture("", "A")) {
        Err(Error::Format(e)) => assert_eq!(e, "olk15MsgAttachment: invalid base64"),
        _ => panic!("bad base64"),
    }
}

#[test]
fn metadata_needs_no_valid_payload() {
    let f = attachment_fixture("content-TYPE: a/b ;NAME=plain.txt\r\n", "A");
    let (name, mime) = attachment_metadata(&f).unwrap();
    assert_eq!(name.as_deref(), Some("plain.txt"));
    assert_eq!(mime.as_deref(), Some("a/b"));
    let (name, mime) = attachment_metadata(&attachment_fixture("x", "")).unwrap();
    assert_eq!((name, mime), (None, None));
}

#[test]
fn padding_of_a_payload_is_optional() {
    for b64 in ["aGk=", "aGk", "aG\r\nk=", "aGk=\x00\x01"] {
        assert_eq!(parse_attachment(&attachment_fixture("x", b64)).unwrap().bytes, b"hi");
    }
    assert_eq!(parse_attachment(&attachment_fixture("x", "")).unwrap().bytes, b"");
    // Bits that no byte holds are refused.
    assert!(parse_attachment(&attachment_fixture("x", "aGl=")).is_err());
}
