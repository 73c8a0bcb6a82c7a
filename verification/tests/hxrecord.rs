use ost_mcp::mac_outlook::classify::{
    is_binary_run, is_email, is_enum_value, is_guid, is_message_id, is_opaque, key_of,
    looks_like_person, looks_like_subject, reads_as_person, reads_as_subject, strip_reply_prefix,
    undouble,
};
use ost_mcp::mac_outlook::hxrecord::{
    deduplicate, extract, extract_with_shapes, find_html, find_send_time, text_run_end, HxMessage,
    TICK_HI, TICK_LO,
};

const ANCHOR: &str = "IPM.Note";
const EPOCH_TICKS: i64 = 621_355_968_000_000_000;

fn utf16le(s: &str) -> Vec<u8> {
    let mut v: Vec<u8> = s.encode_utf16().flat_map(u16::to_le_bytes).collect();
    v.extend_from_slice(&[0, 0]); // NUL terminator
    v
}

fn ticks(sent_unix: i64) -> [u8; 8] {
    let ticks = (sent_unix * 10_000_000) + EPOCH_TICKS;
    (ticks as u64).to_le_bytes()
}

/// A synthetic decompressed block with the common record layout: sender pair
/// before the anchor, then message-id, preview and subject pair after it.
fn synthetic_record(
    sender: &str,
    sender_name: &str,
    message_id: &str,
    preview: &str,
    subject: &str,
    sent_unix: i64,
) -> Vec<u8> {
    let mut b = Vec::new();
    b.extend(utf16le(sender));
    b.extend(utf16le(sender_name));
    b.extend(utf16le(ANCHOR));
    b.extend(utf16le(message_id));
    // .NET tick timestamp, embedded as raw bytes among the fields.
    b.extend_from_slice(&ticks(sent_unix));
    b.extend(utf16le(preview));
    b.extend(utf16le(subject));
    b.extend(utf16le(subject)); // Topic/NormalizedSubject pair
    b
}

fn chars(s: &str) -> Vec<char> {
    s.chars().collect()
}

fn text(c: &[char]) -> String {
    c.iter().collect()
}

#[test]
fn extracts_sender_subject_preview_and_time() {
    let blob = synthetic_record(
        "sender@example.com",
        "Example Sender",
        "<abc123@example.com>",
        "This is the cached preview text of the message body",
        "Quarterly update",
        1_700_000_000,
    );
    let records = extract(&blob);
    assert_eq!(records.len(), 1);
    let r = &records[0];
    assert_eq!(r.sender_address.as_deref(), Some("sender@example.com"));
    assert_eq!(r.sender_name.as_deref(), Some("Example Sender"));
    assert_eq!(r.internet_message_id.as_deref(), Some("abc123@example.com"));
    assert_eq!(r.subject.as_deref(), Some("Quarterly update"));
    assert_eq!(r.sent_unix, Some(1_700_000_000));
}

#[test]
fn ambiguous_after_anchor_sender_returns_none_rather_than_a_guess() {
    // No sender-shaped field before the anchor, and two address+name pairs after
    // it: a participant's, then the true sender's, with no signal here to tell
    // which is which.
    let mut b = Vec::new();
    b.extend(utf16le(ANCHOR));
    b.extend(utf16le("<abc123@example.com>"));
    b.extend_from_slice(&ticks(1_700_000_000));
    b.extend(utf16le("participant@example.com"));
    b.extend(utf16le("A Participant"));
    b.extend(utf16le("gap filler text that is not a name or address"));
    b.extend(utf16le("true.sender@example.com"));
    b.extend(utf16le("The True Sender"));

    let records = extract(&b);
    assert_eq!(records.len(), 1);
    assert_eq!(records[0].sender_address, None);
    assert_eq!(records[0].sender_name, None);
}

#[test]
fn extracts_multiple_records_without_bleeding_into_neighbours() {
    let mut blob = synthetic_record(
        "alice@example.com",
        "Alice Example",
        "<one@example.com>",
        "First message preview text goes here",
        "First subject",
        1_700_000_000,
    );
    blob.extend(synthetic_record(
        "bob@example.com",
        "Bob Example",
        "<two@example.com>",
        "Second message preview text goes here",
        "Second subject",
        1_700_100_000,
    ));
    let records = extract(&blob);
    assert_eq!(records.len(), 2);
    assert_eq!(records[0].sender_address.as_deref(), Some("alice@example.com"));
    assert_eq!(records[0].subject.as_deref(), Some("First subject"));
    assert_eq!(records[1].sender_address.as_deref(), Some("bob@example.com"));
    assert_eq!(records[1].subject.as_deref(), Some("Second subject"));
}

#[test]
fn no_anchor_yields_no_records() {
    let blob = utf16le("nothing to see here");
    assert!(extract(&blob).is_empty());
}

#[test]
fn extracts_html_body_bounded_by_closing_tag() {
    let mut blob = synthetic_record(
        "sender@example.com",
        "Example Sender",
        "<abc@example.com>",
        "preview text here for the record",
        "A subject line",
        1_700_000_000,
    );
    blob.extend_from_slice(b"<html><body>Hello world</body></html>");
    blob.extend(utf16le("NextFieldStub"));
    let records = extract(&blob);
    // Whichever closing tag is found first (by end position) bounds the body.
    assert_eq!(records[0].html.as_deref(), Some("<html><body>Hello world</body>"));
}

#[test]
fn deduplicate_merges_revisions_by_sender_and_time() {
    let mut a = HxMessage {
        sender_address: Some("x@example.com".into()),
        sent_unix: Some(1),
        ..Default::default()
    };
    a.subject = Some("Known subject".into());
    let mut b = HxMessage {
        sender_address: Some("x@example.com".into()),
        sent_unix: Some(1),
        ..Default::default()
    };
    b.html = Some("<html>body</html>".into());

    let merged = deduplicate(vec![a, b]);
    assert_eq!(merged.len(), 1);
    assert_eq!(merged[0].subject.as_deref(), Some("Known subject"));
    assert_eq!(merged[0].html.as_deref(), Some("<html>body</html>"));
}

#[test]
fn deduplicate_keeps_distinct_senders_and_times_separate() {
    let a = HxMessage {
        sender_address: Some("x@example.com".into()),
        sent_unix: Some(1),
        ..Default::default()
    };
    let b = HxMessage {
        sender_address: Some("y@example.com".into()),
        sent_unix: Some(2),
        ..Default::default()
    };
    assert_eq!(deduplicate(vec![a, b]).len(), 2);
}

#[test]
fn rejects_a_run_that_is_mostly_off_script() {
    assert!(is_binary_run("=꼄딂aĀ"));
    assert!(!is_binary_run("Zoé - Réseau"));
}

#[test]
fn email_and_guid_and_opaque_detection() {
    assert!(is_email("someone@example.com"));
    assert!(!is_email("not an email"));
    assert!(is_guid("550e8400-e29b-41d4-a716-446655440000"));
    assert!(is_opaque("eyJhbGciOiJIUzI1NiJ9"));
    assert!(is_opaque(&"a".repeat(24)));
}

#[test]
fn preview_is_kept_beside_the_subject() {
    let blob = synthetic_record(
        "sender@example.com",
        "Example Sender",
        "<abc123@example.com>",
        "This is the cached preview text of the message body",
        "Quarterly update",
        1_700_000_000,
    );
    let records = extract(&blob);
    assert_eq!(
        records[0].preview.as_deref(),
        Some("This is the cached preview text of the message body")
    );
    assert_eq!(records[0].html, None);
}

#[test]
fn one_pair_after_the_anchor_is_the_sender() {
    let mut b = Vec::new();
    b.extend(utf16le(ANCHOR));
    b.extend(utf16le("<abc123@example.com>"));
    b.extend(utf16le("only.sender@example.com"));
    b.extend(utf16le("Only Sender"));
    let records = extract(&b);
    assert_eq!(records.len(), 1);
    assert_eq!(records[0].sender_address.as_deref(), Some("only.sender@example.com"));
    assert_eq!(records[0].sender_name.as_deref(), Some("Only Sender"));
}

#[test]
fn shapes_tell_the_fields_apart_without_their_text() {
    let blob = synthetic_record(
        "sender@example.com",
        "Example Sender",
        "<abc123@example.com>",
        "This is the cached preview text of the message body",
        "Quarterly update",
        1_700_000_000,
    );
    let out = extract_with_shapes(&blob);
    assert_eq!(out.len(), 1);
    let shapes = &out[0].1;
    assert!(shapes.iter().any(|s| s.is_email && s.rel < 0 && s.char_len == 18));
    assert!(shapes.iter().any(|s| s.is_person_name && s.rel < 0 && s.char_len == 14));
    assert_eq!(out[0].0.subject, extract(&blob)[0].subject);
}

#[test]
fn there_is_one_record_per_class_name_and_its_shapes_rise() {
    let mut blob = Vec::new();
    for k in 0..4 {
        blob.extend(synthetic_record(
            "sender@example.com",
            "Example Sender",
            "<abc123@example.com>",
            "This is the cached preview text of the message body",
            "Quarterly update",
            1_700_000_000 + k,
        ));
    }
    // Two class names in a row, the second at an odd distance from the rest.
    blob.push(0);
    blob.extend(utf16le(ANCHOR));
    blob.extend(utf16le(ANCHOR));
    let needle = &utf16le(ANCHOR)[..16];
    let anchors = (0..blob.len() - 15).filter(|&i| &blob[i..i + 16] == needle).count();
    let shaped = extract_with_shapes(&blob);
    let plain = extract(&blob);
    assert_eq!(anchors, 6);
    assert_eq!(shaped.len(), anchors);
    assert_eq!(plain.len(), anchors);
    for ((m, shapes), p) in shaped.iter().zip(&plain) {
        assert_eq!(m.sender_address, p.sender_address);
        assert_eq!(m.sent_unix, p.sent_unix);
        assert_eq!(m.preview, p.preview);
        assert!(shapes.windows(2).all(|w| w[0].rel < w[1].rel));
        assert!(shapes.iter().all(|s| (-352..0).contains(&s.rel) || s.rel >= 16));
    }
}

#[test]
fn send_time_is_the_earliest_tick_count_in_range() {
    let mut span = vec![0u8; 5];
    span.extend_from_slice(&ticks(1_700_000_001));
    span.extend_from_slice(&ticks(1_700_000_000));
    span.extend_from_slice(&ticks(1_700_000_002));
    assert_eq!(find_send_time(&span), Some(1_700_000_000));
    assert_eq!(find_send_time(&[0u8; 64]), None);
    assert_eq!(find_send_time(&TICK_LO.to_le_bytes()[..7]), None);
}

#[test]
fn send_time_lies_between_its_bounds() {
    let lo = (TICK_LO as i64 - EPOCH_TICKS) / 10_000_000;
    let hi = (TICK_HI as i64 - EPOCH_TICKS) / 10_000_000;
    assert_eq!(find_send_time(&(TICK_LO - 1).to_le_bytes()), None);
    assert_eq!(find_send_time(&TICK_HI.to_le_bytes()), None);
    for t in [TICK_LO, TICK_LO + 12_345_678_901] {
        let secs = find_send_time(&t.to_le_bytes()).unwrap();
        assert!(lo <= secs && secs <= hi);
    }
}

#[test]
fn html_without_closing_tag_ends_where_the_text_does() {
    let mut region = b"zz<html>".to_vec();
    region.extend_from_slice(&[b'a'; 58]);
    region.extend_from_slice(&[0u8; 40]);
    // Two windows of 32 bytes read as text, the third does not.
    assert_eq!(find_html(&region), Some(format!("<html>{}", "a".repeat(58))));
    assert_eq!(find_html(b"no markup"), None);
    assert_eq!(text_run_end(b"short"), 5);
    assert_eq!(text_run_end(&[0u8; 40]), 0);
}

#[test]
fn html_that_is_not_utf8_is_read_with_replacements() {
    assert_eq!(find_html(b"<div>\xff</body>"), Some("<div>\u{fffd}</body>".to_string()));
}

#[test]
fn undouble_undoes_doubling() {
    let t = chars("Quarterly update");
    let mut doubled = t.clone();
    doubled.extend(t.iter());
    assert_eq!(undouble(&doubled), t);
    assert_eq!(text(&undouble(&chars("abc"))), "abc");
}

#[test]
fn words_are_told_from_names_and_subjects() {
    assert!(looks_like_person(&chars("Example Sender")));
    assert!(looks_like_person(&chars("Élodie Ünal")));
    assert!(!looks_like_person(&chars("sender@example.com")));
    assert!(looks_like_subject(&chars("Quarterly update")));
    assert!(!looks_like_subject(&chars("550e8400-e29b-41d4-a716-446655440000")));
    // Nothing is a name or a subject without letters.
    assert!(!reads_as_person(&chars("Example Sender"), 0));
    assert!(!reads_as_subject(&chars("Quarterly update"), 0));
    assert!(!looks_like_subject(&chars("2023-11-14 22:13:20")));
}

#[test]
fn identifiers_are_recognised() {
    assert!(is_message_id(&chars("<abc@example.com>")));
    assert!(!is_message_id(&chars("abc@example.com")));
    assert!(!is_enum_value(&chars("Quarterly update")));
}

#[test]
fn reply_prefixes_are_stripped_for_comparison() {
    assert_eq!(text(strip_reply_prefix(&chars("RE: Fwd: hello"))), "hello");
    assert_eq!(text(strip_reply_prefix(&chars("regarding hello"))), "regarding hello");
    assert_eq!(key_of(&chars("Re: Hello")), chars("Hello"));
    assert_eq!(key_of(&chars(&"ab".repeat(30))), chars(&"ab".repeat(20)));
}

fn message(sender: &str, sent: i64, subject: Option<&str>) -> HxMessage {
    HxMessage {
        sender_address: Some(sender.to_string()),
        sent_unix: Some(sent),
        subject: subject.map(|s| s.to_string()),
        ..Default::default()
    }
}

#[test]
fn deduplicate_keeps_the_first_value_of_each_field() {
    let out = deduplicate(vec![
        message("x@example.com", 1, None),
        message("y@example.com", 1, Some("Other")),
        message("x@example.com", 1, Some("First known")),
        message("x@example.com", 1, Some("Later")),
    ]);
    assert_eq!(out.len(), 2);
    assert_eq!(out[0].sender_address.as_deref(), Some("x@example.com"));
    assert_eq!(out[0].subject.as_deref(), Some("First known"));
    assert_eq!(out[1].subject.as_deref(), Some("Other"));
}

#[test]
fn deduplicating_twice_changes_nothing() {
    let records = vec![
        message("x@example.com", 1, None),
        message("x@example.com", 2, Some("Two")),
        message("x@example.com", 1, Some("One")),
    ];
    let once = deduplicate(records);
    let subjects: Vec<Option<String>> = once.iter().map(|m| m.subject.clone()).collect();
    let twice = deduplicate(once);
    assert_eq!(twice.iter().map(|m| m.subject.clone()).collect::<Vec<_>>(), subjects);
    assert_eq!(subjects, vec![Some("One".to_string()), Some("Two".to_string())]);
}
