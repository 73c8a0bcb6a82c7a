use ost_mcp::mac_outlook::discover::{data_dirs, primary};
use ost_mcp::mac_outlook::hxrecord::HxMessage;
use ost_mcp::mac_outlook::hxstore::{crc32, BLOCK_HEADER_LEN, FILE_MAGIC};
use ost_mcp::mac_outlook::olk15::{ATTACHMENT_MAGIC, MESSAGE_MAGIC};
use ost_mcp::mac_outlook::profile::{
    attachment_bytes, attachment_entry, attachment_file, attachment_payload, attachments,
    check_parts, classic_message,
    data_file_parts, data_file_path, hx_cache, hx_message, hx_message_row, hx_rows, is_hx_folder,
    is_hx_message, percent_decode, profile_folders, HxCache, PathPart, HX_FOLDER_ID, HX_ID_BASE,
};
use ost_mcp::mac_outlook::schema::{LinkedBlock, RawMail};
use ost_mcp::mailbox::{Attachment, Error, MessageRow};

#[test]
fn percent_decode_handles_spaces_and_plain_text() {
    assert_eq!(
        percent_decode("Message%20Attachments/35/x.olk15MsgAttachment"),
        "Message Attachments/35/x.olk15MsgAttachment"
    );
    assert_eq!(percent_decode("Categories/1/a.olk15Category"), "Categories/1/a.olk15Category");
}

#[test]
fn read_data_file_rejects_parent_dir_traversal() {
    let err = data_file_path("../mac-outlook-test-secret.txt").unwrap_err();
    assert!(matches!(err, Error::Format(_)));
}

#[test]
fn read_data_file_rejects_absolute_path() {
    let err = data_file_path("/etc/passwd").unwrap_err();
    assert!(matches!(err, Error::Format(_)));
}

#[test]
fn read_data_file_allows_a_normal_relative_path() {
    let path = data_file_path("Categories/1/a.olk15Category").unwrap();
    assert_eq!(path, "Categories/1/a.olk15Category");
}

#[test]
fn percent_escapes_are_read_byte_by_byte() {
    assert_eq!(percent_decode("%41%62"), "Ab");
    assert_eq!(percent_decode("caf%C3%A9"), "caf\u{e9}");
    assert_eq!(percent_decode("%FF"), "\u{fffd}");
    assert_eq!(percent_decode("100%"), "100%");
    assert_eq!(percent_decode("%4"), "%4");
    assert_eq!(percent_decode("%zz%20"), "%zz ");
    assert_eq!(percent_decode("%2520"), "%20");
    assert_eq!(percent_decode("%+a"), "\n");
}

#[test]
fn escaped_traversal_is_refused_and_named_as_it_was_written() {
    match data_file_path("%2e%2e/secret") {
        Err(Error::Format(e)) => assert_eq!(
            e,
            "refusing to read outside the profile data directory: \"%2e%2e/secret\""
        ),
        _ => panic!("allowed"),
    }
    assert!(data_file_path("a/../b").is_err());
    assert!(data_file_path("%2fetc/passwd").is_err());
    assert!(data_file_path("a/..").is_err());
}

#[test]
fn traversal_is_refused_whatever_else_stands_in_the_path() {
    for path in ["../a:b", "/a:b", "a:b/../c", "/a\\b", "x\\y/../z", "%2e%2e/a%3Ab"] {
        assert!(data_file_path(path).is_err(), "{path}");
    }
}

#[test]
fn a_data_file_value_is_decoded_and_then_divided() {
    let (path, parts) = data_file_parts("Message%20Sources/../x");
    assert_eq!(path, "Message Sources/../x");
    assert!(matches!(parts[..], [PathPart::Normal, PathPart::ParentDir, PathPart::Normal]));
    let (_, parts) = data_file_parts("%2Fetc");
    assert!(matches!(parts[..], [PathPart::RootDir, PathPart::Normal]));
    assert!(data_file_parts("").1.is_empty());
}

#[test]
fn names_that_only_look_like_traversal_are_allowed() {
    for path in ["a/..b", "...", "a/b../c", ".a", "a/./b", "a//b/", ""] {
        assert_eq!(data_file_path(path).unwrap(), path);
    }
}

#[test]
fn only_names_stay_inside() {
    assert!(check_parts("p", &vec![PathPart::Normal, PathPart::Normal]).is_ok());
    assert!(check_parts("p", &vec![]).is_ok());
    for bad in [PathPart::Prefix, PathPart::RootDir, PathPart::ParentDir, PathPart::CurDir] {
        assert!(check_parts("p", &vec![PathPart::Normal, bad]).is_err());
    }
    for path in [".", "./", "./a", "%2e/a", "./a:b"] {
        assert!(data_file_path(path).is_err(), "{path}");
    }
}

// ---- the recovered messages ----

fn utf16le(s: &str) -> Vec<u8> {
    let mut v: Vec<u8> = s.encode_utf16().flat_map(u16::to_le_bytes).collect();
    v.extend_from_slice(&[0, 0]);
    v
}

fn record(sender: &str, name: &str, sent: i64) -> Vec<u8> {
    let mut b = utf16le(sender);
    b.extend(utf16le(name));
    b.extend(utf16le("IPM.Note"));
    b.extend(utf16le("<id@example.com>"));
    b.extend_from_slice(&((sent * 10_000_000 + 621_355_968_000_000_000) as u64).to_le_bytes());
    b.extend(utf16le("a preview of the message"));
    b
}

/// An LZ4 stream of literals alone.
fn literals(data: &[u8]) -> Vec<u8> {
    let mut out = Vec::new();
    assert!(data.len() >= 15);
    out.push(0xF0);
    let mut rest = data.len() - 15;
    while rest >= 255 {
        out.push(255);
        rest -= 255;
    }
    out.push(rest as u8);
    out.extend_from_slice(data);
    out
}

fn block(data: &[u8]) -> Vec<u8> {
    let compressed = literals(data);
    let mut b = vec![0u8; BLOCK_HEADER_LEN];
    b[0x08..0x10].copy_from_slice(&0x5d02_4564_3b70_6a05u64.to_le_bytes());
    b[0x14..0x18].copy_from_slice(&(compressed.len() as u32).to_le_bytes());
    b[0x18..0x1c].copy_from_slice(&(data.len() as u32).to_le_bytes());
    b.extend_from_slice(&compressed);
    let body = crc32(&b[8..]);
    b[0x04..0x08].copy_from_slice(&body.to_le_bytes());
    let head = crc32(&b[4..0x20]);
    b[0x00..0x04].copy_from_slice(&head.to_le_bytes());
    b
}

fn store(records: &[Vec<u8>]) -> Vec<u8> {
    let mut f = vec![0u8; 0x40];
    f[..8].copy_from_slice(&FILE_MAGIC);
    f[8] = b'i';
    for r in records {
        f.extend(block(r));
    }
    f
}

#[test]
fn recovered_messages_are_newest_first_with_distinct_ids() {
    let data = store(&[
        record("old@example.com", "Old Sender", 1_600_000_000),
        record("new@example.com", "New Sender", 1_700_000_000),
        record("mid@example.com", "Mid Sender", 1_650_000_000),
        record("old@example.com", "Old Sender", 1_600_000_000),
    ]);
    let cache = hx_cache(&data);
    let got: Vec<(i64, Option<&str>)> =
        cache.iter().map(|(id, m)| (*id, m.sender_address.as_deref())).collect();
    assert_eq!(
        got,
        vec![
            (HX_ID_BASE, Some("new@example.com")),
            (HX_ID_BASE - 1, Some("mid@example.com")),
            (HX_ID_BASE - 2, Some("old@example.com")),
        ]
    );
    assert!(cache.windows(2).all(|w| w[0].1.sent_unix >= w[1].1.sent_unix));
}

#[test]
fn no_two_recovered_messages_share_sender_and_time() {
    let data = store(&[
        record("a@example.com", "First Person", 1_600_000_000),
        record("b@example.com", "Second Person", 1_600_000_000),
        record("a@example.com", "First Person", 1_600_000_001),
        record("b@example.com", "Second Person", 1_600_000_000),
        record("a@example.com", "First Person", 1_600_000_000),
    ]);
    let cache = hx_cache(&data);
    assert_eq!(cache.len(), 3);
    for i in 0..cache.len() {
        for j in 0..i {
            let (a, b) = (&cache[i].1, &cache[j].1);
            assert!(a.sender_address != b.sender_address || a.sent_unix != b.sent_unix);
        }
    }
}

#[test]
fn recovered_messages_are_read_once() {
    let first = store(&[record("a@example.com", "First Person", 1_600_000_000)]);
    let second = store(&[record("b@example.com", "Second Person", 1_700_000_000)]);
    let mut cache = HxCache::new();
    assert!(cache.messages().is_none());
    cache.fill(Some(&first));
    for later in [Some(&second[..]), None, Some(&[][..])] {
        cache.fill(later);
        let held = cache.messages().unwrap();
        assert_eq!(held.len(), 1);
        assert_eq!(held[0].1.sender_address.as_deref(), Some("a@example.com"));
    }
    let mut absent = HxCache::new();
    absent.fill(None);
    absent.fill(Some(&second));
    assert!(absent.messages().unwrap().is_empty());
}

#[test]
fn a_file_without_the_header_recovers_nothing() {
    let mut data = store(&[record("a@example.com", "A Person", 1_600_000_000)]);
    assert_eq!(hx_cache(&data).len(), 1);
    data[0] ^= 1;
    assert!(hx_cache(&data).is_empty());
    assert!(hx_cache(&[]).is_empty());
}

#[test]
fn a_listed_message_opens_under_its_id() {
    let data = store(&[
        record("old@example.com", "Old Sender", 1_600_000_000),
        record("new@example.com", "New Sender", 1_700_000_000),
    ]);
    let cache = hx_cache(&data);
    for row in hx_rows(&cache) {
        let m = hx_message(&cache, row.id).unwrap();
        assert_eq!(m.id, row.id);
        assert_eq!(m.sender_email, row.sender_email);
        assert_eq!(m.sender_name, row.sender_name);
        assert_eq!(m.delivered_us, row.delivered_us);
    }
}

fn hx(sent: Option<i64>, html: Option<&str>) -> HxMessage {
    HxMessage {
        sender_address: Some("a@example.com".to_string()),
        sender_name: Some("A Person".to_string()),
        internet_message_id: Some("id@example.com".to_string()),
        subject: Some("Subject".to_string()),
        preview: Some("preview".to_string()),
        html: html.map(|h| h.to_string()),
        sent_unix: sent,
    }
}

#[test]
fn recovered_mail_is_one_folder_that_appears_only_when_it_holds_something() {
    assert!(profile_folders(vec![], &vec![]).is_empty());
    let cache = vec![(HX_ID_BASE, hx(Some(1), None)), (HX_ID_BASE - 1, hx(None, None))];
    let list = profile_folders(vec![], &cache);
    assert_eq!(list.len(), 1);
    assert_eq!(list[0].id, HX_FOLDER_ID);
    assert_eq!(list[0].name.as_deref(), Some("Recovered Mail (Hx cache)"));
    assert_eq!(list[0].path, "/Recovered Mail (Hx cache)");
    assert_eq!(list[0].item_count, Some(2));
    assert_eq!(list[0].unread_count, None);
    let rows = hx_rows(&cache);
    assert!(rows.iter().all(|r| r.folder_id == HX_FOLDER_ID));
    assert_eq!(rows[0].delivered_us, Some(1_000_000));
    assert_eq!(rows[1].delivered_us, None);
}

#[test]
fn a_recovered_row_knows_what_the_record_knew() {
    let row = hx_message_row(-1_000_005, &hx(Some(1_700_000_000), None));
    assert_eq!(row.id, -1_000_005);
    assert_eq!(row.subject.as_deref(), Some("Subject"));
    assert_eq!(row.sender_email.as_deref(), Some("a@example.com"));
    assert_eq!(row.submitted_us, Some(1_700_000_000_000_000));
    assert_eq!(row.modified_us, None);
    assert_eq!(row.unread, None);
    assert_eq!(row.message_class.as_deref(), Some("IPM.Note"));
}

#[test]
fn the_preview_is_a_body_only_without_html() {
    let cache = vec![(HX_ID_BASE, hx(Some(1), None)), (HX_ID_BASE - 1, hx(Some(2), Some("<p>x</p>")))];
    let m = hx_message(&cache, HX_ID_BASE).unwrap();
    assert_eq!(m.body_plain.as_deref(), Some("preview"));
    assert_eq!(m.body_html, None);
    assert!(m.attachments.is_empty());
    let m = hx_message(&cache, HX_ID_BASE - 1).unwrap();
    assert_eq!(m.body_plain, None);
    assert_eq!(m.body_html.as_deref(), Some("<p>x</p>"));
    assert_eq!(m.submitted_us, Some(2_000_000));
    assert_eq!(
        hx_message(&cache, -1_000_002).unwrap_err().display(),
        "not found: no Hx-cached message with id -1000002"
    );
}

#[test]
fn synthetic_ids_are_told_from_record_ids() {
    assert!(is_hx_message(HX_ID_BASE));
    assert!(is_hx_message(HX_ID_BASE - 7));
    assert!(!is_hx_message(HX_ID_BASE + 1));
    assert!(!is_hx_message(10));
    assert!(is_hx_folder(-1));
    assert!(!is_hx_folder(1));
}

// ---- messages of the database ----

fn mail() -> RawMail {
    RawMail {
        row: MessageRow {
            id: 10,
            folder_id: 2,
            subject: Some("Subject".to_string()),
            sender_name: None,
            sender_email: None,
            delivered_us: Some(5),
            submitted_us: None,
            modified_us: None,
            size: Some(1),
            unread: Some(true),
            has_attachments: Some(false),
            message_class: None,
        },
        path_to_data_file: Some("x".to_string()),
        conversation_topic: Some("Topic".to_string()),
    }
}

fn data_file(body: &[u8]) -> Vec<u8> {
    let mut f = MESSAGE_MAGIC.to_vec();
    f.extend_from_slice(&[0; 16]);
    f.extend_from_slice(body);
    f
}

#[test]
fn the_kind_of_a_body_decides_where_it_goes() {
    let m = classic_message(mail(), Some(data_file(b"<html>x</html>")), vec![]);
    assert_eq!(m.body_html.as_deref(), Some("<html>x</html>"));
    assert_eq!((m.body_plain, m.body_rtf), (None, None));
    let m = classic_message(mail(), Some(data_file(b"{\\rtf1 x}")), vec![]);
    assert_eq!(m.body_rtf.as_deref(), Some("{\\rtf1 x}"));
    let m = classic_message(mail(), Some(data_file(b"BEGIN:VCALENDAR")), vec![]);
    assert_eq!(m.body_plain.as_deref(), Some("BEGIN:VCALENDAR"));
    let m = classic_message(mail(), None, vec![]);
    assert_eq!((m.body_plain, m.body_html, m.body_rtf), (None, None, None));
    assert_eq!(m.id, 10);
    assert_eq!(m.delivered_us, Some(5));
    assert_eq!(m.conversation_topic.as_deref(), Some("Topic"));
    assert_eq!(m.display_to, None);
    assert!(m.recipients.is_empty());
}

fn attachment_data() -> Vec<u8> {
    let mut f = ATTACHMENT_MAGIC.to_vec();
    f.extend_from_slice(b"Content-type: text/plain; name=\"a.txt\"\r\raGk=");
    f
}

fn linked(id: i64) -> LinkedBlock {
    LinkedBlock { id, path_to_data_file: format!("Message Attachments/{id}") }
}

#[test]
fn attachments_are_listed_with_what_their_file_says() {
    let a: Attachment = attachment_entry(&linked(4), Some(attachment_data()));
    assert_eq!(a.id, 4);
    assert_eq!(a.filename.as_deref(), Some("a.txt"));
    assert_eq!(a.mime.as_deref(), Some("text/plain"));
    assert_eq!((a.content_id, a.declared_size, a.data_len), (None, None, None));
    let a = attachment_entry(&linked(4), None);
    assert_eq!((a.filename, a.mime), (None, None));
    let a = attachment_entry(&linked(4), Some(b"junk".to_vec()));
    assert_eq!((a.filename, a.mime), (None, None));
    let m = classic_message(mail(), None, vec![attachment_entry(&linked(4), None)]);
    assert_eq!(m.attachments.len(), 1);
}

#[test]
fn attachment_bytes_come_from_the_linked_file() {
    let blocks = vec![linked(4), linked(5)];
    assert_eq!(attachment_file(&blocks, 10, 5).unwrap(), "Message Attachments/5");
    assert_eq!(
        attachment_file(&blocks, 10, 6).unwrap_err().display(),
        "not found: attachment 6 is not linked to message 10"
    );
    assert_eq!(attachment_payload(&attachment_data()).unwrap(), b"hi");
    assert!(matches!(attachment_payload(b"junk"), Err(Error::Format(_))));
}

#[test]
fn recovered_messages_have_no_attachment_linkage() {
    let linked_to = |id| attachments(id, vec![(linked(4), Some(attachment_data()))]);
    assert_eq!(linked_to(10).len(), 1);
    assert_eq!(linked_to(10)[0].filename.as_deref(), Some("a.txt"));
    assert_eq!(linked_to(HX_ID_BASE + 1).len(), 1);
    for id in [HX_ID_BASE, HX_ID_BASE - 3, i64::MIN] {
        assert!(linked_to(id).is_empty());
        for attachment in [4, 5, i64::MIN, i64::MAX] {
            let blocks = vec![linked(4)];
            let answer = attachment_bytes(id, attachment, &blocks, Ok(attachment_data()));
            assert!(matches!(answer, Err(Error::NotFound(_))));
        }
    }
    assert_eq!(
        attachment_bytes(HX_ID_BASE - 3, 4, &vec![], Ok(vec![])).unwrap_err().display(),
        "not found: message -1000003 was recovered from HxStore.hxd, which carries no attachment \
         linkage (docs/mac-outlook-format.md §2.8)"
    );
}

#[test]
fn attachment_bytes_are_answered_by_what_was_found() {
    let blocks = vec![linked(4)];
    assert_eq!(attachment_bytes(10, 4, &blocks, Ok(attachment_data())).unwrap(), b"hi");
    assert_eq!(
        attachment_bytes(10, 5, &blocks, Ok(attachment_data())).unwrap_err().display(),
        "not found: attachment 5 is not linked to message 10"
    );
    let unread = attachment_bytes(10, 4, &blocks, Err(Error::Io("gone".to_string())));
    assert!(matches!(unread, Err(Error::Io(e)) if e == "gone"));
    assert!(matches!(attachment_bytes(10, 4, &blocks, Ok(b"junk".to_vec())), Err(Error::Format(_))));
}

// ---- finding a profile ----

#[test]
fn the_largest_database_leads() {
    let found = vec![(10u64, "small"), (30, "large"), (20, "middle"), (30, "large too")];
    assert_eq!(data_dirs(found.clone()), vec!["large", "large too", "middle", "small"]);
    assert_eq!(primary(found), Some("large"));
    assert_eq!(primary(Vec::<(u64, &str)>::new()), None);
}
