use ost_mcp::mailbox::{Attachment, Error, Folder, Mailbox, Message, MessageRow, Recipient};
use ost_mcp::server::{
    attachment_data, attachment_list, clamp_limit, data_reply, list_folders, message_report, report_of,
    search, store_info, tool_error, FoldersRequest, RowsReply, SearchRequest, ToolError,
    DEFAULT_ATTACH_BYTES, DEFAULT_BODY_CHARS, DEFAULT_LIMIT, MAX_LIMIT,
};
use ost_mcp::sql::{query, Json, SqlValue};
use ost_mcp::vtab::{
    attachment_rows, collect_attachments, next_end, scope_of, sweep_messages, Attachments, AttachmentsInit,
    Cell, ColumnType, Folders, FoldersInit, Messages, MessagesInit,
};

// ---- a mailbox in memory ----

struct Fake;

fn folder(id: i64, path: &str, search: bool) -> Folder {
    Folder {
        id,
        parent_id: None,
        name: Some(path[1..].to_string()),
        path: path.to_string(),
        item_count: Some(2),
        unread_count: None,
        has_subfolders: false,
        is_search_folder: search,
    }
}

fn row(id: i64, folder_id: i64) -> MessageRow {
    MessageRow {
        id,
        folder_id,
        subject: Some(format!("subject {id}")),
        sender_name: None,
        sender_email: Some("a@example.com".to_string()),
        delivered_us: Some(id * 1_000_000),
        submitted_us: None,
        modified_us: None,
        size: Some(10),
        unread: Some(true),
        has_attachments: None,
        message_class: None,
    }
}

fn attachment(id: i64, len: Option<usize>) -> Attachment {
    Attachment {
        id,
        filename: Some(format!("file{id}.txt")),
        mime: Some("text/plain".to_string()),
        content_id: None,
        declared_size: Some(5),
        data_len: len,
    }
}

fn message() -> Message {
    Message {
        id: 11,
        subject: Some("subject".to_string()),
        sender_name: None,
        sender_email: None,
        display_to: Some("to".to_string()),
        display_cc: Some("cc".to_string()),
        display_bcc: Some("bcc".to_string()),
        delivered_us: Some(1_700_000_000_000_000),
        submitted_us: Some(0),
        modified_us: None,
        size: Some(4),
        unread: Some(false),
        message_class: Some("IPM.Note".to_string()),
        internet_message_id: None,
        conversation_topic: None,
        body_plain: Some("pl\u{e9}in body".to_string()),
        body_html: None,
        body_rtf: Some("{\\rtf}".to_string()),
        recipients: vec![1, 2, 3, 7]
            .into_iter()
            .map(|k| Recipient { kind: Some(k), name: None, email: Some("r@example.com".to_string()) })
            .chain(std::iter::once(Recipient { kind: None, name: None, email: None }))
            .collect(),
        attachments: vec![attachment(5, Some(3))],
    }
}

impl Mailbox for Fake {
    fn kind(&self) -> &'static str {
        "fake"
    }
    fn display_name(&self) -> Option<String> {
        Some("Fake".to_string())
    }
    fn folders(&self) -> Result<Vec<Folder>, Error> {
        Ok(vec![
            folder(1, "/Inbox", false),
            folder(2, "/Search", true),
            folder(3, "/Broken", false),
            folder(4, "/Sent", false),
        ])
    }
    fn messages(&self, folder_id: i64) -> Result<Vec<MessageRow>, Error> {
        match folder_id {
            1 => Ok(vec![row(11, 1), row(12, 1)]),
            2 => Ok(vec![row(11, 1)]),
            4 => Ok(vec![row(13, 4)]),
            _ => Err(Error::NotFound("no table".to_string())),
        }
    }
    fn message(&self, id: i64) -> Result<Message, Error> {
        if id == 11 {
            Ok(message())
        } else {
            Err(Error::NotFound(format!("no message {id}")))
        }
    }
    fn attachments(&self, message_id: i64) -> Result<Vec<Attachment>, Error> {
        match message_id {
            11 => Ok(vec![attachment(5, Some(3)), attachment(6, None)]),
            12 => Err(Error::Format("broken".to_string())),
            13 => Ok(vec![attachment(7, Some(2))]),
            _ => Err(Error::NotFound(format!("no message {message_id}"))),
        }
    }
    fn attachment_bytes(&self, message_id: i64, attachment_id: i64) -> Result<Vec<u8>, Error> {
        match (message_id, attachment_id) {
            (11, 5) => Ok(b"hi!".to_vec()),
            (11, 99) => Ok(vec![0, 1, 2, 255]),
            (11, 6) => Err(Error::Unsupported("embedded".to_string())),
            _ => Err(Error::NotFound("no attachment".to_string())),
        }
    }
}

struct Closed;

impl Mailbox for Closed {
    fn kind(&self) -> &'static str {
        "closed"
    }
    fn display_name(&self) -> Option<String> {
        None
    }
    fn folders(&self) -> Result<Vec<Folder>, Error> {
        Err(Error::Io("gone".to_string()))
    }
    fn messages(&self, _: i64) -> Result<Vec<MessageRow>, Error> {
        Ok(vec![row(1, 1)])
    }
    fn message(&self, _: i64) -> Result<Message, Error> {
        Err(Error::Io("gone".to_string()))
    }
    fn attachments(&self, _: i64) -> Result<Vec<Attachment>, Error> {
        Ok(vec![])
    }
    fn attachment_bytes(&self, _: i64, _: i64) -> Result<Vec<u8>, Error> {
        Err(Error::Io("gone".to_string()))
    }
}

// ---- limits and statements ----

#[test]
fn limits_are_clamped() {
    assert_eq!(clamp_limit(None), 200);
    assert_eq!(clamp_limit(Some(0)), 1);
    assert_eq!(clamp_limit(Some(77)), 77);
    assert_eq!(clamp_limit(Some(5_000)), 5_000);
    assert_eq!(clamp_limit(Some(5_001)), 5_000);
    assert_eq!((DEFAULT_LIMIT, MAX_LIMIT), (200, 5_000));
    assert_eq!((DEFAULT_BODY_CHARS, DEFAULT_ATTACH_BYTES), (20_000, 1 << 20));
}

#[test]
fn folders_are_listed_by_one_statement() {
    let (sql, params) = list_folders(&FoldersRequest { contains: None });
    assert_eq!(
        sql,
        "SELECT nid, path, name, item_count, unread_count, is_search_folder FROM folders  ORDER BY path"
    );
    assert!(params.is_empty());
    let (sql, params) = list_folders(&FoldersRequest { contains: Some("In'box".to_string()) });
    assert_eq!(
        sql,
        "SELECT nid, path, name, item_count, unread_count, is_search_folder FROM folders \
         WHERE path ILIKE ? ORDER BY path"
    );
    assert_eq!(params, vec!["%In'box%"]);
}

fn request(text: &str, since: Option<&str>, attachments: Option<bool>) -> SearchRequest {
    SearchRequest {
        text: Some(text.to_string()),
        folder: Some(String::new()),
        since: since.map(|s| s.to_string()),
        until: None,
        with_attachments: attachments,
        limit: None,
    }
}

#[test]
fn a_search_is_built_from_the_filters_given() {
    let (sql, params) = search(&SearchRequest {
        text: Some("plan".to_string()),
        folder: Some("Inbox".to_string()),
        since: Some("2024-01-01".to_string()),
        until: Some("2024-02-01".to_string()),
        with_attachments: Some(true),
        limit: Some(3),
    });
    assert_eq!(
        sql,
        "SELECT nid, folder_path, subject, sender_name, sender_email, delivered, size, \
         unread, has_attachments FROM messages \
         WHERE (subject ILIKE ? OR sender_name ILIKE ? OR sender_email ILIKE ?) \
         AND folder_path ILIKE ? AND delivered >= ?::TIMESTAMP AND delivered < ?::TIMESTAMP \
         AND has_attachments ORDER BY delivered DESC NULLS LAST"
    );
    assert_eq!(
        params,
        vec!["%plan%", "%plan%", "%plan%", "%Inbox%", "2024-01-01", "2024-02-01"]
    );
}

#[test]
fn a_search_without_filters_lists_everything() {
    let (sql, params) = search(&request("", None, Some(false)));
    assert_eq!(
        sql,
        "SELECT nid, folder_path, subject, sender_name, sender_email, delivered, size, \
         unread, has_attachments FROM messages  ORDER BY delivered DESC NULLS LAST"
    );
    assert!(params.is_empty());
}

#[test]
fn a_search_binds_one_parameter_for_each_placeholder() {
    for text in ["", "a", "?; drop"] {
        for since in [None, Some("2024-01-01"), Some("?")] {
            for attachments in [None, Some(true)] {
                let (sql, params) = search(&request(text, since, attachments));
                assert_eq!(sql.matches('?').count(), params.len());
                assert!(!sql.contains("drop"));
            }
        }
    }
}

#[test]
fn filter_text_never_reaches_the_statement() {
    assert_eq!(
        search(&request("' OR 1=1 --", Some("x"), None)).0,
        search(&request("plan", Some("2024-01-01"), None)).0
    );
}

#[test]
fn a_reply_counts_its_rows() {
    let rows = query(vec!["n".to_string()], vec![vec![SqlValue::Int(1)], vec![SqlValue::Int(2)]], 1, false);
    let r = RowsReply::from(rows);
    assert_eq!(r.columns, vec!["n"]);
    assert_eq!(r.row_count, 1);
    assert!(r.truncated);
    assert!(matches!(r.rows[0][0], Json::Int(1)));
}

// ---- reports ----

#[test]
fn store_info_describes_the_mailbox() {
    let i = store_info(&Fake, "/x/y.ost").unwrap();
    assert_eq!(i.path, "/x/y.ost");
    assert_eq!(i.display_name.as_deref(), Some("Fake"));
    assert_eq!(i.kind, "fake");
    assert_eq!(i.folders, 4);
    assert_eq!(i.tables.len(), 3);
    assert!(i.tables[0].starts_with("folders(nid, parent_nid, name,"));
    assert_eq!(store_info(&Closed, "p").unwrap_err().display(), "io: gone");
}

#[test]
fn a_message_report_prefers_plain_text() {
    let r = message_report(&Fake, 11, None).unwrap();
    assert_eq!(r.nid, 11);
    assert_eq!(r.body.as_deref(), Some("pl\u{e9}in body"));
    assert_eq!(r.body_format.as_deref(), Some("plain"));
    assert!(!r.body_truncated);
    assert_eq!(r.bodies_available, vec!["plain", "rtf"]);
    assert_eq!(r.delivered.as_deref(), Some("2023-11-14 22:13:20"));
    assert_eq!(r.submitted.as_deref(), Some("1970-01-01 00:00:00"));
    assert_eq!(r.modified, None);
    assert_eq!((r.to.as_deref(), r.cc.as_deref()), (Some("to"), Some("cc")));
    let kinds: Vec<&str> = r.recipients.iter().map(|r| r.kind.as_str()).collect();
    assert_eq!(kinds, vec!["to", "cc", "bcc", "7", "None"]);
    assert_eq!(r.attachments[0].nid, 5);
    assert_eq!(
        message_report(&Fake, 12, None).unwrap_err().display(),
        "not found: no message 12"
    );
}

#[test]
fn a_body_is_cut_at_characters() {
    let r = report_of(message(), Some(3));
    assert_eq!(r.body.as_deref(), Some("pl\u{e9}"));
    assert!(r.body_truncated);
    let r = report_of(message(), Some(10));
    assert_eq!(r.body.as_deref(), Some("pl\u{e9}in body"));
    assert!(!r.body_truncated);
    let mut m = message();
    m.body_plain = Some("x".repeat(20_001));
    let r = report_of(m, None);
    assert_eq!(r.body.unwrap().len(), 20_000);
    assert!(r.body_truncated);
}

#[test]
fn html_then_rtf_stand_in_for_plain_text() {
    let mut m = message();
    m.body_plain = None;
    m.body_html = Some("<p>".to_string());
    let r = report_of(m, None);
    assert_eq!(r.body_format.as_deref(), Some("html"));
    assert_eq!(r.bodies_available, vec!["html", "rtf"]);
    let mut m = message();
    m.body_plain = None;
    let r = report_of(m, None);
    assert_eq!((r.body_format.as_deref(), r.body.as_deref()), (Some("rtf"), Some("{\\rtf}")));
    let mut m = message();
    m.body_plain = None;
    m.body_rtf = None;
    let r = report_of(m, None);
    assert_eq!((r.body_format, r.body), (None, None));
    assert!(r.bodies_available.is_empty());
}

#[test]
fn attachments_are_listed_as_the_mailbox_gives_them() {
    let list = attachment_list(&Fake, 11).unwrap();
    assert_eq!(list.len(), 2);
    assert_eq!((list[0].nid, list[0].data_len), (5, Some(3)));
    assert_eq!((list[1].nid, list[1].data_len), (6, None));
    assert_eq!(attachment_list(&Fake, 12).unwrap_err().display(), "malformed: broken");
}

#[test]
fn text_payloads_come_back_as_text() {
    let r = attachment_data(&Fake, 11, 5, None).unwrap();
    assert_eq!(r.text.as_deref(), Some("hi!"));
    assert_eq!(r.base64, None);
    assert_eq!((r.total_bytes, r.returned_bytes, r.truncated), (3, 3, false));
    assert_eq!(r.filename.as_deref(), Some("file5.txt"));
    assert_eq!((r.message_nid, r.attachment_nid), (11, 5));
}

#[test]
fn other_payloads_come_back_as_base64() {
    let r = attachment_data(&Fake, 11, 99, None).unwrap();
    assert_eq!(r.text, None);
    assert_eq!(r.base64.as_deref(), Some("AAEC/w=="));
    assert_eq!((r.filename, r.mime), (None, None));
    let r = data_reply(1, 2, None, b"a\0b".to_vec(), None);
    assert_eq!(r.base64.as_deref(), Some("YQBi"));
}

#[test]
fn a_payload_is_cut_and_says_so() {
    let r = data_reply(1, 2, None, "caf\u{e9}!".as_bytes().to_vec(), Some(5));
    assert_eq!(r.text.as_deref(), Some("caf\u{e9}"));
    assert!(r.truncated);
    assert_eq!((r.total_bytes, r.returned_bytes), (6, 5));
    // The cut splits a character, so the bytes are no text.
    let r = data_reply(1, 2, None, "caf\u{e9}!".as_bytes().to_vec(), Some(4));
    assert_eq!(r.text, None);
    assert_eq!(r.base64.as_deref(), Some("Y2Fmww=="));
    let r = data_reply(1, 2, None, vec![b'x'; (1 << 20) + 1], None);
    assert_eq!(r.returned_bytes, 1 << 20);
    assert!(r.truncated);
}

#[test]
fn a_failing_attachment_fails_the_call() {
    assert_eq!(
        attachment_data(&Fake, 11, 6, None).unwrap_err().display(),
        "unsupported: embedded"
    );
    assert_eq!(attachment_data(&Fake, 12, 5, None).unwrap_err().display(), "malformed: broken");
}

#[test]
fn a_missing_node_is_the_callers_mistake() {
    match tool_error(Error::NotFound("nid 0x1".to_string())) {
        ToolError::BadRequest(m) => assert_eq!(m, "nid 0x1"),
        _ => panic!("internal"),
    }
    match tool_error(Error::Format("bad".to_string())) {
        ToolError::Internal(m) => assert_eq!(m, "malformed: bad"),
        _ => panic!("bad request"),
    }
    assert!(matches!(tool_error(Error::Io("x".to_string())), ToolError::Internal(m) if m == "io: x"));
    assert!(
        matches!(tool_error(Error::Unsupported("x".to_string())), ToolError::Internal(m) if m == "unsupported: x")
    );
}

// ---- tables ----

#[test]
fn tables_have_the_columns_that_store_info_tells() {
    let tables = store_info(&Fake, "p").unwrap().tables;
    let names = |c: Vec<ost_mcp::vtab::Column>| {
        c.iter().map(|c| c.name).collect::<Vec<_>>().join(", ")
    };
    assert_eq!(tables[0], format!("folders({})", names(Folders::columns())));
    assert_eq!(tables[1], format!("messages({})", names(Messages::columns())));
    assert_eq!(
        tables[2],
        format!("ost_attachments(message_nid => <nid>) -> ({})", names(Attachments::columns()))
    );
}

fn fits(cell: &Cell, ty: &ColumnType) -> bool {
    match ty {
        ColumnType::Varchar => matches!(cell, Cell::Text(_)),
        ColumnType::Bigint | ColumnType::Timestamp => matches!(cell, Cell::Int(_)),
        ColumnType::Boolean => matches!(cell, Cell::Bool(_)),
    }
}

#[test]
fn rows_fit_their_columns() {
    let chunk = FoldersInit::new(Fake.folders().unwrap()).chunk(1);
    let cols = Folders::columns();
    assert_eq!(chunk[0].len(), cols.len());
    assert!(chunk[0].iter().zip(&cols).all(|(c, k)| fits(c, &k.ty)));
    let chunk = MessagesInit::new(sweep_messages(&Fake)).chunk(1);
    let cols = Messages::columns();
    assert_eq!(chunk[0].len(), cols.len());
    assert!(chunk[0].iter().zip(&cols).all(|(c, k)| fits(c, &k.ty)));
    let chunk = AttachmentsInit::new(attachment_rows(&Fake, None)).chunk(1);
    let cols = Attachments::columns();
    assert_eq!(chunk[0].len(), cols.len());
    assert!(chunk[0].iter().zip(&cols).all(|(c, k)| fits(c, &k.ty)));
}

#[test]
fn absent_values_are_null_and_empty_ones_are_not() {
    let mut m = row(1, 2);
    m.subject = Some(String::new());
    let chunk = MessagesInit::new(vec![("/In".to_string(), m)]).chunk(10);
    assert!(matches!(&chunk[0][0], Cell::Int(Some(1))));
    assert!(matches!(&chunk[0][2], Cell::Text(Some(p)) if p == "/In"));
    assert!(matches!(&chunk[0][3], Cell::Text(Some(s)) if s.is_empty()));
    assert!(matches!(&chunk[0][4], Cell::Text(None)));
    assert!(matches!(&chunk[0][7], Cell::Int(None)));
    assert!(matches!(&chunk[0][11], Cell::Bool(None)));
}

#[test]
fn the_sweep_leaves_out_search_folders_and_broken_ones() {
    let rows = sweep_messages(&Fake);
    let got: Vec<(&str, i64)> = rows.iter().map(|(p, m)| (p.as_str(), m.id)).collect();
    assert_eq!(got, vec![("/Inbox", 11), ("/Inbox", 12), ("/Sent", 13)]);
    assert!(sweep_messages(&Closed).is_empty());
}

#[test]
fn attachments_are_swept_or_scoped() {
    let ids = |r: Vec<(i64, Attachment)>| r.iter().map(|(m, a)| (*m, a.id)).collect::<Vec<_>>();
    assert_eq!(ids(attachment_rows(&Fake, None)), vec![(11, 5), (11, 6), (13, 7)]);
    assert_eq!(ids(attachment_rows(&Fake, Some(13))), vec![(13, 7)]);
    assert!(attachment_rows(&Fake, Some(12)).is_empty());
    assert_eq!(ids(collect_attachments(&Fake, &vec![13, 12, 11])), vec![(13, 7), (11, 5), (11, 6)]);
    assert_eq!(scope_of(Some(4), &sweep_messages(&Fake)), vec![4]);
    assert_eq!(scope_of(None, &sweep_messages(&Fake)), vec![11, 12, 13]);
}

#[test]
fn chunks_cover_every_row_once() {
    let mut t = MessagesInit::new((0..10).map(|i| ("/x".to_string(), row(i, 1))).collect());
    let mut seen = Vec::new();
    loop {
        let chunk = t.chunk(4);
        if chunk.is_empty() {
            break;
        }
        assert!(chunk.len() <= 4);
        for r in chunk {
            match &r[0] {
                Cell::Int(Some(n)) => seen.push(*n),
                _ => panic!("no id"),
            }
        }
    }
    assert_eq!(seen, (0..10).collect::<Vec<i64>>());
    assert_eq!(next_end(0, 10, 4), 4);
    assert_eq!(next_end(8, 10, 4), 10);
    assert_eq!(next_end(10, 10, 4), 10);
    assert_eq!(next_end(3, 10, usize::MAX), 10);
}
