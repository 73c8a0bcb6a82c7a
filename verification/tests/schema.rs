use ost_mcp::mac_outlook::schema::{
    block_id_hash, can_tell, display_name, folders, is_placeholder_name, linked_blocks, mail_row,
    messages, row_to_mail, special_folder_name, sql_error, to_us, CountRecord, FolderRecord, LinkedBlock,
    MailRecord, RawMail,
};
use ost_mcp::mailbox::{Error, Folder};
use rusqlite::Connection;

/// A minimal schema covering only the columns these queries touch,
/// with invented data.
fn fixture_db() -> Connection {
    let conn = Connection::open_in_memory().unwrap();
    conn.execute_batch(
        "CREATE TABLE Folders (
            Record_RecordID INTEGER PRIMARY KEY,
            Folder_ParentID INTEGER,
            Folder_Name TEXT,
            Folder_SpecialFolderType INTEGER
         );
         CREATE TABLE Mail (
            Record_RecordID INTEGER PRIMARY KEY,
            Record_FolderID INTEGER,
            Message_NormalizedSubject TEXT,
            Message_SenderList TEXT,
            Message_SenderAddressList TEXT,
            Message_TimeReceived INTEGER,
            Message_TimeSent INTEGER,
            Record_ModDate INTEGER,
            Message_Size INTEGER,
            Message_ReadFlag INTEGER,
            Message_HasAttachment INTEGER,
            PathToDataFile TEXT,
            Message_ThreadTopic TEXT
         );
         CREATE TABLE Blocks (BlockID BLOB PRIMARY KEY, PathToDataFile TEXT);
         CREATE TABLE Mail_OwnedBlocks (Record_RecordID INTEGER, BlockID BLOB);
         CREATE TABLE AccountsMail (Account_Name TEXT);
         CREATE TABLE AccountsExchange (Account_Name TEXT);

         INSERT INTO Folders VALUES (1, -2, 'Placeholder_Inbox_Placeholder', 1);
         INSERT INTO Folders VALUES (2, -2, 'Team Project', 0);
         INSERT INTO Folders VALUES (3, 2, 'Subfolder', 0);

         INSERT INTO Mail VALUES (10, 2, 'Re: example', 'Sample Sender', 'sender@example.com',
            1700000000, 1700000000, 1700000000, 1024, 0, 1, 'Messages/1/example.olk15Message',
            'Example thread');
         ",
    )
    .unwrap();
    conn
}

/// The folders of a database, with their counts.
fn folders_in(conn: &Connection) -> Vec<Folder> {
    let rows: Vec<FolderRecord> = conn
        .prepare(
            "SELECT Record_RecordID, Folder_ParentID, Folder_Name, Folder_SpecialFolderType \
             FROM Folders",
        )
        .unwrap()
        .query_map([], |r| {
            Ok(FolderRecord { id: r.get(0)?, parent: r.get(1)?, name: r.get(2)?, special: r.get(3)? })
        })
        .unwrap()
        .map(|r| r.unwrap())
        .collect();
    let counts: Vec<CountRecord> = conn
        .prepare(
            "SELECT Record_FolderID, count(*), \
                    sum(CASE WHEN Message_ReadFlag = 0 THEN 1 ELSE 0 END) \
             FROM Mail GROUP BY Record_FolderID",
        )
        .unwrap()
        .query_map([], |r| {
            Ok(CountRecord { folder_id: r.get(0)?, total: r.get(1)?, unread: r.get(2)? })
        })
        .unwrap()
        .map(|r| r.unwrap())
        .collect();
    folders(&rows, &counts)
}

/// One mail record of a database.
fn mail_in(conn: &Connection, id: i64) -> Result<RawMail, Error> {
    let found: Vec<MailRecord> = conn
        .prepare("SELECT * FROM Mail WHERE Record_RecordID = ?")
        .unwrap()
        .query_map([id], |r| {
            Ok(MailRecord {
                id: r.get(0)?,
                folder_id: r.get(1)?,
                subject: r.get(2)?,
                sender_name: r.get(3)?,
                sender_email: r.get(4)?,
                received: r.get(5)?,
                sent: r.get(6)?,
                modified: r.get(7)?,
                size: r.get(8)?,
                read_flag: r.get(9)?,
                has_attachment: r.get(10)?,
                path_to_data_file: r.get(11)?,
                thread_topic: r.get(12)?,
            })
        })
        .unwrap()
        .map(|r| r.unwrap())
        .collect();
    mail_row(found.into_iter().next(), id)
}

/// The blocks linked to a mail record of a database.
fn blocks_in(conn: &Connection, id: i64, part: &str) -> Vec<LinkedBlock> {
    let rows: Vec<(Vec<u8>, String)> = conn
        .prepare(
            "SELECT b.BlockID, b.PathToDataFile FROM Blocks b \
             JOIN Mail_OwnedBlocks m ON m.BlockID = b.BlockID \
             WHERE m.Record_RecordID = ?",
        )
        .unwrap()
        .query_map([id], |r| Ok((r.get(0)?, r.get(1)?)))
        .unwrap()
        .map(|r| r.unwrap())
        .collect();
    linked_blocks(rows, part)
}

/// The first account name of each account table of a database.
fn name_in(conn: &Connection) -> Option<String> {
    let names: Vec<Option<String>> = ["AccountsMail", "AccountsExchange"]
        .iter()
        .map(|table| {
            let sql = format!("SELECT Account_Name FROM {table} WHERE Account_Name IS NOT NULL LIMIT 1");
            conn.query_row(&sql, [], |r| r.get::<_, String>(0)).ok()
        })
        .collect();
    display_name(&names)
}

#[test]
fn placeholder_folder_name_is_nulled_but_special_type_gets_a_real_name() {
    let conn = fixture_db();
    let folders = folders_in(&conn);
    let inbox = folders.iter().find(|f| f.id == 1).unwrap();
    assert_eq!(inbox.name, Some("Inbox".to_string()));

    let custom = folders.iter().find(|f| f.id == 2).unwrap();
    assert_eq!(custom.name, Some("Team Project".to_string()));
    assert!(custom.has_subfolders);
    assert_eq!(custom.path, "/Team Project");

    let sub = folders.iter().find(|f| f.id == 3).unwrap();
    assert_eq!(sub.path, "/Team Project/Subfolder");
    assert_eq!(sub.parent_id, Some(2));
}

#[test]
fn message_counts_are_real_not_placeholder() {
    let conn = fixture_db();
    let folders = folders_in(&conn);
    let custom = folders.iter().find(|f| f.id == 2).unwrap();
    assert_eq!(custom.item_count, Some(1));
    assert_eq!(custom.unread_count, Some(1));
    let empty = folders.iter().find(|f| f.id == 1).unwrap();
    assert_eq!(empty.item_count, Some(0));
}

#[test]
fn mail_row_reads_back_by_id() {
    let conn = fixture_db();
    let mail = mail_in(&conn, 10).unwrap();
    let (row, path, topic) = (mail.row, mail.path_to_data_file, mail.conversation_topic);
    assert_eq!(row.subject.as_deref(), Some("Re: example"));
    assert_eq!(row.sender_email.as_deref(), Some("sender@example.com"));
    assert_eq!(row.unread, Some(true));
    assert_eq!(row.has_attachments, Some(true));
    assert_eq!(path.as_deref(), Some("Messages/1/example.olk15Message"));
    assert_eq!(topic.as_deref(), Some("Example thread"));
}

#[test]
fn missing_mail_row_is_not_found() {
    let conn = fixture_db();
    assert!(matches!(mail_in(&conn, 999), Err(Error::NotFound(_))));
}

#[test]
fn linked_blocks_filters_by_path_substring() {
    let conn = fixture_db();
    conn.execute(
        "INSERT INTO Blocks VALUES (X'AABBCC', 'Message Attachments/9/x.olk15MsgAttachment')",
        [],
    )
    .unwrap();
    conn.execute(
        "INSERT INTO Blocks VALUES (X'DDEEFF', 'Message Sources/9/y.olk15MsgSource')",
        [],
    )
    .unwrap();
    conn.execute(
        "INSERT INTO Mail_OwnedBlocks VALUES (10, X'AABBCC'), (10, X'DDEEFF')",
        [],
    )
    .unwrap();

    let attachments = blocks_in(&conn, 10, "Message Attachments");
    assert_eq!(attachments.len(), 1);
    assert!(attachments[0].path_to_data_file.contains("Attachments"));

    let sources = blocks_in(&conn, 10, "Message Sources");
    assert_eq!(sources.len(), 1);
    assert!(sources[0].path_to_data_file.contains("Sources"));
}

#[test]
fn display_name_reads_first_populated_account_table() {
    let conn = fixture_db();
    assert_eq!(name_in(&conn), None);
    conn.execute("INSERT INTO AccountsExchange VALUES ('Example Account')", [])
        .unwrap();
    assert_eq!(name_in(&conn), Some("Example Account".to_string()));
}

#[test]
fn an_empty_account_name_is_passed_over() {
    assert_eq!(
        display_name(&vec![Some(String::new()), Some("Second".to_string())]),
        Some("Second".to_string())
    );
    assert_eq!(
        display_name(&vec![Some("First".to_string()), Some("Second".to_string())]),
        Some("First".to_string())
    );
}

fn record(id: i64, parent: i64, name: &str, special: i64) -> FolderRecord {
    FolderRecord { id, parent, name: name.to_string(), special }
}

#[test]
fn no_placeholder_is_ever_shown() {
    assert!(is_placeholder_name("Placeholder_Inbox_Placeholder"));
    assert!(is_placeholder_name("Placeholder_Placeholder"));
    assert!(!is_placeholder_name("Placeholder_"));
    assert!(!is_placeholder_name("Inbox"));
    let list = folders(
        &vec![record(7, 0, "Placeholder_Saved_Placeholder", 0), record(8, 7, "Below", 77)],
        &vec![],
    );
    assert_eq!(list[0].name, None);
    assert_eq!(list[0].path, "/folder-7");
    assert_eq!(list[0].parent_id, None);
    assert_eq!(list[1].path, "/folder-7/Below");
    for code in -1..200 {
        if let Some(n) = special_folder_name(code) {
            assert!(!is_placeholder_name(n));
        }
    }
}

#[test]
fn special_codes_name_their_folders() {
    assert_eq!(special_folder_name(1), Some("Inbox"));
    assert_eq!(special_folder_name(8), Some("Sent Items"));
    assert_eq!(special_folder_name(12), Some("Junk Email"));
    assert_eq!(special_folder_name(99), Some("On My Computer"));
    assert_eq!(special_folder_name(103), Some("Temporary Items"));
    assert_eq!(special_folder_name(0), None);
    assert_eq!(special_folder_name(7), None);
}

#[test]
fn a_cycle_of_parents_ends() {
    let list = folders(&vec![record(1, 2, "a", 0), record(2, 1, "b", 0)], &vec![]);
    assert_eq!(list[0].path, "/b/a".repeat(32));
    assert_eq!(list[1].path, "/a/b".repeat(32));
}

#[test]
fn a_parent_that_is_no_folder_ends_the_path() {
    let list = folders(&vec![record(5, 4, "x", 0)], &vec![]);
    assert_eq!(list[0].path, "/x");
    assert_eq!(list[0].parent_id, Some(4));
    assert!(!list[0].has_subfolders);
    assert!(!list[0].is_search_folder);
}

#[test]
fn a_path_is_the_parents_path_and_a_segment() {
    // A chain of 64 rows, the deepest first.
    let rows: Vec<_> = (1..=64i64).rev().map(|id| record(id, id - 1, &format!("n{id}"), 0)).collect();
    let list = folders(&rows, &vec![]);
    for f in &list {
        let above = match list.iter().find(|p| Some(p.id) == f.parent_id) {
            Some(p) => p.path.clone(),
            None => String::new(),
        };
        assert_eq!(f.path, format!("{above}/n{}", f.id));
    }
}

#[test]
fn an_unknown_unread_count_is_zero() {
    let counts = vec![CountRecord { folder_id: 5, total: 3, unread: None }];
    let list = folders(&vec![record(5, 0, "x", 0)], &counts);
    assert_eq!((list[0].item_count, list[0].unread_count), (Some(3), Some(0)));
}

fn mail() -> MailRecord {
    MailRecord {
        id: 1,
        folder_id: 2,
        subject: Some(String::new()),
        sender_name: Some(String::new()),
        sender_email: None,
        received: Some(1_700_000_000),
        sent: None,
        modified: Some(-1),
        size: Some(9),
        read_flag: Some(7),
        has_attachment: None,
        path_to_data_file: None,
        thread_topic: Some(String::new()),
    }
}

#[test]
fn empty_columns_are_absent_but_an_empty_subject_stays() {
    let m = row_to_mail(mail());
    assert_eq!(m.row.subject.as_deref(), Some(""));
    assert_eq!(m.row.sender_name, None);
    assert_eq!(m.conversation_topic, None);
    assert_eq!(m.row.delivered_us, Some(1_700_000_000_000_000));
    assert_eq!(m.row.submitted_us, None);
    assert_eq!(m.row.modified_us, Some(-1_000_000));
    assert_eq!(m.row.unread, Some(false));
    assert_eq!(m.row.has_attachments, None);
    assert_eq!(m.row.message_class, None);
    let rows = messages(vec![mail(), mail()]);
    assert_eq!(rows.len(), 2);
    assert_eq!(rows[1].size, Some(9));
}

#[test]
fn seconds_that_overflow_cannot_be_told() {
    assert!(can_tell(None));
    assert!(can_tell(Some(9_223_372_036_854)));
    assert!(!can_tell(Some(9_223_372_036_855)));
    assert!(!can_tell(Some(i64::MIN)));
    assert_eq!(to_us(Some(9_223_372_036_854)), Some(9_223_372_036_854_000_000));
}

#[test]
fn a_missing_mail_record_is_named() {
    assert_eq!(mail_row(None, 999).unwrap_err().display(), "not found: mail record 999");
    assert_eq!(sql_error("no such table: Mail").display(), "malformed: sqlite: no such table: Mail");
}

#[test]
fn block_ids_are_the_fnv_hash_of_their_bytes() {
    // FNV-1a 64 of "" and "a", without the sign bit.
    assert_eq!(block_id_hash(b""), 0x4bf2_9ce4_8422_2325);
    assert_eq!(block_id_hash(b"a"), 0x2f63_dc4c_8601_ec8c);
    let blocks = linked_blocks(vec![(b"a".to_vec(), "x/y".to_string())], "x");
    assert_eq!(blocks[0].id, 0x2f63_dc4c_8601_ec8c);
    assert!(linked_blocks(vec![(b"a".to_vec(), "x/y".to_string())], "z").is_empty());
}
