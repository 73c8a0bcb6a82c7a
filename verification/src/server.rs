//! The replies of the tools over one mounted mailbox.
//!
//! Each is a plain function, so that the command line prints the same document as
//! the tool of the same name. One shape, two transports: a reply that only one of
//! them can emit is a reply that drifts.

use vstd::prelude::*;
use crate::b64;
use crate::errors::ErrorV;
use crate::mailbox::{Attachment, AttachmentV, Error, Folder, Mailbox, Message, MessageV, Recipient, RecipientV};
use crate::ost::props;
use crate::ost::props::format_time_us;
use crate::sql::{Json, Rows};
use crate::text;
use crate::views;

verus! {

broadcast use views::lemma_views_push;

/// Most tools cap their output; a model does not benefit from 40,000 rows.
pub const DEFAULT_LIMIT: usize = 200;

pub const MAX_LIMIT: usize = 5_000;

/// Bodies are cut at this many characters unless the caller asks for more.
pub const DEFAULT_BODY_CHARS: usize = 20_000;

/// Attachment payloads are cut at this many bytes unless asked otherwise.
pub const DEFAULT_ATTACH_BYTES: usize = 1_048_576;

/// The number of rows to return: the one asked for, within bounds.
pub fn clamp_limit(limit: Option<usize>) -> (r: usize)
    ensures
        r == match limit {
            None => DEFAULT_LIMIT as int,
            Some(n) => if n < 1 {
                1
            } else if n > MAX_LIMIT {
                MAX_LIMIT as int
            } else {
                n as int
            },
        },
{
    match limit {
        None => DEFAULT_LIMIT,
        Some(n) => if n < 1 {
            1
        } else if n > MAX_LIMIT {
            MAX_LIMIT
        } else {
            n
        },
    }
}

#[derive(Debug)]
pub struct SqlRequest {
    /// A single read-only SQL statement. The tables are `folders`, `messages` and
    /// the table function `ost_attachments(message_nid => <nid>)`.
    pub query: String,
    /// Maximum rows to return (default 200, maximum 5000).
    pub limit: Option<usize>,
}

#[derive(Debug)]
pub struct SearchRequest {
    /// Case-insensitive substring matched against subject, sender name and sender
    /// address. Omit to filter only by the other fields.
    pub text: Option<String>,
    /// Case-insensitive substring matched against the folder path, e.g. `Inbox`.
    pub folder: Option<String>,
    /// Only messages delivered on or after this `YYYY-MM-DD` date.
    pub since: Option<String>,
    /// Only messages delivered before this `YYYY-MM-DD` date.
    pub until: Option<String>,
    /// Only messages that carry at least one attachment.
    pub with_attachments: Option<bool>,
    /// Maximum rows to return (default 200, maximum 5000).
    pub limit: Option<usize>,
}

#[derive(Debug)]
pub struct FoldersRequest {
    /// Case-insensitive substring matched against the folder path. Omit for the
    /// whole tree.
    pub contains: Option<String>,
}

#[derive(Debug)]
pub struct MessageRequest {
    /// Node id, as returned in the `nid` column of `messages`.
    pub nid: i64,
    /// Characters of body text to return (default 20000). The reply says whether
    /// it was cut.
    pub max_body_chars: Option<usize>,
}

#[derive(Debug)]
pub struct NidRequest {
    /// Node id, as returned in the `nid` column of `messages`.
    pub nid: i64,
}

#[derive(Debug)]
pub struct AttachmentRequest {
    /// Node id of the message that owns the attachment.
    pub message_nid: i64,
    /// Node id of the attachment, from `list_attachments`.
    pub attachment_nid: i64,
    /// Bytes to return (default 1048576).
    pub max_bytes: Option<usize>,
}

#[derive(Debug)]
pub struct StoreInfo {
    pub path: String,
    pub display_name: Option<String>,
    /// The backend: `ost-v23` or `ost-v36` for a PFF file of that format version,
    /// `mac-olk15` for an Outlook for Mac profile.
    pub kind: String,
    pub folders: usize,
    pub tables: Vec<String>,
}

#[derive(Debug)]
pub struct RowsReply {
    pub columns: Vec<String>,
    pub row_count: usize,
    /// True when the limit cut the result short.
    pub truncated: bool,
    pub rows: Vec<Vec<Json>>,
}

impl vstd::std_specs::convert::FromSpecImpl<Rows> for RowsReply {
    open spec fn obeys_from_spec() -> bool {
        true
    }

    /// The reply with the rows of a result, which it counts.
    open spec fn from_spec(r: Rows) -> RowsReply {
        RowsReply {
            columns: r.columns,
            row_count: r.rows@.len() as usize,
            truncated: r.truncated,
            rows: r.rows,
        }
    }
}

impl From<Rows> for RowsReply {
    fn from(r: Rows) -> (reply: RowsReply) {
        let row_count: usize = r.rows.len();
        RowsReply { columns: r.columns, row_count, truncated: r.truncated, rows: r.rows }
    }
}

#[derive(Debug)]
pub struct RecipientReply {
    /// `to`, `cc`, `bcc`, or the raw code when it is none of those.
    pub kind: String,
    pub name: Option<String>,
    pub email: Option<String>,
}

#[derive(Debug)]
pub struct AttachmentReply {
    pub nid: i64,
    pub filename: Option<String>,
    pub mime: Option<String>,
    pub content_id: Option<String>,
    pub declared_size: Option<i64>,
    /// Payload length in bytes, or null when the attachment is an embedded message
    /// rather than a byte stream.
    pub data_len: Option<usize>,
}

#[derive(Debug)]
pub struct MessageReply {
    pub nid: i64,
    pub subject: Option<String>,
    pub sender_name: Option<String>,
    pub sender_email: Option<String>,
    pub to: Option<String>,
    pub cc: Option<String>,
    pub delivered: Option<String>,
    pub submitted: Option<String>,
    pub modified: Option<String>,
    pub size: Option<i64>,
    pub unread: Option<bool>,
    pub message_class: Option<String>,
    pub internet_message_id: Option<String>,
    pub conversation_topic: Option<String>,
    /// Plain text if the message has it, otherwise HTML, otherwise decompressed
    /// RTF. `body_format` says which.
    pub body: Option<String>,
    pub body_format: Option<String>,
    pub body_truncated: bool,
    /// Which body variants the message actually carries.
    pub bodies_available: Vec<String>,
    pub recipients: Vec<RecipientReply>,
    pub attachments: Vec<AttachmentReply>,
}

#[derive(Debug)]
pub struct AttachmentDataReply {
    pub message_nid: i64,
    pub attachment_nid: i64,
    pub filename: Option<String>,
    pub mime: Option<String>,
    pub total_bytes: usize,
    pub returned_bytes: usize,
    pub truncated: bool,
    /// Set when the payload is valid UTF-8 text.
    pub text: Option<String>,
    /// Set when it is not: standard base64 of the returned bytes.
    pub base64: Option<String>,
}

/// A recipient in a reply, its texts as sequences of characters.
pub struct RecipientReplyV {
    pub kind: Seq<char>,
    pub name: Option<Seq<char>>,
    pub email: Option<Seq<char>>,
}

/// An attachment in a reply, its texts as sequences of characters.
pub struct AttachmentReplyV {
    pub nid: i64,
    pub filename: Option<Seq<char>>,
    pub mime: Option<Seq<char>>,
    pub content_id: Option<Seq<char>>,
    pub declared_size: Option<i64>,
    pub data_len: Option<nat>,
}

/// A message reply, its texts as sequences of characters.
pub struct MessageReplyV {
    pub nid: i64,
    pub subject: Option<Seq<char>>,
    pub sender_name: Option<Seq<char>>,
    pub sender_email: Option<Seq<char>>,
    pub to: Option<Seq<char>>,
    pub cc: Option<Seq<char>>,
    pub delivered: Option<Seq<char>>,
    pub submitted: Option<Seq<char>>,
    pub modified: Option<Seq<char>>,
    pub size: Option<i64>,
    pub unread: Option<bool>,
    pub message_class: Option<Seq<char>>,
    pub internet_message_id: Option<Seq<char>>,
    pub conversation_topic: Option<Seq<char>>,
    pub body: Option<Seq<char>>,
    pub body_format: Option<Seq<char>>,
    pub body_truncated: bool,
    pub bodies_available: Seq<Seq<char>>,
    pub recipients: Seq<RecipientReplyV>,
    pub attachments: Seq<AttachmentReplyV>,
}

impl View for RecipientReply {
    type V = RecipientReplyV;

    open spec fn view(&self) -> RecipientReplyV {
        RecipientReplyV {
            kind: self.kind@,
            name: text::opt_text(self.name),
            email: text::opt_text(self.email),
        }
    }
}

impl View for AttachmentReply {
    type V = AttachmentReplyV;

    open spec fn view(&self) -> AttachmentReplyV {
        AttachmentReplyV {
            nid: self.nid,
            filename: text::opt_text(self.filename),
            mime: text::opt_text(self.mime),
            content_id: text::opt_text(self.content_id),
            declared_size: self.declared_size,
            data_len: match self.data_len {
                Some(n) => Some(n as nat),
                None => None,
            },
        }
    }
}

impl View for MessageReply {
    type V = MessageReplyV;

    open spec fn view(&self) -> MessageReplyV {
        MessageReplyV {
            nid: self.nid,
            subject: text::opt_text(self.subject),
            sender_name: text::opt_text(self.sender_name),
            sender_email: text::opt_text(self.sender_email),
            to: text::opt_text(self.to),
            cc: text::opt_text(self.cc),
            delivered: text::opt_text(self.delivered),
            submitted: text::opt_text(self.submitted),
            modified: text::opt_text(self.modified),
            size: self.size,
            unread: self.unread,
            message_class: text::opt_text(self.message_class),
            internet_message_id: text::opt_text(self.internet_message_id),
            conversation_topic: text::opt_text(self.conversation_topic),
            body: text::opt_text(self.body),
            body_format: text::opt_text(self.body_format),
            body_truncated: self.body_truncated,
            bodies_available: views::views(self.bodies_available@),
            recipients: views::views(self.recipients@),
            attachments: views::views(self.attachments@),
        }
    }
}

/// The folder list of a tool, as a query and its parameters.
pub open spec fn folders_query(contains: Option<Seq<char>>) -> (Seq<char>, Seq<Seq<char>>) {
    let head = "SELECT nid, path, name, item_count, unread_count, is_search_folder FROM folders "@;
    match contains {
        Some(c) => (
            head + "WHERE path ILIKE ?"@ + " ORDER BY path"@,
            seq![pattern(c)],
        ),
        None => (head + ""@ + " ORDER BY path"@, seq![]),
    }
}

/// The pattern that matches whatever holds `t`.
pub open spec fn pattern(t: Seq<char>) -> Seq<char> {
    "%"@ + t + "%"@
}

fn pattern_of(t: &str) -> (r: String)
    ensures
        r@ == pattern(t@),
{
    text::cat3("%", t, "%")
}

/// The statement that lists folders, with its parameters.
pub fn list_folders(req: &FoldersRequest) -> (r: (String, Vec<String>))
    ensures
        (r.0@, views::views(r.1@)) == folders_query(text::opt_text(req.contains)),
{
    let head: &str =
        "SELECT nid, path, name, item_count, unread_count, is_search_folder FROM folders ";
    let mut params: Vec<String> = Vec::new();
    assert(views::views(params@) =~= seq![]);
    match &req.contains {
        Some(c) => {
            params.push(pattern_of(c.as_str()));
            assert(views::views(params@) =~= seq![pattern(c@)]);
            (text::cat3(head, "WHERE path ILIKE ?", " ORDER BY path"), params)
        },
        None => (text::cat3(head, "", " ORDER BY path"), params),
    }
}

/// A filter that was given and is not empty.
pub open spec fn given(o: Option<String>) -> Option<Seq<char>> {
    match o {
        Some(s) => if s@.len() > 0 {
            Some(s@)
        } else {
            None
        },
        None => None,
    }
}

/// The conditions of a search: only those whose filter was given.
pub open spec fn search_clauses(req: SearchRequest) -> Seq<Seq<char>> {
    let a: Seq<Seq<char>> = if given(req.text) is Some {
        seq!["(subject ILIKE ? OR sender_name ILIKE ? OR sender_email ILIKE ?)"@]
    } else {
        seq![]
    };
    let b = if given(req.folder) is Some {
        a.push("folder_path ILIKE ?"@)
    } else {
        a
    };
    let c = if req.since is Some {
        b.push("delivered >= ?::TIMESTAMP"@)
    } else {
        b
    };
    let d = if req.until is Some {
        c.push("delivered < ?::TIMESTAMP"@)
    } else {
        c
    };
    if req.with_attachments == Some(true) {
        d.push("has_attachments"@)
    } else {
        d
    }
}

/// The parameters of a search, one for each question mark of its conditions.
pub open spec fn search_params(req: SearchRequest) -> Seq<Seq<char>> {
    let a: Seq<Seq<char>> = match given(req.text) {
        Some(t) => seq![pattern(t), pattern(t), pattern(t)],
        None => seq![],
    };
    let b = match given(req.folder) {
        Some(f) => a.push(pattern(f)),
        None => a,
    };
    let c = match req.since {
        Some(s) => b.push(s@),
        None => b,
    };
    match req.until {
        Some(u) => c.push(u@),
        None => c,
    }
}

/// Conditions that all have to hold.
pub open spec fn conjunction(clauses: Seq<Seq<char>>) -> Seq<char>
    decreases clauses.len(),
{
    if clauses.len() == 0 {
        seq![]
    } else if clauses.len() == 1 {
        clauses[0]
    } else {
        conjunction(clauses.drop_last()) + " AND "@ + clauses.last()
    }
}

/// The statement of a search.
pub open spec fn search_statement(clauses: Seq<Seq<char>>) -> Seq<char> {
    let filter = if clauses.len() == 0 {
        seq![]
    } else {
        "WHERE "@ + conjunction(clauses)
    };
    "SELECT nid, folder_path, subject, sender_name, sender_email, delivered, size, unread, has_attachments FROM messages "@
        + filter + " ORDER BY delivered DESC NULLS LAST"@
}

fn join_clauses(clauses: &Vec<String>) -> (r: String)
    ensures
        r@ == conjunction(views::views(clauses@)),
{
    let ghost all = views::views(clauses@);
    let mut out: String = String::new();
    let mut i: usize = 0;
    assert(all.take(0) =~= seq![]);
    while i < clauses.len()
        invariant
            i <= clauses@.len(),
            all == views::views(clauses@),
            out@ == conjunction(all.take(i as int)),
        decreases clauses@.len() - i,
    {
        assert(all.take(i + 1).drop_last() =~= all.take(i as int));
        assert(all.take(i + 1).last() == clauses@[i as int]@);
        if i > 0 {
            out.append(" AND ");
        }
        let ghost before = out@;
        out.append(clauses[i].as_str());
        assert(i == 0 ==> out@ =~= clauses@[0]@);
        i = i + 1;
    }
    assert(all.take(i as int) =~= all);
    out
}

/// The statement that searches for messages, with its parameters. Only the filters
/// the caller supplied are built into the statement, so no parameter is ever bound
/// as an untyped NULL.
pub fn search(req: &SearchRequest) -> (r: (String, Vec<String>))
    ensures
        r.0@ == search_statement(search_clauses(*req)),
        views::views(r.1@) == search_params(*req),
{
    let mut clauses: Vec<String> = Vec::new();
    let mut params: Vec<String> = Vec::new();
    assert(views::views(clauses@) =~= seq![]);
    assert(views::views(params@) =~= seq![]);
    if let Some(t) = &req.text {
        if t.as_str().unicode_len() > 0 {
            clauses.push(
                "(subject ILIKE ? OR sender_name ILIKE ? OR sender_email ILIKE ?)".to_owned(),
            );
            params.push(pattern_of(t.as_str()));
            params.push(pattern_of(t.as_str()));
            params.push(pattern_of(t.as_str()));
            assert(views::views(clauses@) =~= seq![
                "(subject ILIKE ? OR sender_name ILIKE ? OR sender_email ILIKE ?)"@,
            ]);
            assert(views::views(params@) =~= seq![pattern(t@), pattern(t@), pattern(t@)]);
        }
    }
    if let Some(f) = &req.folder {
        if f.as_str().unicode_len() > 0 {
            clauses.push("folder_path ILIKE ?".to_owned());
            params.push(pattern_of(f.as_str()));
        }
    }
    if let Some(s) = &req.since {
        clauses.push("delivered >= ?::TIMESTAMP".to_owned());
        params.push(s.clone());
    }
    if let Some(u) = &req.until {
        clauses.push("delivered < ?::TIMESTAMP".to_owned());
        params.push(u.clone());
    }
    if let Some(true) = req.with_attachments {
        clauses.push("has_attachments".to_owned());
    }
    let filter: String = if clauses.len() == 0 {
        String::new()
    } else {
        text::cat2("WHERE ", join_clauses(&clauses).as_str())
    };
    assert(clauses@.len() == 0 ==> filter@ =~= seq![]);
    (
        text::cat3(
            "SELECT nid, folder_path, subject, sender_name, sender_email, delivered, size, unread, has_attachments FROM messages ",
            filter.as_str(),
            " ORDER BY delivered DESC NULLS LAST",
        ),
        params,
    )
}

/// A search without filters lists everything, and binds nothing.
pub proof fn lemma_search_without_filters(req: SearchRequest)
    requires
        given(req.text) is None,
        given(req.folder) is None,
        req.since is None,
        req.until is None,
        req.with_attachments != Some(true),
    ensures
        search_clauses(req).len() == 0,
        search_params(req).len() == 0,
{
}

/// Two requests that give the same filters are searched with the same statement:
/// what a filter holds is bound as a parameter and never part of the statement.
pub proof fn lemma_statement_holds_no_filter_text(a: SearchRequest, b: SearchRequest)
    requires
        given(a.text) is Some <==> given(b.text) is Some,
        given(a.folder) is Some <==> given(b.folder) is Some,
        a.since is Some <==> b.since is Some,
        a.until is Some <==> b.until is Some,
        a.with_attachments == Some(true) <==> b.with_attachments == Some(true),
    ensures
        search_statement(search_clauses(a)) == search_statement(search_clauses(b)),
{
}

/// Question marks among the first `n` characters.
pub open spec fn marks(s: Seq<char>, n: nat) -> nat
    decreases n,
{
    if n == 0 {
        0
    } else {
        marks(s, (n - 1) as nat) + (if s[n - 1] == '?' {
            1nat
        } else {
            0
        })
    }
}

proof fn lemma_marks_join(a: Seq<char>, b: Seq<char>, n: nat)
    requires
        n <= b.len(),
    ensures
        marks(a + b, a.len() + n) == marks(a, a.len()) + marks(b, n),
    decreases n,
{
    if n > 0 {
        lemma_marks_join(a, b, (n - 1) as nat);
    } else {
        lemma_marks_prefix(a, b, a.len());
    }
}

proof fn lemma_marks_prefix(a: Seq<char>, b: Seq<char>, n: nat)
    requires
        n <= a.len(),
    ensures
        marks(a + b, n) == marks(a, n),
    decreases n,
{
    if n > 0 {
        lemma_marks_prefix(a, b, (n - 1) as nat);
    }
}

proof fn lemma_marks_of_literals()
    ensures
        marks("WHERE "@, "WHERE "@.len()) == 0,
        marks(" AND "@, " AND "@.len()) == 0,
        marks("has_attachments"@, "has_attachments"@.len()) == 0,
        marks("folder_path ILIKE ?"@, "folder_path ILIKE ?"@.len()) == 1,
        marks("delivered >= ?::TIMESTAMP"@, "delivered >= ?::TIMESTAMP"@.len()) == 1,
        marks("delivered < ?::TIMESTAMP"@, "delivered < ?::TIMESTAMP"@.len()) == 1,
{
    reveal_strlit("WHERE ");
    reveal_strlit(" AND ");
    reveal_strlit("has_attachments");
    reveal_strlit("folder_path ILIKE ?");
    reveal_strlit("delivered >= ?::TIMESTAMP");
    reveal_strlit("delivered < ?::TIMESTAMP");
    reveal_with_fuel(marks, 26);
}

proof fn lemma_marks_of_text_condition()
    ensures
        ({
            let c = "(subject ILIKE ? OR sender_name ILIKE ? OR sender_email ILIKE ?)"@;
            marks(c, c.len()) == 3
        }),
{
    reveal_strlit("(subject ILIKE ? OR sender_name ILIKE ? OR sender_email ILIKE ?)");
    reveal_with_fuel(marks, 66);
}

proof fn lemma_marks_of_head()
    ensures
        ({
            let head = "SELECT nid, folder_path, subject, sender_name, sender_email, delivered, size, unread, has_attachments FROM messages "@;
            marks(head, head.len()) == 0
        }),
{
    reveal_strlit(
        "SELECT nid, folder_path, subject, sender_name, sender_email, delivered, size, unread, has_attachments FROM messages ",
    );
    let head = "SELECT nid, folder_path, subject, sender_name, sender_email, delivered, size, unread, has_attachments FROM messages "@;
    reveal_with_fuel(marks, 60);
    assert(marks(head, 58) == 0);
}

proof fn lemma_marks_of_tail()
    ensures
        ({
            let tail = " ORDER BY delivered DESC NULLS LAST"@;
            marks(tail, tail.len()) == 0
        }),
{
    reveal_strlit(" ORDER BY delivered DESC NULLS LAST");
    reveal_with_fuel(marks, 37);
}

/// Conditions have the marks of each of them.
proof fn lemma_marks_of_conjunction(clauses: Seq<Seq<char>>, c: Seq<char>)
    ensures
        ({
            let both = conjunction(clauses.push(c));
            marks(both, both.len()) == marks(conjunction(clauses), conjunction(clauses).len())
                + marks(c, c.len())
        }),
{
    lemma_marks_of_literals();
    let all = clauses.push(c);
    assert(all.drop_last() =~= clauses);
    let front = conjunction(clauses);
    if clauses.len() > 0 {
        lemma_marks_join(front, " AND "@, " AND "@.len());
        lemma_marks_join(front + " AND "@, c, c.len());
    }
}

/// A search binds one parameter for each placeholder of its statement.
pub proof fn lemma_one_parameter_per_placeholder(req: SearchRequest)
    ensures
        ({
            let statement = search_statement(search_clauses(req));
            marks(statement, statement.len()) == search_params(req).len()
        }),
{
    let text = "(subject ILIKE ? OR sender_name ILIKE ? OR sender_email ILIKE ?)"@;
    let none: Seq<Seq<char>> = seq![];
    let a = if given(req.text) is Some {
        seq![text]
    } else {
        none
    };
    let b = if given(req.folder) is Some {
        a.push("folder_path ILIKE ?"@)
    } else {
        a
    };
    let c = if req.since is Some {
        b.push("delivered >= ?::TIMESTAMP"@)
    } else {
        b
    };
    let d = if req.until is Some {
        c.push("delivered < ?::TIMESTAMP"@)
    } else {
        c
    };
    lemma_marks_of_literals();
    lemma_marks_of_text_condition();
    assert(none.push(text) =~= seq![text]);
    lemma_marks_of_conjunction(none, text);
    lemma_marks_of_conjunction(a, "folder_path ILIKE ?"@);
    lemma_marks_of_conjunction(b, "delivered >= ?::TIMESTAMP"@);
    lemma_marks_of_conjunction(c, "delivered < ?::TIMESTAMP"@);
    lemma_marks_of_conjunction(d, "has_attachments"@);
    let clauses = search_clauses(req);
    assert(marks(conjunction(clauses), conjunction(clauses).len()) == search_params(req).len());
    lemma_marks_of_head();
    lemma_marks_of_tail();
    let head = "SELECT nid, folder_path, subject, sender_name, sender_email, delivered, size, unread, has_attachments FROM messages "@;
    let filter = if clauses.len() == 0 {
        seq![]
    } else {
        "WHERE "@ + conjunction(clauses)
    };
    lemma_marks_join("WHERE "@, conjunction(clauses), conjunction(clauses).len());
    lemma_marks_join(head, filter, filter.len());
    let tail = " ORDER BY delivered DESC NULLS LAST"@;
    lemma_marks_join(head + filter, tail, tail.len());
}

/// The parts of a query that a model can name in `sql`.
pub open spec fn table_list() -> Seq<Seq<char>> {
    seq![
        "folders(nid, parent_nid, name, path, item_count, unread_count, has_subfolders, is_search_folder)"@,
        "messages(nid, folder_nid, folder_path, subject, sender_name, sender_email, delivered, submitted, modified, size, unread, has_attachments, message_class)"@,
        "ost_attachments(message_nid => <nid>) -> (message_nid, nid, filename, mime, content_id, declared_size, data_len)"@,
    ]
}

fn tables() -> (r: Vec<String>)
    ensures
        views::views(r@) == table_list(),
{
    let mut v: Vec<String> = Vec::new();
    v.push(
        "folders(nid, parent_nid, name, path, item_count, unread_count, has_subfolders, is_search_folder)".to_owned(),
    );
    v.push(
        "messages(nid, folder_nid, folder_path, subject, sender_name, sender_email, delivered, submitted, modified, size, unread, has_attachments, message_class)".to_owned(),
    );
    v.push(
        "ost_attachments(message_nid => <nid>) -> (message_nid, nid, filename, mime, content_id, declared_size, data_len)".to_owned(),
    );
    assert(views::views(v@) =~= table_list());
    v
}

/// What is mounted: the path, the backend, and the tables that can be queried.
pub fn store_info<M: Mailbox>(store: &M, path: &str) -> (r: Result<StoreInfo, Error>)
    ensures
        exists|
            name: Option<String>,
            kind: &'static str,
            folders: Result<Vec<Folder>, Error>,
        |
            {
                &&& #[trigger] call_ensures(M::display_name, (store,), name)
                &&& #[trigger] call_ensures(M::kind, (store,), kind)
                &&& #[trigger] call_ensures(M::folders, (store,), folders)
                &&& match (folders, r) {
                    (Ok(fs), Ok(info)) => {
                        &&& info.path@ == path@
                        &&& text::opt_text(info.display_name) == text::opt_text(name)
                        &&& info.kind@ == kind@
                        &&& info.folders == fs@.len()
                        &&& views::views(info.tables@) == table_list()
                    },
                    (Err(e), Err(f)) => f@ == e@,
                    _ => false,
                }
            },
{
    let name: Option<String> = store.display_name();
    let kind: &'static str = store.kind();
    let folders: Result<Vec<Folder>, Error> = store.folders();
    let ghost (gn, gk, gf) = (name, kind, folders);
    assert(call_ensures(M::display_name, (store,), gn));
    assert(call_ensures(M::kind, (store,), gk));
    assert(call_ensures(M::folders, (store,), gf));
    match folders {
        Ok(fs) => Ok(
            StoreInfo {
                path: path.to_owned(),
                display_name: name,
                kind: kind.to_owned(),
                folders: fs.len(),
                tables: tables(),
            },
        ),
        Err(e) => Err(e),
    }
}

/// The kind of a recipient in words, or its raw code where there is no word for it.
pub open spec fn recipient_kind(kind: Option<i32>) -> Seq<char> {
    match kind {
        Some(n) => if n == 1 {
            "to"@
        } else if n == 2 {
            "cc"@
        } else if n == 3 {
            "bcc"@
        } else {
            text::signed(n as int)
        },
        None => "None"@,
    }
}

pub open spec fn recipient_in_reply(r: RecipientV) -> RecipientReplyV {
    RecipientReplyV { kind: recipient_kind(r.kind), name: r.name, email: r.email }
}

pub open spec fn attachment_in_reply(a: AttachmentV) -> AttachmentReplyV {
    AttachmentReplyV {
        nid: a.id,
        filename: a.filename,
        mime: a.mime,
        content_id: a.content_id,
        declared_size: a.declared_size,
        data_len: a.data_len,
    }
}

/// The body that is shown and its format. Plain text is preferred: it is what a
/// model can read without markup, and an HTML body is usually the same message.
pub open spec fn shown_body(m: MessageV) -> Option<(Seq<char>, Seq<char>)> {
    match (m.body_plain, m.body_html, m.body_rtf) {
        (Some(p), _, _) => Some(("plain"@, p)),
        (None, Some(h), _) => Some(("html"@, h)),
        (None, None, Some(r)) => Some(("rtf"@, r)),
        (None, None, None) => None,
    }
}

/// The bodies that a message has.
pub open spec fn available(m: MessageV) -> Seq<Seq<char>> {
    let a: Seq<Seq<char>> = if m.body_plain is Some {
        seq!["plain"@]
    } else {
        seq![]
    };
    let b = if m.body_html is Some {
        a.push("html"@)
    } else {
        a
    };
    if m.body_rtf is Some {
        b.push("rtf"@)
    } else {
        b
    }
}

/// A time as it is shown.
pub open spec fn shown_time(us: Option<i64>) -> Option<Seq<char>> {
    match us {
        Some(t) => Some(props::time_text(t as int)),
        None => None,
    }
}

/// The bound that was asked for, or the default.
pub open spec fn cap_or(cap: Option<usize>, default: usize) -> int {
    match cap {
        Some(n) => n as int,
        None => default as int,
    }
}

/// A message as it is reported, its body cut at `cap` characters.
pub open spec fn reported(m: MessageV, cap: int) -> MessageReplyV {
    let body = shown_body(m);
    MessageReplyV {
        nid: m.id,
        subject: m.subject,
        sender_name: m.sender_name,
        sender_email: m.sender_email,
        to: m.display_to,
        cc: m.display_cc,
        delivered: shown_time(m.delivered_us),
        submitted: shown_time(m.submitted_us),
        modified: shown_time(m.modified_us),
        size: m.size,
        unread: m.unread,
        message_class: m.message_class,
        internet_message_id: m.internet_message_id,
        conversation_topic: m.conversation_topic,
        body: match body {
            Some((_, b)) => Some(
                if b.len() > cap {
                    b.take(cap)
                } else {
                    b
                },
            ),
            None => None,
        },
        body_format: match body {
            Some((f, _)) => Some(f),
            None => None,
        },
        body_truncated: body matches Some((_, b)) && b.len() > cap,
        bodies_available: available(m),
        recipients: Seq::new(m.recipients.len(), |i: int| recipient_in_reply(m.recipients[i])),
        attachments: Seq::new(m.attachments.len(), |i: int| attachment_in_reply(m.attachments[i])),
    }
}

/// A reported body is at most as long as asked for, begins the full one, and says
/// whether it was cut.
pub proof fn lemma_report_cuts_the_body(m: MessageV, cap: int)
    requires
        0 <= cap,
    ensures
        reported(m, cap).body matches Some(b) ==> b.len() <= cap && (shown_body(m) matches Some(
            (_, full),
        ) && b == full.take(b.len() as int) && (reported(m, cap).body_truncated <==> b.len()
            < full.len())),
        reported(m, cap).body is Some <==> available(m).len() > 0,
{
    if let Some((_, full)) = shown_body(m) {
        assert(full.take(full.len() as int) =~= full);
        assert(full.len() > cap ==> full.take(cap).len() == cap);
    }
}

fn kind_text(kind: Option<i32>) -> (r: String)
    ensures
        r@ == recipient_kind(kind),
{
    match kind {
        Some(n) => if n == 1 {
            "to".to_owned()
        } else if n == 2 {
            "cc".to_owned()
        } else if n == 3 {
            "bcc".to_owned()
        } else {
            text::signed_string(n as i64)
        },
        None => "None".to_owned(),
    }
}

fn recipient_replies(v: Vec<Recipient>) -> (r: Vec<RecipientReply>)
    ensures
        views::views(r@) == Seq::new(v@.len(), |i: int| recipient_in_reply(views::views(v@)[i])),
{
    let ghost all = Seq::new(v@.len(), |i: int| recipient_in_reply(views::views(v@)[i]));
    let mut out: Vec<RecipientReply> = Vec::new();
    assert(views::views(out@) =~= all.take(0));
    for p in it: v
        invariant
            it.seq() == v@,
            all == Seq::new(v@.len(), |i: int| recipient_in_reply(views::views(v@)[i])),
            views::views(out@) == all.take(it.index()),
    {
        let ghost k = it.index();
        assert(views::views(v@)[k] == p@);
        assert(all.take(k + 1) =~= all.take(k).push(all[k]));
        out.push(RecipientReply { kind: kind_text(p.kind), name: p.name, email: p.email });
    }
    assert(all.take(all.len() as int) =~= all);
    out
}

fn attachment_replies(v: Vec<Attachment>) -> (r: Vec<AttachmentReply>)
    ensures
        views::views(r@) == Seq::new(v@.len(), |i: int| attachment_in_reply(views::views(v@)[i])),
{
    let ghost all = Seq::new(v@.len(), |i: int| attachment_in_reply(views::views(v@)[i]));
    let mut out: Vec<AttachmentReply> = Vec::new();
    assert(views::views(out@) =~= all.take(0));
    for a in it: v
        invariant
            it.seq() == v@,
            all == Seq::new(v@.len(), |i: int| attachment_in_reply(views::views(v@)[i])),
            views::views(out@) == all.take(it.index()),
    {
        let ghost k = it.index();
        assert(views::views(v@)[k] == a@);
        assert(all.take(k + 1) =~= all.take(k).push(all[k]));
        out.push(
            AttachmentReply {
                nid: a.id,
                filename: a.filename,
                mime: a.mime,
                content_id: a.content_id,
                declared_size: a.declared_size,
                data_len: a.data_len,
            },
        );
    }
    assert(all.take(all.len() as int) =~= all);
    out
}

fn time_shown(us: Option<i64>) -> (r: Option<String>)
    ensures
        text::opt_text(r) == shown_time(us),
{
    match us {
        Some(t) => Some(format_time_us(t)),
        None => None,
    }
}

fn list_bodies(m: &Message) -> (r: Vec<String>)
    ensures
        views::views(r@) == available(m@),
{
    let mut out: Vec<String> = Vec::new();
    assert(views::views(out@) =~= seq![]);
    if m.body_plain.is_some() {
        out.push("plain".to_owned());
        assert(views::views(out@) =~= seq!["plain"@]);
    }
    if m.body_html.is_some() {
        out.push("html".to_owned());
    }
    if m.body_rtf.is_some() {
        out.push("rtf".to_owned());
    }
    out
}

/// Report a message, its body cut at `max_body_chars` characters.
pub fn report_of(m: Message, max_body_chars: Option<usize>) -> (r: MessageReply)
    ensures
        r@ == reported(m@, cap_or(max_body_chars, DEFAULT_BODY_CHARS)),
{
    let ghost want = reported(m@, cap_or(max_body_chars, DEFAULT_BODY_CHARS));
    let cap: usize = match max_body_chars {
        Some(n) => n,
        None => DEFAULT_BODY_CHARS,
    };
    let bodies_available: Vec<String> = list_bodies(&m);
    let (body_format, full): (Option<String>, Option<String>) = match (
        m.body_plain,
        m.body_html,
        m.body_rtf,
    ) {
        (Some(p), _, _) => (Some("plain".to_owned()), Some(p)),
        (None, Some(h), _) => (Some("html".to_owned()), Some(h)),
        (None, None, Some(t)) => (Some("rtf".to_owned()), Some(t)),
        (None, None, None) => (None, None),
    };
    let mut body_truncated: bool = false;
    let body: Option<String> = match full {
        Some(b) => {
            let cs: Vec<char> = text::chars_of(b.as_str());
            if cs.len() > cap {
                body_truncated = true;
                assert(cs@.subrange(0, cap as int) =~= cs@.take(cap as int));
                Some(text::string_range(cs.as_slice(), 0, cap))
            } else {
                Some(b)
            }
        },
        None => None,
    };
    let reply: MessageReply = MessageReply {
        nid: m.id,
        subject: m.subject,
        sender_name: m.sender_name,
        sender_email: m.sender_email,
        to: m.display_to,
        cc: m.display_cc,
        delivered: time_shown(m.delivered_us),
        submitted: time_shown(m.submitted_us),
        modified: time_shown(m.modified_us),
        size: m.size,
        unread: m.unread,
        message_class: m.message_class,
        internet_message_id: m.internet_message_id,
        conversation_topic: m.conversation_topic,
        body,
        body_format,
        body_truncated,
        bodies_available,
        recipients: recipient_replies(m.recipients),
        attachments: attachment_replies(m.attachments),
    };
    proof {
        assert(reply@.recipients =~= want.recipients);
        assert(reply@.attachments =~= want.attachments);
        assert(reply@.body == want.body);
    }
    reply
}

/// One message in full, including its body.
pub fn message_report<M: Mailbox>(store: &M, nid: i64, max_body_chars: Option<usize>) -> (r: Result<
    MessageReply,
    Error,
>)
    ensures
        exists|got: Result<Message, Error>|
            #[trigger] call_ensures(M::message, (store, nid), got) && match (got, r) {
                (Ok(m), Ok(reply)) => reply@ == reported(
                    m@,
                    cap_or(max_body_chars, DEFAULT_BODY_CHARS),
                ),
                (Err(e), Err(f)) => f@ == e@,
                _ => false,
            },
{
    let got: Result<Message, Error> = store.message(nid);
    let ghost g = got;
    assert(call_ensures(M::message, (store, nid), g));
    match got {
        Ok(m) => Ok(report_of(m, max_body_chars)),
        Err(e) => Err(e),
    }
}

/// Attachment metadata for one message, without reading any payload.
pub fn attachment_list<M: Mailbox>(store: &M, nid: i64) -> (r: Result<Vec<AttachmentReply>, Error>)
    ensures
        exists|got: Result<Vec<Attachment>, Error>|
            #[trigger] call_ensures(M::attachments, (store, nid), got) && match (got, r) {
                (Ok(list), Ok(reply)) => views::views(reply@) == Seq::new(
                    list@.len(),
                    |i: int| attachment_in_reply(views::views(list@)[i]),
                ),
                (Err(e), Err(f)) => f@ == e@,
                _ => false,
            },
{
    let got: Result<Vec<Attachment>, Error> = store.attachments(nid);
    let ghost g = got;
    assert(call_ensures(M::attachments, (store, nid), g));
    match got {
        Ok(list) => Ok(attachment_replies(list)),
        Err(e) => Err(e),
    }
}

/// The first attachment with this id from position `i` on.
pub open spec fn attachment_from(list: Seq<AttachmentV>, id: i64, i: int) -> Option<AttachmentV>
    decreases list.len() - i,
{
    if i < 0 || i >= list.len() {
        None
    } else if list[i].id == id {
        Some(list[i])
    } else {
        attachment_from(list, id, i + 1)
    }
}

/// Calls `std::str::from_utf8`: the text that the bytes encode, if they are valid
/// UTF-8, and nothing otherwise.
#[verifier::external_body]
fn from_utf8(b: &[u8]) -> (r: Option<String>)
    ensures
        match r {
            Some(s) => vstd::utf8::valid_utf8(b@) && s@ == vstd::utf8::decode_utf8(b@),
            None => !vstd::utf8::valid_utf8(b@),
        },
{
    match std::str::from_utf8(b) {
        Ok(s) => Some(s.to_string()),
        Err(_) => None,
    }
}

/// Whether bytes are shown as text: valid UTF-8 without a NUL.
pub open spec fn is_text(b: Seq<u8>) -> bool {
    vstd::utf8::valid_utf8(b) && !vstd::utf8::decode_utf8(b).contains('\0')
}

/// What a payload reply holds, given the payload and what is known of its
/// attachment.
pub open spec fn payload_reply(
    r: AttachmentDataReply,
    message_nid: i64,
    attachment_nid: i64,
    meta: Option<AttachmentV>,
    bytes: Seq<u8>,
    cap: int,
) -> bool {
    let returned = if bytes.len() > cap {
        bytes.take(cap)
    } else {
        bytes
    };
    &&& r.message_nid == message_nid
    &&& r.attachment_nid == attachment_nid
    &&& text::opt_text(r.filename) == match meta {
        Some(m) => m.filename,
        None => None,
    }
    &&& text::opt_text(r.mime) == match meta {
        Some(m) => m.mime,
        None => None,
    }
    &&& r.total_bytes == bytes.len()
    &&& r.returned_bytes == returned.len()
    &&& r.truncated == (bytes.len() > cap)
    &&& text::opt_text(r.text) == if is_text(returned) {
        Some(vstd::utf8::decode_utf8(returned))
    } else {
        None
    }
    &&& text::opt_text(r.base64) == if is_text(returned) {
        None
    } else {
        Some(b64::encoded(returned, b64::padding_for(returned.len())))
    }
}

/// A payload reply carries exactly the bytes that it says it returns: either as
/// text whose UTF-8 they are, or as base64 that stands for them and for no others.
pub proof fn lemma_reply_carries_the_payload(
    r: AttachmentDataReply,
    message_nid: i64,
    attachment_nid: i64,
    meta: Option<AttachmentV>,
    bytes: Seq<u8>,
    cap: int,
)
    requires
        payload_reply(r, message_nid, attachment_nid, meta, bytes, cap),
        0 <= cap,
    ensures
        ({
            let returned = bytes.take(r.returned_bytes as int);
            &&& r.returned_bytes <= cap
            &&& r.returned_bytes <= bytes.len()
            &&& !r.truncated ==> returned == bytes
            &&& (r.text is Some) != (r.base64 is Some)
            &&& r.text matches Some(t) ==> vstd::utf8::encode_utf8(t@) == returned
            &&& r.base64 matches Some(t) ==> forall|b: Seq<u8>|
                #[trigger] b64::stands_for(t@, b) <==> b == returned
        }),
{
    let returned = if bytes.len() > cap {
        bytes.take(cap)
    } else {
        bytes
    };
    assert(bytes.take(r.returned_bytes as int) =~= returned);
    if is_text(returned) {
        vstd::utf8::decode_utf8_encode_utf8(returned);
    } else {
        let t = b64::encoded(returned, b64::padding_for(returned.len()));
        b64::lemma_base64_round_trip(returned);
        assert forall|b: Seq<u8>| #[trigger] b64::stands_for(t, b) <==> b == returned by {
            if b64::stands_for(t, b) {
                b64::lemma_base64_unique(t, b, returned);
            }
        }
    }
}

/// Reply with a payload, cut at `max_bytes` bytes. Cutting can split a multi-byte
/// character, so a cut payload is only reported as text when the cut lands on a
/// boundary.
pub fn data_reply(
    message_nid: i64,
    attachment_nid: i64,
    meta: Option<Attachment>,
    bytes: Vec<u8>,
    max_bytes: Option<usize>,
) -> (r: AttachmentDataReply)
    ensures
        payload_reply(
            r,
            message_nid,
            attachment_nid,
            match meta {
                Some(m) => Some(m@),
                None => None,
            },
            bytes@,
            cap_or(max_bytes, DEFAULT_ATTACH_BYTES),
        ),
{
    let cap: usize = match max_bytes {
        Some(n) => n,
        None => DEFAULT_ATTACH_BYTES,
    };
    let total: usize = bytes.len();
    let end: usize = if total > cap {
        cap
    } else {
        total
    };
    let slice: &[u8] = vstd::slice::slice_subrange(bytes.as_slice(), 0, end);
    assert(total > cap ==> slice@ =~= bytes@.take(cap as int));
    assert(total <= cap ==> slice@ =~= bytes@);
    let mut shown: Option<String> = None;
    if let Some(s) = from_utf8(slice) {
        if !text::contains_char(text::chars_of(s.as_str()).as_slice(), '\0') {
            shown = Some(s);
        }
    }
    let encoded: Option<String> = if shown.is_some() {
        None
    } else {
        Some(b64::encode(slice))
    };
    let returned_bytes: usize = slice.len();
    let (filename, mime) = match meta {
        Some(m) => (m.filename, m.mime),
        None => (None, None),
    };
    AttachmentDataReply {
        message_nid,
        attachment_nid,
        filename,
        mime,
        total_bytes: total,
        returned_bytes,
        truncated: total > cap,
        text: shown,
        base64: encoded,
    }
}

fn find_attachment(list: Vec<Attachment>, id: i64) -> (r: Option<Attachment>)
    ensures
        match r {
            Some(a) => attachment_from(views::views(list@), id, 0) == Some(a@),
            None => attachment_from(views::views(list@), id, 0) is None,
        },
{
    let ghost all = views::views(list@);
    for a in it: list
        invariant
            it.seq() == list@,
            all == views::views(list@),
            attachment_from(all, id, it.index()) == attachment_from(all, id, 0),
    {
        assert(all[it.index()] == a@);
        if a.id == id {
            return Some(a);
        }
    }
    None
}

/// One attachment's bytes, as text when they are text.
pub fn attachment_data<M: Mailbox>(
    store: &M,
    message_nid: i64,
    attachment_nid: i64,
    max_bytes: Option<usize>,
) -> (r: Result<AttachmentDataReply, Error>)
    ensures
        exists|got: Result<Vec<Attachment>, Error>|
            #[trigger] call_ensures(M::attachments, (store, message_nid), got) && match got {
                Err(e) => r matches Err(f) && f@ == e@,
                Ok(list) => exists|data: Result<Vec<u8>, Error>|
                    #[trigger] call_ensures(
                        M::attachment_bytes,
                        (store, message_nid, attachment_nid),
                        data,
                    ) && match (data, r) {
                        (Ok(b), Ok(reply)) => payload_reply(
                            reply,
                            message_nid,
                            attachment_nid,
                            attachment_from(views::views(list@), attachment_nid, 0),
                            b@,
                            cap_or(max_bytes, DEFAULT_ATTACH_BYTES),
                        ),
                        (Err(e), Err(f)) => f@ == e@,
                        _ => false,
                    },
            },
{
    let got: Result<Vec<Attachment>, Error> = store.attachments(message_nid);
    let ghost g = got;
    assert(call_ensures(M::attachments, (store, message_nid), g));
    let list: Vec<Attachment> = match got {
        Ok(list) => list,
        Err(e) => {
            return Err(e);
        },
    };
    let meta: Option<Attachment> = find_attachment(list, attachment_nid);
    let data: Result<Vec<u8>, Error> = store.attachment_bytes(message_nid, attachment_nid);
    let ghost d = data;
    assert(call_ensures(M::attachment_bytes, (store, message_nid, attachment_nid), d));
    match data {
        Ok(b) => Ok(data_reply(message_nid, attachment_nid, meta, b, max_bytes)),
        Err(e) => Err(e),
    }
}

/// What a tool answers where it fails.
#[derive(Debug)]
pub enum ToolError {
    /// The caller's mistake.
    BadRequest(String),
    /// The server's.
    Internal(String),
}

/// What a tool answers to an error: a missing node is the caller's mistake, not
/// the server's.
pub fn tool_error(e: Error) -> (r: ToolError)
    ensures
        match (e@, r) {
            (ErrorV::NotFound(m), ToolError::BadRequest(t)) => t@ == m,
            (ErrorV::NotFound(_), _) => false,
            (other, ToolError::Internal(t)) => t@ == other.shown(),
            _ => false,
        },
{
    match e {
        Error::NotFound(m) => ToolError::BadRequest(m),
        other => ToolError::Internal(other.display()),
    }
}

} // verus!
