//! The tables over a mounted [`Mailbox`]: what columns they have, what rows, and in
//! what chunks the rows are handed out.
//!
//! What gets materialised is only the *row metadata* a query needs: folder entries
//! and message rows are cheap, so they are collected at the start and handed back
//! in chunk-sized slices. Bodies and attachment payloads are never touched here.

use vstd::prelude::*;
use crate::mailbox::{
    Attachment,
    AttachmentV,
    Error,
    Folder,
    FolderV,
    Mailbox,
    MessageRow,
    MessageRowV,
};
use crate::laws::tables;
use crate::text;
use crate::views;

verus! {

broadcast use views::lemma_views_push;

/// The type of a column.
#[derive(Clone, Copy, Debug, PartialEq, Eq, Structural)]
pub enum ColumnType {
    Varchar,
    Bigint,
    Boolean,
    /// Microseconds since the Unix epoch.
    Timestamp,
}

/// A column of a table.
#[derive(Clone, Copy, Debug)]
pub struct Column {
    pub name: &'static str,
    pub ty: ColumnType,
}

/// A cell of a table. An absent value is a NULL rather than an empty string or a
/// zero: "this store carries no such column" and "this message has an empty
/// subject" are different facts.
#[derive(Clone, Debug)]
pub enum Cell {
    Text(Option<String>),
    Int(Option<i64>),
    Bool(Option<bool>),
}

/// A cell with its text as a sequence of characters.
pub enum CellV {
    Text(Option<Seq<char>>),
    Int(Option<i64>),
    Bool(Option<bool>),
}

impl View for Cell {
    type V = CellV;

    open spec fn view(&self) -> CellV {
        match *self {
            Cell::Text(s) => CellV::Text(text::opt_text(s)),
            Cell::Int(n) => CellV::Int(n),
            Cell::Bool(b) => CellV::Bool(b),
        }
    }
}

impl CellV {
    /// Whether a cell can stand in a column of this type.
    pub open spec fn fits(self, ty: ColumnType) -> bool {
        match ty {
            ColumnType::Varchar => self is Text,
            ColumnType::Bigint => self is Int,
            ColumnType::Timestamp => self is Int,
            ColumnType::Boolean => self is Bool,
        }
    }
}

/// Whether the cells of a row stand in columns of their types.
pub open spec fn row_fits(row: Seq<CellV>, columns: Seq<Column>) -> bool {
    row.len() == columns.len() && forall|i: int|
        0 <= i < row.len() ==> (#[trigger] row[i]).fits(columns[i].ty)
}

/// The names and types of a list of columns.
pub open spec fn column_list(columns: Seq<Column>) -> Seq<(Seq<char>, ColumnType)> {
    Seq::new(columns.len(), |i: int| (columns[i].name@, columns[i].ty))
}

/// The part of the rows from `start` on that fits in a chunk: where it ends.
pub open spec fn chunk_end(start: int, len: int, capacity: int) -> int {
    if start >= len {
        len
    } else if start + capacity < len {
        start + capacity
    } else {
        len
    }
}

/// Where the next chunk ends. An empty chunk is how a table signals that it has
/// finished.
pub fn next_end(start: usize, len: usize, capacity: usize) -> (r: usize)
    requires
        start <= len,
    ensures
        r == chunk_end(start as int, len as int, capacity as int),
        start <= r <= len,
{
    if len - start <= capacity {
        len
    } else {
        start + capacity
    }
}

/// The cells of each row.
pub open spec fn row_cells(rows: Seq<Vec<Cell>>) -> Seq<Seq<CellV>> {
    Seq::new(rows.len(), |i: int| views::views(rows[i]@))
}

/// The rows from `start` to `end`, as the cells that `cells_of` makes of each.
fn cut<T, F: Fn(&T) -> Vec<Cell>>(
    rows: &Vec<T>,
    start: usize,
    end: usize,
    cells_of: F,
    Ghost(row): Ghost<spec_fn(T) -> Seq<CellV>>,
) -> (r: Vec<Vec<Cell>>)
    requires
        start <= end <= rows@.len(),
        forall|x: &T| #[trigger] call_requires(cells_of, (x,)),
        forall|x: &T, c: Vec<Cell>| #[trigger]
            call_ensures(cells_of, (x,), c) ==> views::views(c@) == row(*x),
    ensures
        row_cells(r@) == Seq::new((end - start) as nat, |i: int| row(rows@[start + i])),
{
    let ghost want = Seq::new((end - start) as nat, |i: int| row(rows@[start + i]));
    let mut out: Vec<Vec<Cell>> = Vec::new();
    let mut i: usize = start;
    assert(row_cells(out@) =~= want.take(0));
    while i < end
        invariant
            start <= i <= end <= rows@.len(),
            forall|x: &T| #[trigger] call_requires(cells_of, (x,)),
            forall|x: &T, c: Vec<Cell>| #[trigger]
                call_ensures(cells_of, (x,), c) ==> views::views(c@) == row(*x),
            want == Seq::new((end - start) as nat, |k: int| row(rows@[start + k])),
            row_cells(out@) == want.take(i - start),
        decreases end - i,
    {
        let cells: Vec<Cell> = cells_of(&rows[i]);
        let ghost before = row_cells(out@);
        let ghost added = views::views(cells@);
        out.push(cells);
        proof {
            assert(row_cells(out@) =~= before.push(added));
            assert(want.take(i + 1 - start) =~= want.take(i - start).push(want[i - start]));
        }
        i = i + 1;
    }
    assert(want.take(i - start) =~= want);
    out
}

fn text_cell(s: &Option<String>) -> (r: Cell)
    ensures
        r@ == CellV::Text(text::opt_text(*s)),
{
    match s {
        Some(t) => Cell::Text(Some(t.clone())),
        None => Cell::Text(None),
    }
}

fn name_cell(s: &String) -> (r: Cell)
    ensures
        r@ == CellV::Text(Some(s@)),
{
    Cell::Text(Some(s.clone()))
}

/// The table of folders.
pub struct Folders;

/// The columns of the folder table.
pub open spec fn folder_columns() -> Seq<(Seq<char>, ColumnType)> {
    seq![
        ("nid"@, ColumnType::Bigint),
        ("parent_nid"@, ColumnType::Bigint),
        ("name"@, ColumnType::Varchar),
        ("path"@, ColumnType::Varchar),
        ("item_count"@, ColumnType::Bigint),
        ("unread_count"@, ColumnType::Bigint),
        ("has_subfolders"@, ColumnType::Boolean),
        ("is_search_folder"@, ColumnType::Boolean),
    ]
}

/// A folder as a row.
pub open spec fn folder_row(f: FolderV) -> Seq<CellV> {
    seq![
        CellV::Int(Some(f.id)),
        CellV::Int(f.parent_id),
        CellV::Text(f.name),
        CellV::Text(Some(f.path)),
        CellV::Int(f.item_count),
        CellV::Int(f.unread_count),
        CellV::Bool(Some(f.has_subfolders)),
        CellV::Bool(Some(f.is_search_folder)),
    ]
}

impl Folders {
    pub fn columns() -> (r: Vec<Column>)
        ensures
            column_list(r@) == folder_columns(),
    {
        let v: Vec<Column> = vec![
            Column { name: "nid", ty: ColumnType::Bigint },
            Column { name: "parent_nid", ty: ColumnType::Bigint },
            Column { name: "name", ty: ColumnType::Varchar },
            Column { name: "path", ty: ColumnType::Varchar },
            Column { name: "item_count", ty: ColumnType::Bigint },
            Column { name: "unread_count", ty: ColumnType::Bigint },
            Column { name: "has_subfolders", ty: ColumnType::Boolean },
            Column { name: "is_search_folder", ty: ColumnType::Boolean },
        ];
        assert(column_list(v@) =~= folder_columns());
        v
    }

    fn cells(f: &Folder) -> (r: Vec<Cell>)
        ensures
            views::views(r@) == folder_row(f@),
    {
        let v: Vec<Cell> = vec![
            Cell::Int(Some(f.id)),
            Cell::Int(f.parent_id),
            text_cell(&f.name),
            name_cell(&f.path),
            Cell::Int(f.item_count),
            Cell::Int(f.unread_count),
            Cell::Bool(Some(f.has_subfolders)),
            Cell::Bool(Some(f.is_search_folder)),
        ];
        assert(views::views(v@) =~= folder_row(f@));
        v
    }
}

/// The folders of a query, and how many have been handed out.
pub struct FoldersInit {
    pub rows: Vec<Folder>,
    pub cursor: usize,
}

impl FoldersInit {
    pub open spec fn wf(&self) -> bool {
        self.cursor <= self.rows@.len()
    }

    pub fn new(rows: Vec<Folder>) -> (r: FoldersInit)
        ensures
            r.wf(),
            r.rows@ == rows@,
            r.cursor == 0,
    {
        FoldersInit { rows, cursor: 0 }
    }

    /// The next rows, as many as a chunk holds; none once all have been handed out.
    pub fn chunk(&mut self, capacity: usize) -> (r: Vec<Vec<Cell>>)
        requires
            old(self).wf(),
        ensures
            final(self).wf(),
            final(self).rows@ == old(self).rows@,
            final(self).cursor == chunk_end(
                old(self).cursor as int,
                old(self).rows@.len() as int,
                capacity as int,
            ),
            row_cells(r@) == Seq::new(
                (final(self).cursor - old(self).cursor) as nat,
                |i: int| folder_row(old(self).rows@[old(self).cursor + i]@),
            ),
            forall|i: int|
                0 <= i < r@.len() ==> tables::is_folder_row(
                    #[trigger] r@[i]@,
                    old(self).rows@[old(self).cursor + i],
                ),
    {
        let start: usize = self.cursor;
        let end: usize = next_end(start, self.rows.len(), capacity);
        self.cursor = end;
        let chunk: Vec<Vec<Cell>> = cut(&self.rows, start, end, Folders::cells, Ghost(|x: Folder| folder_row(x@)));
        proof {
            let rows = self.rows@;
            assert(row_cells(chunk@).len() == chunk@.len());
            assert forall|i: int| 0 <= i < chunk@.len() implies tables::is_folder_row(
                #[trigger] chunk@[i]@,
                rows[start + i],
            ) by {
                assert(row_cells(chunk@)[i] == views::views(chunk@[i]@));
                tables::lemma_folder_row(chunk@[i]@, rows[start + i]);
            }
        }
        chunk
    }
}

/// The table of messages.
pub struct Messages;

/// The columns of the message table.
pub open spec fn message_columns() -> Seq<(Seq<char>, ColumnType)> {
    seq![
        ("nid"@, ColumnType::Bigint),
        ("folder_nid"@, ColumnType::Bigint),
        ("folder_path"@, ColumnType::Varchar),
        ("subject"@, ColumnType::Varchar),
        ("sender_name"@, ColumnType::Varchar),
        ("sender_email"@, ColumnType::Varchar),
        ("delivered"@, ColumnType::Timestamp),
        ("submitted"@, ColumnType::Timestamp),
        ("modified"@, ColumnType::Timestamp),
        ("size"@, ColumnType::Bigint),
        ("unread"@, ColumnType::Boolean),
        ("has_attachments"@, ColumnType::Boolean),
        ("message_class"@, ColumnType::Varchar),
    ]
}

/// A message with the path of its folder as a row.
pub open spec fn message_row(path: Seq<char>, m: MessageRowV) -> Seq<CellV> {
    seq![
        CellV::Int(Some(m.id)),
        CellV::Int(Some(m.folder_id)),
        CellV::Text(Some(path)),
        CellV::Text(m.subject),
        CellV::Text(m.sender_name),
        CellV::Text(m.sender_email),
        CellV::Int(m.delivered_us),
        CellV::Int(m.submitted_us),
        CellV::Int(m.modified_us),
        CellV::Int(m.size),
        CellV::Bool(m.unread),
        CellV::Bool(m.has_attachments),
        CellV::Text(m.message_class),
    ]
}

impl Messages {
    pub fn columns() -> (r: Vec<Column>)
        ensures
            column_list(r@) == message_columns(),
    {
        let v: Vec<Column> = vec![
            Column { name: "nid", ty: ColumnType::Bigint },
            Column { name: "folder_nid", ty: ColumnType::Bigint },
            Column { name: "folder_path", ty: ColumnType::Varchar },
            Column { name: "subject", ty: ColumnType::Varchar },
            Column { name: "sender_name", ty: ColumnType::Varchar },
            Column { name: "sender_email", ty: ColumnType::Varchar },
            Column { name: "delivered", ty: ColumnType::Timestamp },
            Column { name: "submitted", ty: ColumnType::Timestamp },
            Column { name: "modified", ty: ColumnType::Timestamp },
            Column { name: "size", ty: ColumnType::Bigint },
            Column { name: "unread", ty: ColumnType::Boolean },
            Column { name: "has_attachments", ty: ColumnType::Boolean },
            Column { name: "message_class", ty: ColumnType::Varchar },
        ];
        assert(column_list(v@) =~= message_columns());
        v
    }

    fn cells(row: &(String, MessageRow)) -> (r: Vec<Cell>)
        ensures
            views::views(r@) == message_row(row.0@, row.1@),
    {
        let m: &MessageRow = &row.1;
        let v: Vec<Cell> = vec![
            Cell::Int(Some(m.id)),
            Cell::Int(Some(m.folder_id)),
            name_cell(&row.0),
            text_cell(&m.subject),
            text_cell(&m.sender_name),
            text_cell(&m.sender_email),
            Cell::Int(m.delivered_us),
            Cell::Int(m.submitted_us),
            Cell::Int(m.modified_us),
            Cell::Int(m.size),
            Cell::Bool(m.unread),
            Cell::Bool(m.has_attachments),
            text_cell(&m.message_class),
        ];
        assert(views::views(v@) =~= message_row(row.0@, row.1@));
        v
    }
}

/// The messages of a query, each with the path of its folder, so that a query can
/// filter by folder without a join; and how many have been handed out.
pub struct MessagesInit {
    pub rows: Vec<(String, MessageRow)>,
    pub cursor: usize,
}

impl MessagesInit {
    pub open spec fn wf(&self) -> bool {
        self.cursor <= self.rows@.len()
    }

    pub fn new(rows: Vec<(String, MessageRow)>) -> (r: MessagesInit)
        ensures
            r.wf(),
            r.rows@ == rows@,
            r.cursor == 0,
    {
        MessagesInit { rows, cursor: 0 }
    }

    /// The next rows, as many as a chunk holds; none once all have been handed out.
    pub fn chunk(&mut self, capacity: usize) -> (r: Vec<Vec<Cell>>)
        requires
            old(self).wf(),
        ensures
            final(self).wf(),
            final(self).rows@ == old(self).rows@,
            final(self).cursor == chunk_end(
                old(self).cursor as int,
                old(self).rows@.len() as int,
                capacity as int,
            ),
            row_cells(r@) == Seq::new(
                (final(self).cursor - old(self).cursor) as nat,
                |i: int|
                    message_row(
                        old(self).rows@[old(self).cursor + i].0@,
                        old(self).rows@[old(self).cursor + i].1@,
                    ),
            ),
            forall|i: int|
                0 <= i < r@.len() ==> tables::is_message_row(
                    #[trigger] r@[i]@,
                    old(self).rows@[old(self).cursor + i],
                ),
    {
        let start: usize = self.cursor;
        let end: usize = next_end(start, self.rows.len(), capacity);
        self.cursor = end;
        let chunk: Vec<Vec<Cell>> = cut(&self.rows, start, end, Messages::cells, Ghost(|x: (String, MessageRow)| message_row(x.0@, x.1@)));
        proof {
            let rows = self.rows@;
            assert(row_cells(chunk@).len() == chunk@.len());
            assert forall|i: int| 0 <= i < chunk@.len() implies tables::is_message_row(
                #[trigger] chunk@[i]@,
                rows[start + i],
            ) by {
                assert(row_cells(chunk@)[i] == views::views(chunk@[i]@));
                tables::lemma_message_row(chunk@[i]@, rows[start + i]);
            }
        }
        chunk
    }
}

/// The table of attachments.
pub struct Attachments;

/// The columns of the attachment table.
pub open spec fn attachment_columns() -> Seq<(Seq<char>, ColumnType)> {
    seq![
        ("message_nid"@, ColumnType::Bigint),
        ("nid"@, ColumnType::Bigint),
        ("filename"@, ColumnType::Varchar),
        ("mime"@, ColumnType::Varchar),
        ("content_id"@, ColumnType::Varchar),
        ("declared_size"@, ColumnType::Bigint),
        ("data_len"@, ColumnType::Bigint),
    ]
}

/// A length as a cell: the 64-bit pattern read as a signed number.
pub open spec fn len_cell(n: Option<nat>) -> CellV {
    match n {
        Some(k) => if k < 0x8000_0000_0000_0000 {
            CellV::Int(Some(k as i64))
        } else {
            CellV::Int(Some((k - 0x1_0000_0000_0000_0000) as i64))
        },
        None => CellV::Int(None),
    }
}

fn length_cell(n: Option<usize>) -> (r: Cell)
    ensures
        r@ == len_cell(
            match n {
                Some(k) => Some(k as nat),
                None => None,
            },
        ),
{
    match n {
        Some(k) => if (k as u64) < 0x8000_0000_0000_0000 {
            Cell::Int(Some(k as i64))
        } else {
            Cell::Int(Some((k as i128 - 0x1_0000_0000_0000_0000) as i64))
        },
        None => Cell::Int(None),
    }
}

/// An attachment of a message as a row.
pub open spec fn attachment_row(message: i64, a: AttachmentV) -> Seq<CellV> {
    seq![
        CellV::Int(Some(message)),
        CellV::Int(Some(a.id)),
        CellV::Text(a.filename),
        CellV::Text(a.mime),
        CellV::Text(a.content_id),
        CellV::Int(a.declared_size),
        len_cell(a.data_len),
    ]
}

impl Attachments {
    pub fn columns() -> (r: Vec<Column>)
        ensures
            column_list(r@) == attachment_columns(),
    {
        let v: Vec<Column> = vec![
            Column { name: "message_nid", ty: ColumnType::Bigint },
            Column { name: "nid", ty: ColumnType::Bigint },
            Column { name: "filename", ty: ColumnType::Varchar },
            Column { name: "mime", ty: ColumnType::Varchar },
            Column { name: "content_id", ty: ColumnType::Varchar },
            Column { name: "declared_size", ty: ColumnType::Bigint },
            Column { name: "data_len", ty: ColumnType::Bigint },
        ];
        assert(column_list(v@) =~= attachment_columns());
        v
    }

    fn cells(row: &(i64, Attachment)) -> (r: Vec<Cell>)
        ensures
            views::views(r@) == attachment_row(row.0, row.1@),
    {
        let a: &Attachment = &row.1;
        let v: Vec<Cell> = vec![
            Cell::Int(Some(row.0)),
            Cell::Int(Some(a.id)),
            text_cell(&a.filename),
            text_cell(&a.mime),
            text_cell(&a.content_id),
            Cell::Int(a.declared_size),
            length_cell(a.data_len),
        ];
        assert(views::views(v@) =~= attachment_row(row.0, row.1@));
        v
    }
}

/// The attachments of a query, each with the id of its message; and how many have
/// been handed out.
pub struct AttachmentsInit {
    pub rows: Vec<(i64, Attachment)>,
    pub cursor: usize,
}

impl AttachmentsInit {
    pub open spec fn wf(&self) -> bool {
        self.cursor <= self.rows@.len()
    }

    pub fn new(rows: Vec<(i64, Attachment)>) -> (r: AttachmentsInit)
        ensures
            r.wf(),
            r.rows@ == rows@,
            r.cursor == 0,
    {
        AttachmentsInit { rows, cursor: 0 }
    }

    /// The next rows, as many as a chunk holds; none once all have been handed out.
    pub fn chunk(&mut self, capacity: usize) -> (r: Vec<Vec<Cell>>)
        requires
            old(self).wf(),
        ensures
            final(self).wf(),
            final(self).rows@ == old(self).rows@,
            final(self).cursor == chunk_end(
                old(self).cursor as int,
                old(self).rows@.len() as int,
                capacity as int,
            ),
            row_cells(r@) == Seq::new(
                (final(self).cursor - old(self).cursor) as nat,
                |i: int|
                    attachment_row(
                        old(self).rows@[old(self).cursor + i].0,
                        old(self).rows@[old(self).cursor + i].1@,
                    ),
            ),
            forall|i: int|
                0 <= i < r@.len() ==> tables::is_attachment_row(
                    #[trigger] r@[i]@,
                    old(self).rows@[old(self).cursor + i],
                ),
    {
        let start: usize = self.cursor;
        let end: usize = next_end(start, self.rows.len(), capacity);
        self.cursor = end;
        let chunk: Vec<Vec<Cell>> = cut(&self.rows, start, end, Attachments::cells, Ghost(|x: (i64, Attachment)| attachment_row(x.0, x.1@)));
        proof {
            let rows = self.rows@;
            assert(row_cells(chunk@).len() == chunk@.len());
            assert forall|i: int| 0 <= i < chunk@.len() implies tables::is_attachment_row(
                #[trigger] chunk@[i]@,
                rows[start + i],
            ) by {
                assert(row_cells(chunk@)[i] == views::views(chunk@[i]@));
                tables::lemma_attachment_row(chunk@[i]@, rows[start + i]);
            }
        }
        chunk
    }
}

/// Every row stands in columns of its types: the tables are well typed whatever
/// the mailbox holds.
pub proof fn lemma_rows_fit_their_columns(
    f: FolderV,
    path: Seq<char>,
    m: MessageRowV,
    message: i64,
    a: AttachmentV,
    columns: Seq<Column>,
)
    ensures
        column_list(columns) == folder_columns() ==> row_fits(folder_row(f), columns),
        column_list(columns) == message_columns() ==> row_fits(message_row(path, m), columns),
        column_list(columns) == attachment_columns() ==> row_fits(
            attachment_row(message, a),
            columns,
        ),
{
    let list = column_list(columns);
    assert(list.len() == columns.len());
    assert(forall|i: int| 0 <= i < columns.len() ==> columns[i].ty == (#[trigger] list[i]).1);
    if list == folder_columns() {
        assert(folder_columns().len() == 8);
        assert(columns.len() == 8);
        let row = folder_row(f);
        assert forall|i: int| 0 <= i < row.len() implies (#[trigger] row[i]).fits(columns[i].ty) by {
            assert(columns[i].ty == list[i].1);
        }
    }
    if list == message_columns() {
        assert(message_columns().len() == 13);
        assert(columns.len() == 13);
        let row = message_row(path, m);
        assert forall|i: int| 0 <= i < row.len() implies (#[trigger] row[i]).fits(columns[i].ty) by {
            assert(columns[i].ty == list[i].1);
        }
    }
    if list == attachment_columns() {
        assert(attachment_columns().len() == 7);
        assert(columns.len() == 7);
        let row = attachment_row(message, a);
        assert forall|i: int| 0 <= i < row.len() implies (#[trigger] row[i]).fits(columns[i].ty) by {
            assert(columns[i].ty == list[i].1);
        }
    }
}

/// The messages of a folder list, each with the path of its folder: what asking for
/// each folder's messages gave. A search folder is not asked, and a folder whose
/// messages could not be read adds none.
pub open spec fn swept(
    folders: Seq<FolderV>,
    answers: Seq<Option<Seq<MessageRowV>>>,
) -> Seq<(Seq<char>, MessageRowV)>
    decreases folders.len(),
{
    if folders.len() == 0 {
        seq![]
    } else {
        let before = swept(folders.drop_last(), answers.drop_last());
        let f = folders.last();
        match answers.last() {
            Some(rows) => if f.is_search_folder {
                before
            } else {
                before + Seq::new(rows.len(), |i: int| (f.path, rows[i]))
            },
            None => before,
        }
    }
}

/// The rows of a sweep with their texts as sequences of characters.
pub open spec fn sweep_view(rows: Seq<(String, MessageRow)>) -> Seq<(Seq<char>, MessageRowV)> {
    Seq::new(rows.len(), |i: int| (rows[i].0@, rows[i].1@))
}

/// What a folder's messages are, if they could be read.
pub open spec fn answer_of(got: Result<Vec<MessageRow>, Error>) -> Option<Seq<MessageRowV>> {
    match got {
        Ok(rows) => Some(views::views(rows@)),
        Err(_) => None,
    }
}

/// Whether the answers are those that the mailbox gave for the folders.
pub open spec fn asked<M: Mailbox>(
    store: &M,
    folders: Seq<Folder>,
    answers: Seq<Option<Seq<MessageRowV>>>,
) -> bool {
    answers.len() == folders.len() && forall|i: int|
        0 <= i < folders.len() && !(#[trigger] folders[i]).is_search_folder ==> exists|
            got: Result<Vec<MessageRow>, Error>,
        |
            #[trigger] call_ensures(M::messages, (store, folders[i].id), got) && answers[i]
                == answer_of(got)
}

/// Adds the messages of one folder.
pub fn add_messages(out: &mut Vec<(String, MessageRow)>, path: &String, rows: Vec<MessageRow>)
    ensures
        sweep_view(final(out)@) == sweep_view(old(out)@) + Seq::new(
            rows@.len(),
            |i: int| (path@, rows@[i]@),
        ),
{
    let ghost start = sweep_view(out@);
    let ghost more = Seq::new(rows@.len(), |i: int| (path@, rows@[i]@));
    assert(start + more.take(0) =~= start);
    for m in it: rows
        invariant
            it.seq() == rows@,
            more == Seq::new(rows@.len(), |i: int| (path@, rows@[i]@)),
            sweep_view(out@) == start + more.take(it.index()),
    {
        let ghost k = it.index();
        let ghost before = sweep_view(out@);
        let ghost added = (path@, m@);
        out.push((path.clone(), m));
        proof {
            assert(sweep_view(out@) =~= before.push(added));
            assert(more.take(k + 1) =~= more.take(k).push(more[k]));
            assert(start + more.take(k).push(more[k]) =~= (start + more.take(k)).push(more[k]));
        }
    }
    assert(more.take(more.len() as int) =~= more);
}

/// Every non-search folder's messages, folder path attached: the shared sweep
/// behind both the message table and an attachment table without a scope.
pub fn sweep_messages<M: Mailbox>(store: &M) -> (r: Vec<(String, MessageRow)>)
    ensures
        exists|got: Result<Vec<Folder>, Error>|
            #[trigger] call_ensures(M::folders, (store,), got) && match got {
                Err(_) => r@.len() == 0,
                Ok(folders) => exists|answers: Seq<Option<Seq<MessageRowV>>>|
                    #[trigger] asked(store, folders@, answers) && sweep_view(r@) == swept(
                        views::views(folders@),
                        answers,
                    ),
            },
{
    let mut rows: Vec<(String, MessageRow)> = Vec::new();
    let got: Result<Vec<Folder>, Error> = store.folders();
    let ghost g = got;
    assert(call_ensures(M::folders, (store,), g));
    let folders: Vec<Folder> = match got {
        Ok(folders) => folders,
        Err(_) => {
            return rows;
        },
    };
    let ghost all = views::views(folders@);
    let ghost mut answers: Seq<Option<Seq<MessageRowV>>> = seq![];
    let mut i: usize = 0;
    assert(all.take(0) =~= seq![]);
    assert(folders@.take(0) =~= seq![]);
    assert(sweep_view(rows@) =~= seq![]);
    while i < folders.len()
        invariant
            i <= folders@.len(),
            all == views::views(folders@),
            answers.len() == i,
            asked(store, folders@.take(i as int), answers),
            sweep_view(rows@) == swept(all.take(i as int), answers),
        decreases folders@.len() - i,
    {
        let f: &Folder = &folders[i];
        let ghost before = answers;
        assert(all.take(i + 1).last() == f@);
        assert(all.take(i + 1).drop_last() =~= all.take(i as int));
        if f.is_search_folder {
            proof {
                answers = answers.push(None);
            }
        } else {
            let msgs: Result<Vec<MessageRow>, Error> = store.messages(f.id);
            let ghost m = msgs;
            assert(call_ensures(M::messages, (store, f.id), m));
            proof {
                answers = answers.push(answer_of(m));
            }
            if let Ok(list) = msgs {
                let ghost more = Seq::new(list@.len(), |k: int| (f.path@, list@[k]@));
                let ghost listed = views::views(list@);
                add_messages(&mut rows, &f.path, list);
                assert(more =~= Seq::new(listed.len(), |k: int| (f.path@, listed[k])));
            }
        }
        proof {
            assert(answers.drop_last() =~= before);
            let upto = folders@.take(i + 1);
            assert forall|k: int|
                0 <= k < upto.len() && !(#[trigger] upto[k]).is_search_folder implies exists|
                got: Result<Vec<MessageRow>, Error>,
            |
                #[trigger] call_ensures(M::messages, (store, upto[k].id), got) && answers[k]
                    == answer_of(got) by {
                if k < i {
                    assert(folders@.take(i as int)[k] == upto[k]);
                    assert(answers[k] == before[k]);
                }
            }
        }
        i = i + 1;
    }
    proof {
        assert(all.take(i as int) =~= all);
        assert(folders@.take(i as int) =~= folders@);
    }
    rows
}

/// The attachments of a list of messages: what asking for each message's gave.
pub open spec fn collected(
    messages: Seq<i64>,
    answers: Seq<Option<Seq<AttachmentV>>>,
) -> Seq<(i64, AttachmentV)>
    decreases messages.len(),
{
    if messages.len() == 0 {
        seq![]
    } else {
        let before = collected(messages.drop_last(), answers.drop_last());
        match answers.last() {
            Some(list) => before + Seq::new(list.len(), |i: int| (messages.last(), list[i])),
            None => before,
        }
    }
}

/// The rows of an attachment table with their texts as sequences of characters.
pub open spec fn attachments_view(rows: Seq<(i64, Attachment)>) -> Seq<(i64, AttachmentV)> {
    Seq::new(rows.len(), |i: int| (rows[i].0, rows[i].1@))
}

/// What a message's attachments are, if they could be listed.
pub open spec fn listing_of(got: Result<Vec<Attachment>, Error>) -> Option<Seq<AttachmentV>> {
    match got {
        Ok(list) => Some(views::views(list@)),
        Err(_) => None,
    }
}

/// Whether the answers are those that the mailbox gave for the messages.
pub open spec fn asked_attachments<M: Mailbox>(
    store: &M,
    messages: Seq<i64>,
    answers: Seq<Option<Seq<AttachmentV>>>,
) -> bool {
    answers.len() == messages.len() && forall|i: int|
        0 <= i < messages.len() ==> exists|got: Result<Vec<Attachment>, Error>|
            #[trigger] call_ensures(M::attachments, (store, #[trigger] messages[i]), got)
                && answers[i] == listing_of(got)
}

/// Adds the attachments of one message.
pub fn add_attachments(out: &mut Vec<(i64, Attachment)>, message: i64, list: Vec<Attachment>)
    ensures
        attachments_view(final(out)@) == attachments_view(old(out)@) + Seq::new(
            list@.len(),
            |i: int| (message, list@[i]@),
        ),
{
    let ghost start = attachments_view(out@);
    let ghost more = Seq::new(list@.len(), |i: int| (message, list@[i]@));
    assert(start + more.take(0) =~= start);
    for a in it: list
        invariant
            it.seq() == list@,
            more == Seq::new(list@.len(), |i: int| (message, list@[i]@)),
            attachments_view(out@) == start + more.take(it.index()),
    {
        let ghost k = it.index();
        let ghost before = attachments_view(out@);
        let ghost added = (message, a@);
        out.push((message, a));
        proof {
            assert(attachments_view(out@) =~= before.push(added));
            assert(more.take(k + 1) =~= more.take(k).push(more[k]));
            assert(start + more.take(k).push(more[k]) =~= (start + more.take(k)).push(more[k]));
        }
    }
    assert(more.take(more.len() as int) =~= more);
}

/// The attachments of these messages, in order. A message whose attachments could
/// not be listed adds none.
pub fn collect_attachments<M: Mailbox>(store: &M, messages: &Vec<i64>) -> (r: Vec<
    (i64, Attachment),
>)
    ensures
        exists|answers: Seq<Option<Seq<AttachmentV>>>|
            #[trigger] asked_attachments(store, messages@, answers) && attachments_view(r@)
                == collected(messages@, answers),
{
    let mut rows: Vec<(i64, Attachment)> = Vec::new();
    let ghost mut answers: Seq<Option<Seq<AttachmentV>>> = seq![];
    let mut i: usize = 0;
    assert(messages@.take(0) =~= seq![]);
    assert(attachments_view(rows@) =~= seq![]);
    while i < messages.len()
        invariant
            i <= messages@.len(),
            answers.len() == i,
            asked_attachments(store, messages@.take(i as int), answers),
            attachments_view(rows@) == collected(messages@.take(i as int), answers),
        decreases messages@.len() - i,
    {
        let id: i64 = messages[i];
        let ghost before = answers;
        let got: Result<Vec<Attachment>, Error> = store.attachments(id);
        let ghost g = got;
        assert(call_ensures(M::attachments, (store, id), g));
        proof {
            answers = answers.push(listing_of(g));
            assert(messages@.take(i + 1).drop_last() =~= messages@.take(i as int));
            assert(messages@.take(i + 1).last() == id);
        }
        if let Ok(list) = got {
            let ghost more = Seq::new(list@.len(), |k: int| (id, list@[k]@));
            let ghost listed = views::views(list@);
            add_attachments(&mut rows, id, list);
            assert(more =~= Seq::new(listed.len(), |k: int| (id, listed[k])));
        }
        proof {
            assert(answers.drop_last() =~= before);
            let upto = messages@.take(i + 1);
            assert forall|k: int| 0 <= k < upto.len() implies exists|
                got: Result<Vec<Attachment>, Error>,
            |
                #[trigger] call_ensures(M::attachments, (store, #[trigger] upto[k]), got)
                    && answers[k] == listing_of(got) by {
                if k < i {
                    assert(messages@.take(i as int)[k] == upto[k]);
                    assert(answers[k] == before[k]);
                }
            }
        }
        i = i + 1;
    }
    assert(messages@.take(i as int) =~= messages@);
    rows
}

/// The messages that an attachment query covers: the one it is scoped to, or every
/// one of a sweep.
pub fn scope_of(scope: Option<i64>, rows: &Vec<(String, MessageRow)>) -> (r: Vec<i64>)
    ensures
        r@ == match scope {
            Some(id) => seq![id],
            None => Seq::new(rows@.len(), |i: int| rows@[i].1.id),
        },
{
    let mut out: Vec<i64> = Vec::new();
    match scope {
        Some(id) => {
            out.push(id);
            assert(out@ =~= seq![id]);
        },
        None => {
            let ghost all = Seq::new(rows@.len(), |k: int| rows@[k].1.id);
            let mut i: usize = 0;
            while i < rows.len()
                invariant
                    i <= rows@.len(),
                    all == Seq::new(rows@.len(), |k: int| rows@[k].1.id),
                    out@ == all.take(i as int),
                decreases rows@.len() - i,
            {
                out.push(rows[i].1.id);
                assert(out@ =~= all.take(i + 1));
                i = i + 1;
            }
            assert(all.take(i as int) =~= all);
        },
    }
    out
}

/// The rows of the attachment table. Listing attachments takes one lookup per
/// message, so this is only cheap when scoped to one; without a scope it sweeps
/// every message in the store.
pub fn attachment_rows<M: Mailbox>(store: &M, scope: Option<i64>) -> (r: Vec<(i64, Attachment)>)
    ensures
        scope matches Some(id) ==> exists|answers: Seq<Option<Seq<AttachmentV>>>|
            #[trigger] asked_attachments(store, seq![id], answers) && attachments_view(r@)
                == collected(seq![id], answers),
        scope is None ==> exists|messages: Seq<i64>, answers: Seq<Option<Seq<AttachmentV>>>|
            #[trigger] asked_attachments(store, messages, answers) && attachments_view(r@)
                == collected(messages, answers) && exists|got: Result<Vec<Folder>, Error>|
                #[trigger] call_ensures(M::folders, (store,), got) && match got {
                    Err(_) => messages.len() == 0,
                    Ok(folders) => exists|found: Seq<Option<Seq<MessageRowV>>>|
                        #[trigger] asked(store, folders@, found) && messages == Seq::new(
                            swept(views::views(folders@), found).len(),
                            |i: int| swept(views::views(folders@), found)[i].1.id,
                        ),
                },
{
    let rows: Vec<(String, MessageRow)> = match scope {
        Some(_) => Vec::new(),
        None => sweep_messages(store),
    };
    let messages: Vec<i64> = scope_of(scope, &rows);
    proof {
        if scope is None {
            let got = choose|got: Result<Vec<Folder>, Error>|
                #[trigger] call_ensures(M::folders, (store,), got) && match got {
                    Err(_) => rows@.len() == 0,
                    Ok(folders) => exists|answers: Seq<Option<Seq<MessageRowV>>>|
                        #[trigger] asked(store, folders@, answers) && sweep_view(rows@) == swept(
                            views::views(folders@),
                            answers,
                        ),
                };
            if let Ok(folders) = got {
                let found = choose|answers: Seq<Option<Seq<MessageRowV>>>|
                    #[trigger] asked(store, folders@, answers) && sweep_view(rows@) == swept(
                        views::views(folders@),
                        answers,
                    );
                let s = swept(views::views(folders@), found);
                assert(messages@ =~= Seq::new(s.len(), |i: int| s[i].1.id)) by {
                    assert(forall|i: int|
                        0 <= i < s.len() ==> (#[trigger] s[i]).1.id == rows@[i].1.id);
                }
            }
        }
    }
    collect_attachments(store, &messages)
}

/// What handing out rows in chunks of `capacity` comes to, from row `start` on: each
/// chunk begins where the last one ended.
pub open spec fn handed_out<T>(rows: Seq<T>, start: int, capacity: int) -> Seq<T>
    decreases rows.len() - start,
{
    if start < 0 || start >= rows.len() || capacity <= 0 {
        seq![]
    } else {
        let end = chunk_end(start, rows.len() as int, capacity);
        rows.subrange(start, end) + handed_out(rows, end, capacity)
    }
}

/// Handing out rows in chunks yields each row once and in order.
pub proof fn lemma_chunks_cover<T>(rows: Seq<T>, start: int, capacity: int)
    requires
        0 <= start <= rows.len(),
        capacity > 0,
    ensures
        handed_out(rows, start, capacity) == rows.skip(start),
    decreases rows.len() - start,
{
    if start < rows.len() {
        let end = chunk_end(start, rows.len() as int, capacity);
        lemma_chunks_cover(rows, end, capacity);
        assert(rows.subrange(start, end) + rows.skip(end) =~= rows.skip(start));
    } else {
        assert(rows.skip(start) =~= seq![]);
    }
}

/// Every message of a sweep is one that a folder gave, under that folder's path, and
/// the folder is no search folder: mail that a search folder shows again is not
/// listed twice.
pub proof fn lemma_sweep_skips_search_folders(
    folders: Seq<FolderV>,
    answers: Seq<Option<Seq<MessageRowV>>>,
    i: int,
) -> (from: (int, int))
    requires
        answers.len() == folders.len(),
        0 <= i < swept(folders, answers).len(),
    ensures
        0 <= from.0 < folders.len(),
        !folders[from.0].is_search_folder,
        answers[from.0] matches Some(rows) && 0 <= from.1 < rows.len() && swept(folders, answers)[i]
            == (folders[from.0].path, rows[from.1]),
    decreases folders.len(),
{
    let before = swept(folders.drop_last(), answers.drop_last());
    if i < before.len() {
        lemma_sweep_skips_search_folders(folders.drop_last(), answers.drop_last(), i)
    } else {
        (folders.len() - 1, i - before.len())
    }
}

} // verus!
