//! Laws of the tables that SQL sees.

use vstd::prelude::*;
use crate::mailbox::{Attachment, Folder, MessageRow};
use crate::vtab;
use crate::vtab::{Cell, Column};

verus! {

/// A text cell with this text, or NULL.
pub open spec fn tells_text(c: Cell, t: Option<String>) -> bool {
    c matches Cell::Text(s) && crate::laws::same_text(s, t)
}

pub open spec fn tells_name(c: Cell, t: String) -> bool {
    c matches Cell::Text(s) && s matches Some(u) && u@ == t@
}

pub open spec fn tells_int(c: Cell, n: Option<i64>) -> bool {
    c matches Cell::Int(k) && k == n
}

pub open spec fn tells_bool(c: Cell, b: Option<bool>) -> bool {
    c matches Cell::Bool(k) && k == b
}

/// What the column of this name tells of a folder.
pub open spec fn folder_tells(name: Seq<char>, c: Cell, f: Folder) -> bool {
    &&& name == "nid"@ ==> tells_int(c, Some(f.id))
    &&& name == "parent_nid"@ ==> tells_int(c, f.parent_id)
    &&& name == "name"@ ==> tells_text(c, f.name)
    &&& name == "path"@ ==> tells_name(c, f.path)
    &&& name == "item_count"@ ==> tells_int(c, f.item_count)
    &&& name == "unread_count"@ ==> tells_int(c, f.unread_count)
    &&& name == "has_subfolders"@ ==> tells_bool(c, Some(f.has_subfolders))
    &&& name == "is_search_folder"@ ==> tells_bool(c, Some(f.is_search_folder))
}

/// What the column of this name tells of a message in the folder with this path.
pub open spec fn message_tells(name: Seq<char>, c: Cell, path: String, m: MessageRow) -> bool {
    &&& name == "nid"@ ==> tells_int(c, Some(m.id))
    &&& name == "folder_nid"@ ==> tells_int(c, Some(m.folder_id))
    &&& name == "folder_path"@ ==> tells_name(c, path)
    &&& name == "subject"@ ==> tells_text(c, m.subject)
    &&& name == "sender_name"@ ==> tells_text(c, m.sender_name)
    &&& name == "sender_email"@ ==> tells_text(c, m.sender_email)
    &&& name == "delivered"@ ==> tells_int(c, m.delivered_us)
    &&& name == "submitted"@ ==> tells_int(c, m.submitted_us)
    &&& name == "modified"@ ==> tells_int(c, m.modified_us)
    &&& name == "size"@ ==> tells_int(c, m.size)
    &&& name == "unread"@ ==> tells_bool(c, m.unread)
    &&& name == "has_attachments"@ ==> tells_bool(c, m.has_attachments)
    &&& name == "message_class"@ ==> tells_text(c, m.message_class)
}

/// What the column of this name tells of an attachment of a message.
pub open spec fn attachment_tells(name: Seq<char>, c: Cell, message: i64, a: Attachment) -> bool {
    &&& name == "message_nid"@ ==> tells_int(c, Some(message))
    &&& name == "nid"@ ==> tells_int(c, Some(a.id))
    &&& name == "filename"@ ==> tells_text(c, a.filename)
    &&& name == "mime"@ ==> tells_text(c, a.mime)
    &&& name == "content_id"@ ==> tells_text(c, a.content_id)
    &&& name == "declared_size"@ ==> tells_int(c, a.declared_size)
    &&& name == "data_len"@ ==> match a.data_len {
        Some(n) => n <= i64::MAX ==> tells_int(c, Some(n as i64)),
        None => tells_int(c, None),
    }
}

/// A name stands over exactly one column.
pub open spec fn one_column(columns: Seq<Column>, name: Seq<char>) -> bool {
    &&& exists|k: int| 0 <= k < columns.len() && (#[trigger] columns[k]).name@ == name
    &&& forall|j: int, k: int|
        0 <= j < columns.len() && 0 <= k < columns.len() && (#[trigger] columns[j]).name@ == name && (
        #[trigger] columns[k]).name@ == name ==> j == k
}

/// The names of the columns are told apart by their lengths and a letter.
proof fn lemma_names_differ()
    ensures
        "nid"@.len() == 3,
        "folder_nid"@.len() == 10,
        "folder_path"@.len() == 11 && "folder_path"@[0] == 'f',
        "subject"@.len() == 7,
        "sender_name"@.len() == 11 && "sender_name"@[0] == 's',
        "sender_email"@.len() == 12,
        "delivered"@.len() == 9 && "delivered"@[0] == 'd',
        "submitted"@.len() == 9 && "submitted"@[0] == 's',
        "modified"@.len() == 8,
        "size"@.len() == 4,
        "unread"@.len() == 6,
        "has_attachments"@.len() == 15,
        "message_class"@.len() == 13,
        "parent_nid"@.len() == 10 && "parent_nid"@[0] == 'p',
        "name"@.len() == 4 && "name"@[0] == 'n',
        "path"@.len() == 4 && "path"@[0] == 'p',
        "item_count"@.len() == 10 && "item_count"@[0] == 'i',
        "unread_count"@.len() == 12,
        "has_subfolders"@.len() == 14,
        "is_search_folder"@.len() == 16,
        "message_nid"@.len() == 11,
        "filename"@.len() == 8,
        "mime"@.len() == 4,
        "content_id"@.len() == 10,
        "declared_size"@.len() == 13,
        "data_len"@.len() == 8 && "data_len"@[0] == 'd',
        "filename"@[0] == 'f',
{
    reveal_strlit("nid");
    reveal_strlit("folder_nid");
    reveal_strlit("folder_path");
    reveal_strlit("subject");
    reveal_strlit("sender_name");
    reveal_strlit("sender_email");
    reveal_strlit("delivered");
    reveal_strlit("submitted");
    reveal_strlit("modified");
    reveal_strlit("size");
    reveal_strlit("unread");
    reveal_strlit("has_attachments");
    reveal_strlit("message_class");
    reveal_strlit("parent_nid");
    reveal_strlit("name");
    reveal_strlit("path");
    reveal_strlit("item_count");
    reveal_strlit("unread_count");
    reveal_strlit("has_subfolders");
    reveal_strlit("is_search_folder");
    reveal_strlit("message_nid");
    reveal_strlit("filename");
    reveal_strlit("mime");
    reveal_strlit("content_id");
    reveal_strlit("declared_size");
    reveal_strlit("data_len");
}

/// Every cell of a folder's row tells what its column is named after, and there is
/// one column for each thing told.
pub proof fn lemma_folder_cells_by_name(columns: Vec<Column>, cells: Seq<Cell>, f: Folder)
    requires
        call_ensures(vtab::Folders::columns, (), columns),
        crate::views::views(cells) == vtab::folder_row(f@),
    ensures
        cells.len() == columns@.len() == 8,
        forall|k: int|
            0 <= k < cells.len() ==> folder_tells(columns@[k].name@, #[trigger] cells[k], f),
        one_column(columns@, "nid"@),
        one_column(columns@, "parent_nid"@),
        one_column(columns@, "name"@),
        one_column(columns@, "path"@),
        one_column(columns@, "item_count"@),
        one_column(columns@, "unread_count"@),
        one_column(columns@, "has_subfolders"@),
        one_column(columns@, "is_search_folder"@),
{
    lemma_names_differ();
    let list = vtab::column_list(columns@);
    let vs = crate::views::views(cells);
    assert(list.len() == columns@.len());
    assert(vs.len() == cells.len());
    assert(list == vtab::folder_columns());
    assert(columns@[0].name@ == list[0].0 && columns@[1].name@ == list[1].0 && columns@[2].name@ == list[2].0 && columns@[3].name@ == list[3].0 && columns@[4].name@ == list[4].0 && columns@[5].name@ == list[5].0 && columns@[6].name@ == list[6].0 && columns@[7].name@ == list[7].0);
    assert forall|k: int| 0 <= k < cells.len() implies folder_tells(
        columns@[k].name@,
        #[trigger] cells[k],
        f,
    ) by {
        assert(cells[k]@ == vs[k]);
    }
}

/// Every cell of a message's row tells what its column is named after, and there is
/// one column for each thing told.
pub proof fn lemma_message_cells_by_name(columns: Vec<Column>, cells: Seq<Cell>, path: String, m: MessageRow)
    requires
        call_ensures(vtab::Messages::columns, (), columns),
        crate::views::views(cells) == vtab::message_row(path@, m@),
    ensures
        cells.len() == columns@.len() == 13,
        forall|k: int|
            0 <= k < cells.len() ==> message_tells(columns@[k].name@, #[trigger] cells[k], path, m),
        one_column(columns@, "nid"@),
        one_column(columns@, "folder_nid"@),
        one_column(columns@, "folder_path"@),
        one_column(columns@, "subject"@),
        one_column(columns@, "sender_name"@),
        one_column(columns@, "sender_email"@),
        one_column(columns@, "delivered"@),
        one_column(columns@, "submitted"@),
        one_column(columns@, "modified"@),
        one_column(columns@, "size"@),
        one_column(columns@, "unread"@),
        one_column(columns@, "has_attachments"@),
        one_column(columns@, "message_class"@),
{
    lemma_names_differ();
    let list = vtab::column_list(columns@);
    let vs = crate::views::views(cells);
    assert(list.len() == columns@.len());
    assert(vs.len() == cells.len());
    assert(list == vtab::message_columns());
    assert(columns@[0].name@ == list[0].0 && columns@[1].name@ == list[1].0 && columns@[2].name@ == list[2].0 && columns@[3].name@ == list[3].0 && columns@[4].name@ == list[4].0 && columns@[5].name@ == list[5].0 && columns@[6].name@ == list[6].0 && columns@[7].name@ == list[7].0 && columns@[8].name@ == list[8].0 && columns@[9].name@ == list[9].0 && columns@[10].name@ == list[10].0 && columns@[11].name@ == list[11].0 && columns@[12].name@ == list[12].0);
    assert forall|k: int| 0 <= k < cells.len() implies message_tells(
        columns@[k].name@,
        #[trigger] cells[k],
        path, m,
    ) by {
        assert(cells[k]@ == vs[k]);
    }
}

/// Every cell of an attachment's row tells what its column is named after, and there is
/// one column for each thing told.
pub proof fn lemma_attachment_cells_by_name(columns: Vec<Column>, cells: Seq<Cell>, message: i64, a: Attachment)
    requires
        call_ensures(vtab::Attachments::columns, (), columns),
        crate::views::views(cells) == vtab::attachment_row(message, a@),
    ensures
        cells.len() == columns@.len() == 7,
        forall|k: int|
            0 <= k < cells.len() ==> attachment_tells(columns@[k].name@, #[trigger] cells[k], message, a),
        one_column(columns@, "message_nid"@),
        one_column(columns@, "nid"@),
        one_column(columns@, "filename"@),
        one_column(columns@, "mime"@),
        one_column(columns@, "content_id"@),
        one_column(columns@, "declared_size"@),
        one_column(columns@, "data_len"@),
{
    lemma_names_differ();
    let list = vtab::column_list(columns@);
    let vs = crate::views::views(cells);
    assert(list.len() == columns@.len());
    assert(vs.len() == cells.len());
    assert(list == vtab::attachment_columns());
    assert(columns@[0].name@ == list[0].0 && columns@[1].name@ == list[1].0 && columns@[2].name@ == list[2].0 && columns@[3].name@ == list[3].0 && columns@[4].name@ == list[4].0 && columns@[5].name@ == list[5].0 && columns@[6].name@ == list[6].0);
    assert forall|k: int| 0 <= k < cells.len() implies attachment_tells(
        columns@[k].name@,
        #[trigger] cells[k],
        message, a,
    ) by {
        assert(cells[k]@ == vs[k]);
    }
}

/// Whether the cells are what these columns of the folder table are named after.
pub open spec fn folder_told(columns: Seq<Column>, cells: Seq<Cell>, f: Folder) -> bool {
    cells.len() == columns.len() && forall|k: int|
        0 <= k < cells.len() ==> folder_tells(columns[k].name@, #[trigger] cells[k], f)
}

/// Whether the cells are what the columns of the folder table are named after.
pub open spec fn is_folder_row(cells: Seq<Cell>, f: Folder) -> bool {
    forall|columns: Vec<Column>| #[trigger]
        call_ensures(vtab::Folders::columns, (), columns) ==> folder_told(columns@, cells, f)
}

/// A row of cells is read by the names of its columns.
pub proof fn lemma_folder_row(cells: Seq<Cell>, f: Folder)
    requires
        crate::views::views(cells) == vtab::folder_row(f@),
    ensures
        is_folder_row(cells, f),
{
    assert forall|columns: Vec<Column>| #[trigger]
        call_ensures(vtab::Folders::columns, (), columns) implies folder_told(
        columns@,
        cells,
        f,
    ) by {
        lemma_folder_cells_by_name(columns, cells, f);
    }
}

/// Whether the cells are what these columns of the message table are named after.
pub open spec fn message_told(columns: Seq<Column>, cells: Seq<Cell>, row: (String, MessageRow)) -> bool {
    cells.len() == columns.len() && forall|k: int|
        0 <= k < cells.len() ==> message_tells(columns[k].name@, #[trigger] cells[k], row.0, row.1)
}

/// Whether the cells are what the columns of the message table are named after.
pub open spec fn is_message_row(cells: Seq<Cell>, row: (String, MessageRow)) -> bool {
    forall|columns: Vec<Column>| #[trigger]
        call_ensures(vtab::Messages::columns, (), columns) ==> message_told(columns@, cells, row)
}

/// A row of cells is read by the names of its columns.
pub proof fn lemma_message_row(cells: Seq<Cell>, row: (String, MessageRow))
    requires
        crate::views::views(cells) == vtab::message_row(row.0@, row.1@),
    ensures
        is_message_row(cells, row),
{
    assert forall|columns: Vec<Column>| #[trigger]
        call_ensures(vtab::Messages::columns, (), columns) implies message_told(
        columns@,
        cells,
        row,
    ) by {
        lemma_message_cells_by_name(columns, cells, row.0, row.1);
    }
}

/// Whether the cells are what these columns of the attachment table are named after.
pub open spec fn attachment_told(columns: Seq<Column>, cells: Seq<Cell>, row: (i64, Attachment)) -> bool {
    cells.len() == columns.len() && forall|k: int|
        0 <= k < cells.len() ==> attachment_tells(columns[k].name@, #[trigger] cells[k], row.0, row.1)
}

/// Whether the cells are what the columns of the attachment table are named after.
pub open spec fn is_attachment_row(cells: Seq<Cell>, row: (i64, Attachment)) -> bool {
    forall|columns: Vec<Column>| #[trigger]
        call_ensures(vtab::Attachments::columns, (), columns) ==> attachment_told(columns@, cells, row)
}

/// A row of cells is read by the names of its columns.
pub proof fn lemma_attachment_row(cells: Seq<Cell>, row: (i64, Attachment))
    requires
        crate::views::views(cells) == vtab::attachment_row(row.0, row.1@),
    ensures
        is_attachment_row(cells, row),
{
    assert forall|columns: Vec<Column>| #[trigger]
        call_ensures(vtab::Attachments::columns, (), columns) implies attachment_told(
        columns@,
        cells,
        row,
    ) by {
        lemma_attachment_cells_by_name(columns, cells, row.0, row.1);
    }
}

} // verus!
