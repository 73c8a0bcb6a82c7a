//! Messaging layer: the folder tree, message rows, messages, and attachments.
//!
//! Nothing here is materialised up front. Folder and message listings read table
//! contexts, and a message body or attachment payload is only touched when asked
//! for by NID.

use std::collections::{HashMap, HashSet};
use vstd::prelude::*;
use crate::bytes;
use crate::ost::ltp;
use crate::ost::ltp::{Pc, PcV, Tc, TcV};
use crate::ost::ndb;
use crate::ost::ndb::{Node, Pff, PffV};
use crate::ost::props;
use crate::ost::props::{
    clean_subject, entryid_address, filetime_to_unix_us, pid, MSGFLAG_HASATTACH, MSGFLAG_READ, PT_BINARY,
};
use crate::ost::{Error, ErrorV};
use crate::text;
use crate::views;

verus! {

broadcast use {vstd::std_specs::hash::group_hash_axioms, views::lemma_views_push};

pub const NID_MESSAGE_STORE: u32 = 0x21;

pub const NID_ROOT_FOLDER: u32 = 0x122;

/// Subnode holding a message's attachment table.
pub const NID_ATTACHMENT_TABLE: u32 = 0x671;

/// Subnode holding a message's recipient table.
pub const NID_RECIPIENT_TABLE: u32 = 0x692;

pub const NID_TYPE_NORMAL_FOLDER: u32 = 0x02;

pub const NID_TYPE_HIERARCHY_TABLE: u32 = 0x0D;

pub const NID_TYPE_CONTENTS_TABLE: u32 = 0x0E;

/// The type of a node: the low five bits of its NID.
pub open spec fn type_of(nid: u32) -> int {
    nid as int % 32
}

/// The index of a node: the bits above its type.
pub open spec fn index_of(nid: u32) -> int {
    nid as int / 32
}

pub fn nid_type(nid: u32) -> (r: u32)
    ensures
        r == type_of(nid),
{
    nid % 32
}

pub fn nid_index(nid: u32) -> (r: u32)
    ensures
        r == index_of(nid),
{
    nid / 32
}

/// The NID with this index, of which 27 bits count, and this type.
pub open spec fn nid_of(index: u32, ntype: u32) -> u32 {
    (index << 5) | ntype
}

/// A folder and its tables share a node index and differ only in node type.
pub fn make_nid(index: u32, ntype: u32) -> (r: u32)
    ensures
        r == nid_of(index, ntype),
        index < 0x800_0000 && ntype < 32 ==> r == index * 32 + ntype,
{
    proof {
        lemma_nid_of(index, ntype);
    }
    (index << 5) | ntype
}

pub proof fn lemma_nid_of(index: u32, ntype: u32)
    ensures
        index < 0x800_0000 && ntype < 32 ==> nid_of(index, ntype) == index * 32 + ntype,
{
    assert(index < 0x800_0000 && ntype < 32 ==> (index << 5) | ntype == index * 32 + ntype)
        by (bit_vector);
}

/// A NID is made of its index and its type, and made again from them.
pub proof fn lemma_nid_round_trip(nid: u32, index: u32, ntype: u32)
    ensures
        nid_of(index_of(nid) as u32, type_of(nid) as u32) == nid,
        index < 0x800_0000 && ntype < 32 ==> index_of(nid_of(index, ntype)) == index && type_of(
            nid_of(index, ntype),
        ) == ntype,
{
    lemma_nid_of(index_of(nid) as u32, type_of(nid) as u32);
    lemma_nid_of(index, ntype);
}

/// The NID of the table of the given type that belongs to a folder.
pub open spec fn table_of(nid: u32, ntype: u32) -> u32 {
    nid_of(index_of(nid) as u32, ntype)
}

#[derive(Clone, Debug)]
pub struct Folder {
    pub nid: u32,
    pub parent_nid: u32,
    pub name: String,
    /// Slash-delimited path from the store root, e.g. `/Root - Mailbox/Inbox`.
    pub path: String,
    pub item_count: Option<i32>,
    pub unread_count: Option<i32>,
    pub has_subfolders: bool,
}

/// A message as seen from its folder's contents table: cheap to list in bulk,
/// with no body and no attachment payloads.
#[derive(Clone, Debug)]
pub struct MessageRow {
    pub nid: u32,
    pub folder_nid: u32,
    pub subject: Option<String>,
    pub sender_name: Option<String>,
    pub sender_email: Option<String>,
    pub delivered_us: Option<i64>,
    pub submitted_us: Option<i64>,
    pub modified_us: Option<i64>,
    pub size: Option<i32>,
    pub unread: Option<bool>,
    pub has_attachments: Option<bool>,
    pub message_class: Option<String>,
}

#[derive(Clone, Debug)]
pub struct Recipient {
    /// `PidTagRecipientType`: 1 = To, 2 = Cc, 3 = Bcc.
    pub kind: Option<i32>,
    pub name: Option<String>,
    pub email: Option<String>,
}

#[derive(Clone, Debug)]
pub struct Attachment {
    pub nid: u32,
    pub filename: Option<String>,
    pub mime: Option<String>,
    pub content_id: Option<String>,
    /// `PidTagAttachSize`, which counts the whole attachment record rather than
    /// just the payload.
    pub declared_size: Option<i32>,
    /// Length of `PidTagAttachDataBinary`, or `None` when the attachment is an
    /// embedded message rather than bytes.
    pub data_len: Option<usize>,
}

#[derive(Clone, Debug)]
pub struct Message {
    pub nid: u32,
    pub subject: Option<String>,
    pub sender_name: Option<String>,
    pub sender_email: Option<String>,
    pub display_to: Option<String>,
    pub display_cc: Option<String>,
    pub display_bcc: Option<String>,
    pub delivered_us: Option<i64>,
    pub submitted_us: Option<i64>,
    pub modified_us: Option<i64>,
    pub size: Option<i32>,
    pub unread: Option<bool>,
    pub message_class: Option<String>,
    pub internet_message_id: Option<String>,
    pub conversation_topic: Option<String>,
    pub body_plain: Option<String>,
    pub body_html: Option<String>,
    pub body_rtf: Option<String>,
    pub recipients: Vec<Recipient>,
    pub attachments: Vec<Attachment>,
}

/// A folder with its texts as sequences of characters.
pub struct FolderV {
    pub nid: u32,
    pub parent_nid: u32,
    pub name: Seq<char>,
    pub path: Seq<char>,
    pub item_count: Option<i32>,
    pub unread_count: Option<i32>,
    pub has_subfolders: bool,
}

/// A message row with its texts as sequences of characters.
pub struct MessageRowV {
    pub nid: u32,
    pub folder_nid: u32,
    pub subject: Option<Seq<char>>,
    pub sender_name: Option<Seq<char>>,
    pub sender_email: Option<Seq<char>>,
    pub delivered_us: Option<i64>,
    pub submitted_us: Option<i64>,
    pub modified_us: Option<i64>,
    pub size: Option<i32>,
    pub unread: Option<bool>,
    pub has_attachments: Option<bool>,
    pub message_class: Option<Seq<char>>,
}

/// A recipient with its texts as sequences of characters.
pub struct RecipientV {
    pub kind: Option<i32>,
    pub name: Option<Seq<char>>,
    pub email: Option<Seq<char>>,
}

/// Attachment metadata with its texts as sequences of characters.
pub struct AttachmentV {
    pub nid: u32,
    pub filename: Option<Seq<char>>,
    pub mime: Option<Seq<char>>,
    pub content_id: Option<Seq<char>>,
    pub declared_size: Option<i32>,
    pub data_len: Option<nat>,
}

/// A message with its texts as sequences of characters.
pub struct MessageV {
    pub nid: u32,
    pub subject: Option<Seq<char>>,
    pub sender_name: Option<Seq<char>>,
    pub sender_email: Option<Seq<char>>,
    pub display_to: Option<Seq<char>>,
    pub display_cc: Option<Seq<char>>,
    pub display_bcc: Option<Seq<char>>,
    pub delivered_us: Option<i64>,
    pub submitted_us: Option<i64>,
    pub modified_us: Option<i64>,
    pub size: Option<i32>,
    pub unread: Option<bool>,
    pub message_class: Option<Seq<char>>,
    pub internet_message_id: Option<Seq<char>>,
    pub conversation_topic: Option<Seq<char>>,
    pub body_plain: Option<Seq<char>>,
    pub body_html: Option<Seq<char>>,
    pub body_rtf: Option<Seq<char>>,
    pub recipients: Seq<RecipientV>,
    pub attachments: Seq<AttachmentV>,
}

impl View for Folder {
    type V = FolderV;

    open spec fn view(&self) -> FolderV {
        FolderV {
            nid: self.nid,
            parent_nid: self.parent_nid,
            name: self.name@,
            path: self.path@,
            item_count: self.item_count,
            unread_count: self.unread_count,
            has_subfolders: self.has_subfolders,
        }
    }
}

impl View for MessageRow {
    type V = MessageRowV;

    open spec fn view(&self) -> MessageRowV {
        MessageRowV {
            nid: self.nid,
            folder_nid: self.folder_nid,
            subject: text::opt_text(self.subject),
            sender_name: text::opt_text(self.sender_name),
            sender_email: text::opt_text(self.sender_email),
            delivered_us: self.delivered_us,
            submitted_us: self.submitted_us,
            modified_us: self.modified_us,
            size: self.size,
            unread: self.unread,
            has_attachments: self.has_attachments,
            message_class: text::opt_text(self.message_class),
        }
    }
}

impl View for Recipient {
    type V = RecipientV;

    open spec fn view(&self) -> RecipientV {
        RecipientV {
            kind: self.kind,
            name: text::opt_text(self.name),
            email: text::opt_text(self.email),
        }
    }
}

impl View for Attachment {
    type V = AttachmentV;

    open spec fn view(&self) -> AttachmentV {
        AttachmentV {
            nid: self.nid,
            filename: text::opt_text(self.filename),
            mime: text::opt_text(self.mime),
            content_id: text::opt_text(self.content_id),
            declared_size: self.declared_size,
            data_len: match self.data_len {
                Some(n) => Some(n as nat),
                None => None,
            },
        }
    }
}

impl View for Message {
    type V = MessageV;

    open spec fn view(&self) -> MessageV {
        MessageV {
            nid: self.nid,
            subject: text::opt_text(self.subject),
            sender_name: text::opt_text(self.sender_name),
            sender_email: text::opt_text(self.sender_email),
            display_to: text::opt_text(self.display_to),
            display_cc: text::opt_text(self.display_cc),
            display_bcc: text::opt_text(self.display_bcc),
            delivered_us: self.delivered_us,
            submitted_us: self.submitted_us,
            modified_us: self.modified_us,
            size: self.size,
            unread: self.unread,
            message_class: text::opt_text(self.message_class),
            internet_message_id: text::opt_text(self.internet_message_id),
            conversation_topic: text::opt_text(self.conversation_topic),
            body_plain: text::opt_text(self.body_plain),
            body_html: text::opt_text(self.body_html),
            body_rtf: text::opt_text(self.body_rtf),
            recipients: views::views(self.recipients@),
            attachments: views::views(self.attachments@),
        }
    }
}

/// The first of two that is there.
pub open spec fn either<T>(a: Option<T>, b: Option<T>) -> Option<T> {
    match a {
        Some(_) => a,
        None => b,
    }
}

fn first_of_text(a: Option<String>, b: Option<String>) -> (r: Option<String>)
    ensures
        text::opt_text(r) == either(text::opt_text(a), text::opt_text(b)),
{
    match a {
        Some(x) => Some(x),
        None => b,
    }
}

fn first_of_bytes(a: Option<Vec<u8>>, b: Option<Vec<u8>>) -> (r: Option<Vec<u8>>)
    ensures
        bytes::opt_bytes(r) == either(bytes::opt_bytes(a), bytes::opt_bytes(b)),
{
    match a {
        Some(x) => Some(x),
        None => b,
    }
}

/// Bit 0 of the message flags is clear.
pub open spec fn is_unread(flags: i32) -> bool {
    flags & MSGFLAG_READ == 0
}

/// Bit 4 of the message flags is set.
pub open spec fn flags_attachment(flags: i32) -> bool {
    flags & MSGFLAG_HASATTACH != 0
}

fn unread_flag(flags: i32) -> (r: bool)
    ensures
        r == is_unread(flags),
{
    flags & MSGFLAG_READ == 0
}

fn attachment_flag(flags: i32) -> (r: bool)
    ensures
        r == flags_attachment(flags),
{
    flags & MSGFLAG_HASATTACH != 0
}

/// A stored time as microseconds since the Unix epoch.
pub open spec fn time_us(ft: Option<u64>) -> Option<i64> {
    match ft {
        Some(t) => props::filetime_us(t),
        None => None,
    }
}

fn opt_time(ft: Option<u64>) -> (r: Option<i64>)
    ensures
        r == time_us(ft),
{
    match ft {
        Some(t) => filetime_to_unix_us(t),
        None => None,
    }
}

/// A stored subject without its prefix escape.
pub open spec fn opt_subject(s: Option<Seq<char>>) -> Option<Seq<char>> {
    match s {
        Some(t) => Some(props::subject_text(t)),
        None => None,
    }
}

fn cleaned(s: Option<String>) -> (r: Option<String>)
    ensures
        text::opt_text(r) == opt_subject(text::opt_text(s)),
{
    match s {
        Some(t) => Some(clean_subject(t.as_str())),
        None => None,
    }
}

/// The name and address that an EntryID spells out, if it is there and does.
pub open spec fn entry_sender(b: Option<Seq<u8>>) -> (Option<Seq<char>>, Option<Seq<char>>) {
    match b {
        Some(b) => match props::one_off_address(b) {
            Some(pair) => pair,
            None => (None, None),
        },
        None => (None, None),
    }
}

fn sender_of_entry(b: Option<Vec<u8>>) -> (r: (Option<String>, Option<String>))
    ensures
        (text::opt_text(r.0), text::opt_text(r.1)) == entry_sender(bytes::opt_bytes(b)),
{
    match b {
        Some(b) => match entryid_address(b.as_slice()) {
            Some(pair) => pair,
            None => (None, None),
        },
        None => (None, None),
    }
}

/// Whether a folder with this NID is in the list.
pub open spec fn listed(folders: Seq<FolderV>, nid: u32) -> bool {
    exists|i: int| 0 <= i < folders.len() && (#[trigger] folders[i]).nid == nid
}

/// The folder that a hierarchy table row describes, under `parent`.
pub open spec fn row_folder(tc: TcV, row: Seq<u8>, parent: u32, prefix: Seq<char>) -> FolderV {
    let name = match tc.string(row, pid::DISPLAY_NAME) {
        Some(s) => s,
        None => seq![],
    };
    FolderV {
        nid: ltp::row_id_of(row),
        parent_nid: parent,
        name,
        path: prefix + "/"@ + name,
        item_count: tc.int32(row, pid::CONTENT_COUNT),
        unread_count: tc.int32(row, pid::CONTENT_UNREAD),
        has_subfolders: tc.flag(row, pid::SUBFOLDERS) == Some(true),
    }
}

/// `folders` with those that the first `n` rows of the hierarchy table of folder
/// `k` add: each row with a NID that is not yet listed.
pub open spec fn with_children(folders: Seq<FolderV>, k: int, tc: TcV, n: nat) -> Seq<FolderV>
    decreases n,
{
    if n == 0 {
        folders
    } else {
        let before = with_children(folders, k, tc, (n - 1) as nat);
        let row = tc.rows[n - 1];
        let nid = ltp::row_id_of(row);
        if nid == 0 || listed(before, nid) {
            before
        } else {
            before.push(row_folder(tc, row, folders[k].nid, folders[k].path))
        }
    }
}

/// The folder list once the folders from position `k` on have been looked into,
/// in the order in which they are listed. Search folders and other non-folder
/// nodes own no hierarchy table; a missing one adds nothing.
pub open spec fn expanded(pff: PffV, folders: Seq<FolderV>, k: int) -> Seq<FolderV>
    decreases 0x1_0000_0001 - folders.len(), folders.len() - k,
{
    let next = looked_into(pff, folders, k);
    if k < 0 || k >= folders.len() {
        folders
    } else if next.len() > 0x1_0000_0000 {
        // Never so: there are no more NIDs than that, and none is listed twice.
        next
    } else {
        proof {
            lemma_looked_into_grows(pff, folders, k);
        }
        expanded(pff, next, k + 1)
    }
}

/// The folder list once folder `k` has been looked into.
pub open spec fn looked_into(pff: PffV, folders: Seq<FolderV>, k: int) -> Seq<FolderV> {
    if type_of(folders[k].nid) != NID_TYPE_NORMAL_FOLDER {
        folders
    } else {
        match ltp::tc_of(pff, table_of(folders[k].nid, NID_TYPE_HIERARCHY_TABLE)) {
            Err(_) => folders,
            Ok(tc) => with_children(folders, k, tc, tc.rows.len()),
        }
    }
}

/// Looking into a folder only adds behind what is listed.
proof fn lemma_with_children_grows(folders: Seq<FolderV>, k: int, tc: TcV, n: nat)
    ensures
        folders.len() <= with_children(folders, k, tc, n).len(),
        with_children(folders, k, tc, n).take(folders.len() as int) == folders,
        with_children(folders, k, tc, n).len() == folders.len() ==> with_children(
            folders,
            k,
            tc,
            n,
        ) == folders,
    decreases n,
{
    assert(folders.take(folders.len() as int) =~= folders);
    if n > 0 {
        lemma_with_children_grows(folders, k, tc, (n - 1) as nat);
        let before = with_children(folders, k, tc, (n - 1) as nat);
        let after = with_children(folders, k, tc, n);
        assert(after.take(folders.len() as int) =~= before.take(folders.len() as int));
    }
}

/// Looking into a folder only adds behind what is listed.
pub proof fn lemma_looked_into_grows(pff: PffV, folders: Seq<FolderV>, k: int)
    ensures
        folders.len() <= looked_into(pff, folders, k).len(),
        looked_into(pff, folders, k).take(folders.len() as int) == folders,
        looked_into(pff, folders, k).len() == folders.len() ==> looked_into(pff, folders, k)
            == folders,
{
    assert(folders.take(folders.len() as int) =~= folders);
    match ltp::tc_of(pff, table_of(folders[k].nid, NID_TYPE_HIERARCHY_TABLE)) {
        Err(_) => {},
        Ok(tc) => lemma_with_children_grows(folders, k, tc, tc.rows.len()),
    }
}

/// The root folder as it is listed.
pub open spec fn root_folder(pff: PffV) -> FolderV {
    let name = match ltp::pc_of(pff, NID_ROOT_FOLDER) {
        Ok(pc) => pc.string(pid::DISPLAY_NAME),
        Err(_) => None,
    };
    FolderV {
        nid: NID_ROOT_FOLDER,
        parent_nid: 0,
        name: match name {
            Some(s) => s,
            None => "Root"@,
        },
        path: seq![],
        item_count: None,
        unread_count: None,
        has_subfolders: true,
    }
}

/// Every folder reachable from the root, breadth-first.
pub open spec fn folder_tree(pff: PffV) -> Seq<FolderV> {
    expanded(pff, seq![root_folder(pff)], 0)
}

/// No two folders of the list share a NID.
pub open spec fn distinct_nids(folders: Seq<FolderV>) -> bool {
    forall|i: int, j: int|
        0 <= i < j < folders.len() ==> (#[trigger] folders[i]).nid != (#[trigger] folders[j]).nid
}

/// Each folder but the first stands behind its parent, and its path is the
/// parent's with its own name behind it.
pub open spec fn parents_first(folders: Seq<FolderV>) -> bool {
    forall|j: int|
        0 < j < folders.len() ==> exists|i: int|
            0 <= i < j && (#[trigger] folders[i]).nid == (#[trigger] folders[j]).parent_nid
                && folders[j].path == folders[i].path + "/"@ + folders[j].name
}

proof fn lemma_with_children_tree(folders: Seq<FolderV>, k: int, tc: TcV, n: nat)
    requires
        0 <= k < folders.len(),
        distinct_nids(folders),
        parents_first(folders),
    ensures
        distinct_nids(with_children(folders, k, tc, n)),
        parents_first(with_children(folders, k, tc, n)),
    decreases n,
{
    if n > 0 {
        lemma_with_children_tree(folders, k, tc, (n - 1) as nat);
        lemma_with_children_grows(folders, k, tc, (n - 1) as nat);
        let before = with_children(folders, k, tc, (n - 1) as nat);
        let after = with_children(folders, k, tc, n);
        assert(before[k] == before.take(folders.len() as int)[k]);
        if after.len() > before.len() {
            assert forall|j: int| 0 < j < after.len() implies exists|i: int|
                0 <= i < j && (#[trigger] after[i]).nid == (#[trigger] after[j]).parent_nid
                    && after[j].path == after[i].path + "/"@ + after[j].name by {
                if j < before.len() {
                    assert(after[j] == before[j]);
                    let i = choose|i: int|
                        0 <= i < j && (#[trigger] before[i]).nid == (#[trigger] before[j]).parent_nid
                            && before[j].path == before[i].path + "/"@ + before[j].name;
                    assert(after[i] == before[i]);
                } else {
                    assert(after[k] == folders[k]);
                }
            }
        }
    }
}

pub proof fn lemma_looked_into_tree(pff: PffV, folders: Seq<FolderV>, k: int)
    requires
        0 <= k < folders.len(),
        distinct_nids(folders),
        parents_first(folders),
    ensures
        distinct_nids(looked_into(pff, folders, k)),
        parents_first(looked_into(pff, folders, k)),
{
    match ltp::tc_of(pff, table_of(folders[k].nid, NID_TYPE_HIERARCHY_TABLE)) {
        Err(_) => {},
        Ok(tc) => lemma_with_children_tree(folders, k, tc, tc.rows.len()),
    }
}

proof fn lemma_expanded_tree(pff: PffV, folders: Seq<FolderV>, k: int)
    requires
        0 <= k,
        distinct_nids(folders),
        parents_first(folders),
    ensures
        distinct_nids(expanded(pff, folders, k)),
        parents_first(expanded(pff, folders, k)),
    decreases 0x1_0000_0001 - folders.len(), folders.len() - k,
{
    if k < folders.len() {
        lemma_looked_into_grows(pff, folders, k);
        lemma_looked_into_tree(pff, folders, k);
        if looked_into(pff, folders, k).len() <= 0x1_0000_0000 {
            lemma_expanded_tree(pff, looked_into(pff, folders, k), k + 1);
        }
    }
}

/// Folder `i` is the parent of folder `j`, which stands behind it.
pub open spec fn is_parent(folders: Seq<FolderV>, i: int, j: int) -> bool {
    0 <= i < j < folders.len() && folders[i].nid == folders[j].parent_nid
}

/// Parents are normal folders, and the folders of one that is listed earlier are
/// listed earlier.
pub open spec fn breadth_first(folders: Seq<FolderV>) -> bool {
    &&& forall|i: int, j: int| #[trigger]
        is_parent(folders, i, j) ==> type_of(folders[i].nid) == NID_TYPE_NORMAL_FOLDER
    &&& forall|i1: int, j1: int, i2: int, j2: int|
        j1 < j2 && #[trigger] is_parent(folders, i1, j1) && #[trigger] is_parent(folders, i2, j2)
            ==> i1 <= i2
}

/// None but the first `k` folders has been looked into.
spec fn looked_up_to(folders: Seq<FolderV>, k: int) -> bool {
    forall|i: int, j: int| #[trigger] is_parent(folders, i, j) ==> i < k
}

proof fn lemma_children_of(folders: Seq<FolderV>, k: int, tc: TcV, n: nat, j: int)
    requires
        folders.len() <= j < with_children(folders, k, tc, n).len(),
    ensures
        with_children(folders, k, tc, n)[j].parent_nid == folders[k].nid,
    decreases n,
{
    if n > 0 {
        let before = with_children(folders, k, tc, (n - 1) as nat);
        if j < before.len() {
            lemma_children_of(folders, k, tc, (n - 1) as nat, j);
            assert(with_children(folders, k, tc, n)[j] == before[j]);
        }
    }
}

proof fn lemma_looked_into_breadth(pff: PffV, folders: Seq<FolderV>, k: int)
    requires
        0 <= k < folders.len(),
        distinct_nids(folders),
        parents_first(folders),
        breadth_first(folders),
        looked_up_to(folders, k),
    ensures
        breadth_first(looked_into(pff, folders, k)),
        looked_up_to(looked_into(pff, folders, k), k + 1),
{
    let next = looked_into(pff, folders, k);
    lemma_looked_into_grows(pff, folders, k);
    lemma_looked_into_tree(pff, folders, k);
    assert(forall|i: int| 0 <= i < folders.len() ==> next[i] == next.take(folders.len() as int)[i]);
    assert(forall|i: int, j: int|
        j < folders.len() && is_parent(next, i, j) ==> #[trigger] is_parent(folders, i, j));
    assert forall|i: int, j: int| #[trigger] is_parent(next, i, j) && j >= folders.len() implies i
        == k && type_of(next[k].nid) == NID_TYPE_NORMAL_FOLDER by {
        let tc = ltp::tc_of(pff, table_of(folders[k].nid, NID_TYPE_HIERARCHY_TABLE))->Ok_0;
        lemma_children_of(folders, k, tc, tc.rows.len(), j);
        assert(next[k] == folders[k]);
        if i < k {
            assert(next[i].nid != next[k].nid);
        } else if k < i {
            assert(next[k].nid != next[i].nid);
        }
    }
    assert forall|i: int, j: int| #[trigger] is_parent(next, i, j) implies i < k + 1 && type_of(
        next[i].nid,
    ) == NID_TYPE_NORMAL_FOLDER by {
        if j < folders.len() {
            assert(is_parent(folders, i, j));
        }
    }
    assert forall|i1: int, j1: int, i2: int, j2: int|
        j1 < j2 && #[trigger] is_parent(next, i1, j1) && #[trigger] is_parent(
            next,
            i2,
            j2,
        ) implies i1 <= i2 by {
        if j2 < folders.len() {
            assert(is_parent(folders, i1, j1) && is_parent(folders, i2, j2));
        } else if j1 < folders.len() {
            assert(is_parent(folders, i1, j1));
        }
    }
}

proof fn lemma_expanded_breadth(pff: PffV, folders: Seq<FolderV>, k: int)
    requires
        0 <= k,
        distinct_nids(folders),
        parents_first(folders),
        breadth_first(folders),
        looked_up_to(folders, k),
    ensures
        breadth_first(expanded(pff, folders, k)),
    decreases 0x1_0000_0001 - folders.len(), folders.len() - k,
{
    if k < folders.len() {
        lemma_looked_into_grows(pff, folders, k);
        lemma_looked_into_tree(pff, folders, k);
        lemma_looked_into_breadth(pff, folders, k);
        if looked_into(pff, folders, k).len() <= 0x1_0000_0000 {
            lemma_expanded_breadth(pff, looked_into(pff, folders, k), k + 1);
        }
    }
}

/// The folder list is a tree, breadth-first: no folder occurs twice; each but the
/// root follows its parent and carries the parent's path with its own name behind
/// it; a parent is a normal folder, and its place never falls as the place of the
/// folder rises.
pub proof fn lemma_folder_tree(pff: PffV)
    ensures
        distinct_nids(folder_tree(pff)),
        parents_first(folder_tree(pff)),
        breadth_first(folder_tree(pff)),
{
    lemma_expanded_tree(pff, seq![root_folder(pff)], 0);
    lemma_expanded_breadth(pff, seq![root_folder(pff)], 0);
}

pub proof fn lemma_distinct_nids_bounded(folders: Seq<FolderV>)
    requires
        distinct_nids(folders),
    ensures
        folders.len() <= 0x1_0000_0000,
{
    let nids = Seq::new(folders.len(), |i: int| folders[i].nid as int);
    assert(nids.no_duplicates()) by {
        assert forall|i: int, j: int|
            0 <= i < nids.len() && 0 <= j < nids.len() && i != j implies nids[i] != nids[j] by {
            assert(folders[i].nid != folders[j].nid);
        }
    }
    nids.unique_seq_to_set();
    let all = vstd::set_lib::set_int_range(0, 0x1_0000_0000);
    vstd::set_lib::lemma_int_range(0, 0x1_0000_0000);
    assert(nids.to_set().subset_of(all));
    vstd::set_lib::lemma_len_subset(nids.to_set(), all);
}

/// A message as its row in a contents table describes it.
pub open spec fn row_message(tc: TcV, row: Seq<u8>, folder_nid: u32) -> MessageRowV {
    let (name, email) = entry_sender(
        either(tc.bytes(row, pid::SENDER_ENTRY_ID), tc.bytes(row, pid::SENT_REPRESENTING_ENTRY_ID)),
    );
    let flags = tc.int32(row, pid::MESSAGE_FLAGS);
    MessageRowV {
        nid: ltp::row_id_of(row),
        folder_nid,
        subject: opt_subject(tc.string(row, pid::SUBJECT)),
        sender_name: either(tc.string(row, pid::SENDER_NAME), name),
        sender_email: either(tc.string(row, pid::SENDER_EMAIL), email),
        delivered_us: time_us(tc.uint64(row, pid::MESSAGE_DELIVERY_TIME)),
        submitted_us: time_us(tc.uint64(row, pid::CLIENT_SUBMIT_TIME)),
        modified_us: time_us(tc.uint64(row, pid::LAST_MODIFICATION_TIME)),
        size: tc.int32(row, pid::MESSAGE_SIZE),
        unread: match flags {
            Some(f) => Some(is_unread(f)),
            None => None,
        },
        has_attachments: either(
            tc.flag(row, pid::HAS_ATTACHMENTS),
            match flags {
                Some(f) => Some(flags_attachment(f)),
                None => None,
            },
        ),
        message_class: tc.string(row, pid::MESSAGE_CLASS),
    }
}

/// The messages of a folder, one per row of its contents table.
pub open spec fn folder_messages(pff: PffV, folder_nid: u32) -> Result<Seq<MessageRowV>, ErrorV> {
    match ltp::tc_of(pff, table_of(folder_nid, NID_TYPE_CONTENTS_TABLE)) {
        Err(e) => Err(e),
        Ok(tc) => Ok(
            Seq::new(tc.rows.len(), |i: int| row_message(tc, tc.rows[i], folder_nid)),
        ),
    }
}

/// A recipient as its row in a recipient table describes it.
pub open spec fn row_recipient(tc: TcV, row: Seq<u8>) -> RecipientV {
    RecipientV {
        kind: tc.int32(row, pid::RECIPIENT_TYPE),
        name: tc.string(row, pid::DISPLAY_NAME),
        email: either(tc.string(row, pid::SMTP_ADDRESS), tc.string(row, pid::EMAIL_ADDRESS)),
    }
}

/// The recipients of a message with these subnodes: those of its recipient table,
/// none where it has no readable one.
pub open spec fn recipients_of(pff: PffV, subs: Map<u32, (u64, u64)>) -> Seq<RecipientV> {
    if !subs.contains_key(NID_RECIPIENT_TABLE) {
        seq![]
    } else {
        let (bid, bid_sub) = subs[NID_RECIPIENT_TABLE];
        match ltp::tc_at(pff, bid, bid_sub) {
            Err(_) => seq![],
            Ok(tc) => Seq::new(tc.rows.len(), |i: int| row_recipient(tc, tc.rows[i])),
        }
    }
}

/// An attachment as its row describes it, with what its own node adds.
pub open spec fn row_attachment(
    pff: PffV,
    subs: Map<u32, (u64, u64)>,
    tc: TcV,
    row: Seq<u8>,
) -> AttachmentV {
    let nid = ltp::row_id_of(row);
    let detail = if subs.contains_key(nid) {
        ltp::pc_at(pff, subs[nid].0, subs[nid].1).ok()
    } else {
        None
    };
    AttachmentV {
        nid,
        filename: either(
            match detail {
                Some(pc) => either(
                    pc.string(pid::ATTACH_LONG_FILENAME),
                    pc.string(pid::ATTACH_FILENAME),
                ),
                None => None,
            },
            tc.string(row, pid::ATTACH_LONG_FILENAME),
        ),
        mime: match detail {
            Some(pc) => pc.string(pid::ATTACH_MIME_TAG),
            None => None,
        },
        content_id: match detail {
            Some(pc) => pc.string(pid::ATTACH_CONTENT_ID),
            None => None,
        },
        declared_size: tc.int32(row, pid::ATTACH_SIZE),
        data_len: match detail {
            Some(pc) => payload_len(pc),
            None => None,
        },
    }
}

/// The length of an attachment's payload. An embedded message stores an object
/// there, not bytes.
pub open spec fn payload_len(pc: PcV) -> Option<nat> {
    match pc.prop(pid::ATTACH_DATA_BINARY) {
        Some(p) => if p.ptype == PT_BINARY {
            match pc.bytes(pid::ATTACH_DATA_BINARY) {
                Some(b) => Some(b.len()),
                None => None,
            }
        } else {
            None
        },
        None => None,
    }
}

/// The attachments of a message, one per row of its attachment table.
pub open spec fn attachments_of(pff: PffV, msg_nid: u32) -> Result<Seq<AttachmentV>, ErrorV> {
    match pff.node(msg_nid) {
        Err(e) => Err(e),
        Ok(node) => match pff.subnodes(node.bid_sub) {
            Err(e) => Err(e),
            Ok(subs) => if !subs.contains_key(NID_ATTACHMENT_TABLE) {
                Ok(seq![])
            } else {
                match ltp::tc_at(
                    pff,
                    subs[NID_ATTACHMENT_TABLE].0,
                    subs[NID_ATTACHMENT_TABLE].1,
                ) {
                    Err(e) => Err(e),
                    Ok(tc) => Ok(
                        Seq::new(
                            tc.rows.len(),
                            |i: int| row_attachment(pff, subs, tc, tc.rows[i]),
                        ),
                    ),
                }
            },
        },
    }
}

/// The payload of one attachment of a message.
pub open spec fn payload_of(pff: PffV, msg_nid: u32, att_nid: u32) -> Result<Seq<u8>, ErrorV> {
    match pff.node(msg_nid) {
        Err(e) => Err(e),
        Ok(node) => match pff.subnodes(node.bid_sub) {
            Err(e) => Err(e),
            Ok(subs) => if !subs.contains_key(att_nid) {
                Err(
                    ErrorV::NotFound(
                        "attachment 0x"@ + text::hex(att_nid as nat)
                            + " is not a subnode of message 0x"@ + text::hex(msg_nid as nat),
                    ),
                )
            } else {
                match ltp::pc_at(pff, subs[att_nid].0, subs[att_nid].1) {
                    Err(e) => Err(e),
                    Ok(pc) => match pc.prop(pid::ATTACH_DATA_BINARY) {
                        Some(p) => if p.ptype == PT_BINARY {
                            match pc.bytes(pid::ATTACH_DATA_BINARY) {
                                Some(b) => Ok(b),
                                None => Err(
                                    ErrorV::Format("attachment payload did not resolve"@),
                                ),
                            }
                        } else {
                            Err(
                                ErrorV::Unsupported(
                                    "attachment is an embedded message, not a byte payload"@,
                                ),
                            )
                        },
                        None => Err(
                            ErrorV::NotFound("attachment has no PidTagAttachDataBinary"@),
                        ),
                    },
                }
            },
        },
    }
}

/// What `compressed_rtf` decompresses these bytes to; nothing where it reports an
/// error.
pub uninterp spec fn rtf_decompressed(b: Seq<u8>) -> Option<Seq<char>>;

/// A compressed RTF stream that can be read at all: it has its 16-byte header, the
/// sizes in it are ones that memory can have, and one that announces itself as not
/// compressed holds the bytes it announces.
pub open spec fn rtf_readable(b: Seq<u8>) -> bool {
    &&& b.len() >= 16
    &&& bytes::le32(b, 0) + 4 <= usize::MAX
    &&& bytes::le32(b, 4) <= isize::MAX
    &&& bytes::le32(b, 0) + 4 == b.len() && bytes::le32(b, 8) == 0x414C_454D ==> bytes::le32(b, 4)
        + 16 <= b.len()
}

/// Calls `compressed_rtf::decompress_rtf`. It indexes the header and an
/// uncompressed body without a check, and adds to the one size and reserves the
/// other, so all of that has to be in order. Whether it succeeds and what it yields
/// is a function of the bytes alone, named [`rtf_decompressed`]; nothing more is
/// claimed of it.
#[verifier::external_body]
fn decompress_rtf(b: &[u8]) -> (r: Option<String>)
    requires
        rtf_readable(b@),
    ensures
        text::opt_text(r) == rtf_decompressed(b@),
{
    match compressed_rtf::decompress_rtf(b) {
        Ok(s) => Some(s),
        Err(_) => None,
    }
}

/// The text of a compressed RTF body.
pub open spec fn rtf_text(b: Option<Seq<u8>>) -> Option<Seq<char>> {
    match b {
        Some(b) => if rtf_readable(b) {
            rtf_decompressed(b)
        } else {
            None
        },
        None => None,
    }
}

/// Decompress an RTF body, if there is one that can be read.
pub fn rtf_body(b: Option<Vec<u8>>) -> (r: Option<String>)
    ensures
        text::opt_text(r) == rtf_text(bytes::opt_bytes(b)),
{
    match b {
        None => None,
        Some(b) => {
            let s: &[u8] = b.as_slice();
            if s.len() < 16 {
                return None;
            }
            let body: u64 = bytes::u32le(s, 4) as u64;
            let stored: bool = bytes::u32le(s, 0) as u64 + 4 == s.len() as u64 && bytes::u32le(s, 8)
                == 0x414C_454D;
            if bytes::u32le(s, 0) as u64 + 4 > usize::MAX as u64 || body > isize::MAX as u64 || (stored
                && body + 16 > s.len() as u64) {
                return None;
            }
            decompress_rtf(s)
        },
    }
}

/// A message as its property context describes it, with the parts that stand
/// elsewhere.
pub open spec fn assembled(
    nid: u32,
    pc: PcV,
    body_rtf: Option<Seq<char>>,
    recipients: Seq<RecipientV>,
    attachments: Seq<AttachmentV>,
) -> MessageV {
    let (name, email) = entry_sender(
        either(pc.bytes(pid::SENDER_ENTRY_ID), pc.bytes(pid::SENT_REPRESENTING_ENTRY_ID)),
    );
    MessageV {
        nid,
        subject: opt_subject(pc.string(pid::SUBJECT)),
        sender_name: either(
            either(pc.string(pid::SENDER_NAME), pc.string(pid::SENT_REPRESENTING_NAME)),
            name,
        ),
        sender_email: either(pc.string(pid::SENDER_EMAIL), email),
        display_to: pc.string(pid::DISPLAY_TO),
        display_cc: pc.string(pid::DISPLAY_CC),
        display_bcc: pc.string(pid::DISPLAY_BCC),
        delivered_us: time_us(pc.uint64(pid::MESSAGE_DELIVERY_TIME)),
        submitted_us: time_us(pc.uint64(pid::CLIENT_SUBMIT_TIME)),
        modified_us: time_us(pc.uint64(pid::LAST_MODIFICATION_TIME)),
        size: pc.int32(pid::MESSAGE_SIZE),
        unread: match pc.int32(pid::MESSAGE_FLAGS) {
            Some(f) => Some(is_unread(f)),
            None => None,
        },
        message_class: pc.string(pid::MESSAGE_CLASS),
        internet_message_id: pc.string(pid::INTERNET_MESSAGE_ID),
        conversation_topic: pc.string(pid::CONVERSATION_TOPIC),
        body_plain: pc.text(pid::BODY),
        body_html: pc.text(pid::HTML),
        body_rtf,
        recipients,
        attachments,
    }
}

/// A full message.
pub open spec fn message_of(pff: PffV, nid: u32) -> Result<MessageV, ErrorV> {
    match pff.node(nid) {
        Err(e) => Err(e),
        Ok(node) => match ltp::pc_at(pff, node.bid_data, node.bid_sub) {
            Err(e) => Err(e),
            Ok(pc) => match pff.subnodes(node.bid_sub) {
                Err(e) => Err(e),
                Ok(subs) => match attachments_of(pff, nid) {
                    Err(e) => Err(e),
                    Ok(attachments) => Ok(
                        assembled(
                            nid,
                            pc,
                            rtf_text(pc.bytes(pid::RTF_COMPRESSED)),
                            recipients_of(pff, subs),
                            attachments,
                        ),
                    ),
                },
            },
        },
    }
}

/// The display name of a store.
pub open spec fn store_name(pff: PffV) -> Option<Seq<char>> {
    match ltp::pc_of(pff, NID_MESSAGE_STORE) {
        Ok(pc) => pc.string(pid::DISPLAY_NAME),
        Err(_) => None,
    }
}

/// An open store.
pub struct Store<'a> {
    pub pff: Pff<'a>,
}

impl<'a> Store<'a> {
    pub open spec fn wf(&self) -> bool {
        self.pff.wf()
    }

    /// Open the store that a file with these bytes holds.
    pub fn open(map: &'a [u8]) -> (r: Result<Store<'a>, Error>)
        ensures
            match r {
                Ok(store) => store.wf() && ndb::opened(map@) == Ok::<PffV, ErrorV>(store.pff@),
                Err(e) => ndb::opened(map@) == Err::<PffV, ErrorV>(e@),
            },
    {
        let pff: Pff<'a> = Pff::from_map(map)?;
        Ok(Store { pff })
    }

    /// `PidTagDisplayName` of the message store node.
    pub fn display_name(&self) -> (r: Option<String>)
        requires
            self.wf(),
        ensures
            text::opt_text(r) == store_name(self.pff@),
    {
        match Pc::open(&self.pff, NID_MESSAGE_STORE) {
            Ok(pc) => pc.string(pid::DISPLAY_NAME),
            Err(_) => None,
        }
    }

    /// Every folder reachable from the root, breadth-first, with paths.
    ///
    /// Names and counts come straight out of each parent's hierarchy table, so
    /// this costs one table read per folder rather than a property-context open
    /// per folder.
    pub fn folders(&self) -> (r: Result<Vec<Folder>, Error>)
        requires
            self.wf(),
        ensures
            r matches Ok(v) && views::views(v@) == folder_tree(self.pff@),
    {
        let root_name: Option<String> = match Pc::open(&self.pff, NID_ROOT_FOLDER) {
            Ok(pc) => pc.string(pid::DISPLAY_NAME),
            Err(_) => None,
        };
        let root: Folder = Folder {
            nid: NID_ROOT_FOLDER,
            parent_nid: 0,
            name: match root_name {
                Some(s) => s,
                None => "Root".to_owned(),
            },
            path: String::new(),
            item_count: None,
            unread_count: None,
            has_subfolders: true,
        };
        let mut out: Vec<Folder> = Vec::new();
        out.push(root);
        let mut seen: HashSet<u32> = HashSet::new();
        seen.insert(NID_ROOT_FOLDER);
        proof {
            assert(root@.path =~= seq![]);
            assert(views::views(out@) =~= seq![root_folder(self.pff@)]);
            assert forall|nid: u32| seen@.contains(nid) <==> listed(views::views(out@), nid) by {
                assert(views::views(out@)[0].nid == NID_ROOT_FOLDER);
            }
        }
        let mut k: usize = 0;
        while k < out.len()
            invariant
                self.wf(),
                k <= out@.len(),
                distinct_nids(views::views(out@)),
                parents_first(views::views(out@)),
                forall|nid: u32| #[trigger] seen@.contains(nid) <==> listed(views::views(out@), nid),
                expanded(self.pff@, views::views(out@), k as int) == folder_tree(self.pff@),
            decreases 0x1_0000_0001 - out@.len(), out@.len() - k,
        {
            let ghost before = views::views(out@);
            let ghost next = looked_into(self.pff@, before, k as int);
            assert(before[k as int] == out@[k as int]@);
            let parent: u32 = out[k].nid;
            if nid_type(parent) == NID_TYPE_NORMAL_FOLDER {
                let hier: u32 = make_nid(nid_index(parent), NID_TYPE_HIERARCHY_TABLE);
                if let Ok(tc) = Tc::open(&self.pff, hier) {
                    add_children(&mut out, &mut seen, k, &tc);
                }
            }
            proof {
                assert(views::views(out@) == next);
                lemma_looked_into_tree(self.pff@, before, k as int);
                lemma_looked_into_grows(self.pff@, before, k as int);
                lemma_distinct_nids_bounded(next);
            }
            k = k + 1;
        }
        Ok(out)
    }
}

/// Lists the folders of a hierarchy table that are not listed yet, as children of
/// folder `k`.
fn add_children(out: &mut Vec<Folder>, seen: &mut HashSet<u32>, k: usize, tc: &Tc)
    requires
        tc.wf(),
        k < old(out)@.len(),
        forall|nid: u32|
            #[trigger] old(seen)@.contains(nid) <==> listed(views::views(old(out)@), nid),
    ensures
        views::views(final(out)@) == with_children(
            views::views(old(out)@),
            k as int,
            tc@,
            tc@.rows.len(),
        ),
        forall|nid: u32|
            #[trigger] final(seen)@.contains(nid) <==> listed(views::views(final(out)@), nid),
{
    let ghost start = views::views(out@);
    let parent: u32 = out[k].nid;
    let prefix: String = out[k].path.clone();
    let n: usize = tc.row_count();
    assert(start[k as int] == out@[k as int]@);
    let mut i: usize = 0;
    while i < n
        invariant
            tc.wf(),
            i <= n,
            n == tc@.rows.len(),
            k < start.len(),
            parent == start[k as int].nid,
            prefix@ == start[k as int].path,
            views::views(out@) == with_children(start, k as int, tc@, i as nat),
            forall|nid: u32| #[trigger] seen@.contains(nid) <==> listed(views::views(out@), nid),
        decreases n - i,
    {
        let row: &[u8] = tc.row(i);
        let nid: u32 = Tc::row_id(row);
        let ghost now = views::views(out@);
        if nid != 0 && !seen.contains(&nid) {
            seen.insert(nid);
            let name: String = match tc.string(row, pid::DISPLAY_NAME) {
                Some(s) => s,
                None => String::new(),
            };
            let path: String = text::cat3(prefix.as_str(), "/", name.as_str());
            let folder: Folder = Folder {
                nid,
                parent_nid: parent,
                name,
                path,
                item_count: tc.i32(row, pid::CONTENT_COUNT),
                unread_count: tc.i32(row, pid::CONTENT_UNREAD),
                has_subfolders: match tc.bool(row, pid::SUBFOLDERS) {
                    Some(b) => b,
                    None => false,
                },
            };
            proof {
                let want = row_folder(tc@, row@, parent, prefix@);
                assert(want.name =~= folder@.name);
                assert(folder@ == want);
            }
            out.push(folder);
            proof {
                let after = views::views(out@);
                assert forall|x: u32| #[trigger] seen@.contains(x) <==> listed(after, x) by {
                    assert(after[after.len() - 1].nid == nid);
                    if listed(now, x) {
                        let w = choose|w: int| 0 <= w < now.len() && (#[trigger] now[w]).nid == x;
                        assert(after[w] == now[w]);
                    }
                    if listed(after, x) && x != nid {
                        let w = choose|w: int| 0 <= w < after.len() && (#[trigger] after[w]).nid
                            == x;
                        assert(after[w] == now[w]);
                    }
                }
            }
        }
        i = i + 1;
    }
}

fn read_message_row(tc: &Tc, row: &[u8], folder_nid: u32) -> (r: MessageRow)
    requires
        tc.wf(),
    ensures
        r@ == row_message(tc@, row@, folder_nid),
{
    let entry: Option<Vec<u8>> = first_of_bytes(
        tc.bytes(row, pid::SENDER_ENTRY_ID),
        tc.bytes(row, pid::SENT_REPRESENTING_ENTRY_ID),
    );
    let (name, email) = sender_of_entry(entry);
    let flags: Option<i32> = tc.i32(row, pid::MESSAGE_FLAGS);
    MessageRow {
        nid: Tc::row_id(row),
        folder_nid,
        subject: cleaned(tc.string(row, pid::SUBJECT)),
        sender_name: first_of_text(tc.string(row, pid::SENDER_NAME), name),
        sender_email: first_of_text(tc.string(row, pid::SENDER_EMAIL), email),
        delivered_us: opt_time(tc.u64(row, pid::MESSAGE_DELIVERY_TIME)),
        submitted_us: opt_time(tc.u64(row, pid::CLIENT_SUBMIT_TIME)),
        modified_us: opt_time(tc.u64(row, pid::LAST_MODIFICATION_TIME)),
        size: tc.i32(row, pid::MESSAGE_SIZE),
        unread: match flags {
            Some(f) => Some(unread_flag(f)),
            None => None,
        },
        has_attachments: match tc.bool(row, pid::HAS_ATTACHMENTS) {
            Some(b) => Some(b),
            None => match flags {
                Some(f) => Some(attachment_flag(f)),
                None => None,
            },
        },
        message_class: tc.string(row, pid::MESSAGE_CLASS),
    }
}

fn read_recipients(pff: &Pff, subs: &HashMap<u32, (u64, u64)>) -> (r: Vec<Recipient>)
    requires
        pff.wf(),
    ensures
        views::views(r@) == recipients_of(pff@, subs@),
{
    let mut out: Vec<Recipient> = Vec::new();
    assert(views::views(out@) =~= seq![]);
    if let Some(entry) = subs.get(&NID_RECIPIENT_TABLE) {
        if let Ok(tc) = Tc::open_at(pff, entry.0, entry.1) {
            let n: usize = tc.row_count();
            let ghost all = Seq::new(tc@.rows.len(), |j: int| row_recipient(tc@, tc@.rows[j]));
            let mut i: usize = 0;
            while i < n
                invariant
                    tc.wf(),
                    i <= n,
                    n == tc@.rows.len(),
                    all == Seq::new(tc@.rows.len(), |j: int| row_recipient(tc@, tc@.rows[j])),
                    views::views(out@) == all.take(i as int),
                decreases n - i,
            {
                let row: &[u8] = tc.row(i);
                let recipient: Recipient = Recipient {
                    kind: tc.i32(row, pid::RECIPIENT_TYPE),
                    name: tc.string(row, pid::DISPLAY_NAME),
                    email: first_of_text(
                        tc.string(row, pid::SMTP_ADDRESS),
                        tc.string(row, pid::EMAIL_ADDRESS),
                    ),
                };
                assert(recipient@ == all[i as int]);
                assert(all.take(i + 1) =~= all.take(i as int).push(all[i as int]));
                out.push(recipient);
                i = i + 1;
            }
            assert(all.take(i as int) =~= all);
        }
    }
    out
}

fn read_payload_len(pc: &Pc) -> (r: Option<usize>)
    requires
        pc.wf(),
    ensures
        match r {
            Some(n) => payload_len(pc@) == Some(n as nat),
            None => payload_len(pc@) is None,
        },
{
    let p: ltp::Prop = pc.prop(pid::ATTACH_DATA_BINARY)?;
    if p.ptype != PT_BINARY {
        return None;
    }
    let b: Vec<u8> = pc.bytes(pid::ATTACH_DATA_BINARY)?;
    Some(b.len())
}

fn read_attachment(pff: &Pff, subs: &HashMap<u32, (u64, u64)>, tc: &Tc, row: &[u8]) -> (r:
    Attachment)
    requires
        pff.wf(),
        tc.wf(),
    ensures
        r@ == row_attachment(pff@, subs@, tc@, row@),
{
    let nid: u32 = Tc::row_id(row);
    // The row carries only a summary; the attachment's own node holds the
    // filename, MIME type and payload.
    let detail: Option<Pc> = match subs.get(&nid) {
        Some(entry) => match Pc::open_at(pff, entry.0, entry.1) {
            Ok(pc) => Some(pc),
            Err(_) => None,
        },
        None => None,
    };
    let (filename, mime, content_id, data_len) = match &detail {
        Some(pc) => (
            first_of_text(
                pc.string(pid::ATTACH_LONG_FILENAME),
                pc.string(pid::ATTACH_FILENAME),
            ),
            pc.string(pid::ATTACH_MIME_TAG),
            pc.string(pid::ATTACH_CONTENT_ID),
            read_payload_len(pc),
        ),
        None => (None, None, None, None),
    };
    Attachment {
        nid,
        filename: first_of_text(filename, tc.string(row, pid::ATTACH_LONG_FILENAME)),
        mime,
        content_id,
        declared_size: tc.i32(row, pid::ATTACH_SIZE),
        data_len,
    }
}

impl<'a> Store<'a> {
    /// Rows of a folder's contents table.
    ///
    /// Contents tables do not all carry the same columns, so any field here can
    /// be `None` for reasons that have nothing to do with the message.
    ///
    /// Sender identity is the awkward one. A v36 contents table has no
    /// `PidTagSenderName` column. What every row does carry is a sender EntryID,
    /// so that is what this reads; see [`entryid_address`]. An Exchange sender's
    /// EntryID holds only an X500 DN, so those rows come back with no name, and
    /// [`Store::message`] is the way to get one.
    pub fn messages(&self, folder_nid: u32) -> (r: Result<Vec<MessageRow>, Error>)
        requires
            self.wf(),
        ensures
            match r {
                Ok(v) => folder_messages(self.pff@, folder_nid) == Ok::<Seq<MessageRowV>, ErrorV>(
                    views::views(v@),
                ),
                Err(e) => folder_messages(self.pff@, folder_nid) == Err::<
                    Seq<MessageRowV>,
                    ErrorV,
                >(e@),
            },
    {
        let contents: u32 = make_nid(nid_index(folder_nid), NID_TYPE_CONTENTS_TABLE);
        let tc: Tc = Tc::open(&self.pff, contents)?;
        let n: usize = tc.row_count();
        let ghost all = Seq::new(
            tc@.rows.len(),
            |j: int| row_message(tc@, tc@.rows[j], folder_nid),
        );
        let mut out: Vec<MessageRow> = Vec::new();
        assert(views::views(out@) =~= all.take(0));
        let mut i: usize = 0;
        while i < n
            invariant
                tc.wf(),
                i <= n,
                n == tc@.rows.len(),
                all == Seq::new(
                    tc@.rows.len(),
                    |j: int| row_message(tc@, tc@.rows[j], folder_nid),
                ),
                views::views(out@) == all.take(i as int),
            decreases n - i,
        {
            let row: MessageRow = read_message_row(&tc, tc.row(i), folder_nid);
            assert(row@ == all[i as int]);
            assert(all.take(i + 1) =~= all.take(i as int).push(all[i as int]));
            out.push(row);
            i = i + 1;
        }
        assert(all.take(i as int) =~= all);
        Ok(out)
    }

    /// A full message: properties, bodies, recipients, and attachment metadata.
    pub fn message(&self, nid: u32) -> (r: Result<Message, Error>)
        requires
            self.wf(),
        ensures
            match r {
                Ok(m) => message_of(self.pff@, nid) == Ok::<MessageV, ErrorV>(m@),
                Err(e) => message_of(self.pff@, nid) == Err::<MessageV, ErrorV>(e@),
            },
    {
        let node: Node = self.pff.node(nid)?;
        let pc: Pc = Pc::open_at(&self.pff, node.bid_data, node.bid_sub)?;
        let subs: HashMap<u32, (u64, u64)> = self.pff.subnodes(node.bid_sub)?;
        // Compressed RTF is a format of its own, unrelated to the zlib framing v36
        // applies to whole blocks.
        let body_rtf: Option<String> = rtf_body(pc.bytes(pid::RTF_COMPRESSED));
        let recipients: Vec<Recipient> = read_recipients(&self.pff, &subs);
        let attachments: Vec<Attachment> = self.attachments(nid)?;
        // The message node normally spells both of these out; the EntryID is the
        // fallback for the rare node that carries only that.
        let entry: Option<Vec<u8>> = first_of_bytes(
            pc.bytes(pid::SENDER_ENTRY_ID),
            pc.bytes(pid::SENT_REPRESENTING_ENTRY_ID),
        );
        let (entry_name, entry_email) = sender_of_entry(entry);
        Ok(
            Message {
                nid,
                subject: cleaned(pc.string(pid::SUBJECT)),
                sender_name: first_of_text(
                    first_of_text(
                        pc.string(pid::SENDER_NAME),
                        pc.string(pid::SENT_REPRESENTING_NAME),
                    ),
                    entry_name,
                ),
                sender_email: first_of_text(pc.string(pid::SENDER_EMAIL), entry_email),
                display_to: pc.string(pid::DISPLAY_TO),
                display_cc: pc.string(pid::DISPLAY_CC),
                display_bcc: pc.string(pid::DISPLAY_BCC),
                delivered_us: opt_time(pc.u64(pid::MESSAGE_DELIVERY_TIME)),
                submitted_us: opt_time(pc.u64(pid::CLIENT_SUBMIT_TIME)),
                modified_us: opt_time(pc.u64(pid::LAST_MODIFICATION_TIME)),
                size: pc.i32(pid::MESSAGE_SIZE),
                unread: match pc.i32(pid::MESSAGE_FLAGS) {
                    Some(f) => Some(unread_flag(f)),
                    None => None,
                },
                message_class: pc.string(pid::MESSAGE_CLASS),
                internet_message_id: pc.string(pid::INTERNET_MESSAGE_ID),
                conversation_topic: pc.string(pid::CONVERSATION_TOPIC),
                body_plain: pc.text(pid::BODY),
                body_html: pc.text(pid::HTML),
                body_rtf,
                recipients,
                attachments,
            },
        )
    }

    /// Attachment metadata for a message. Empty when the message has none.
    pub fn attachments(&self, msg_nid: u32) -> (r: Result<Vec<Attachment>, Error>)
        requires
            self.wf(),
        ensures
            match r {
                Ok(v) => attachments_of(self.pff@, msg_nid) == Ok::<Seq<AttachmentV>, ErrorV>(
                    views::views(v@),
                ),
                Err(e) => attachments_of(self.pff@, msg_nid) == Err::<Seq<AttachmentV>, ErrorV>(e@),
            },
    {
        let node: Node = self.pff.node(msg_nid)?;
        let subs: HashMap<u32, (u64, u64)> = self.pff.subnodes(node.bid_sub)?;
        let mut out: Vec<Attachment> = Vec::new();
        assert(views::views(out@) =~= seq![]);
        let (bid, bid_sub) = match subs.get(&NID_ATTACHMENT_TABLE) {
            Some(entry) => *entry,
            None => {
                return Ok(out);
            },
        };
        let tc: Tc = Tc::open_at(&self.pff, bid, bid_sub)?;
        let n: usize = tc.row_count();
        let ghost all = Seq::new(
            tc@.rows.len(),
            |j: int| row_attachment(self.pff@, subs@, tc@, tc@.rows[j]),
        );
        assert(views::views(out@) =~= all.take(0));
        let mut i: usize = 0;
        while i < n
            invariant
                self.wf(),
                tc.wf(),
                i <= n,
                n == tc@.rows.len(),
                all == Seq::new(
                    tc@.rows.len(),
                    |j: int| row_attachment(self.pff@, subs@, tc@, tc@.rows[j]),
                ),
                views::views(out@) == all.take(i as int),
            decreases n - i,
        {
            let a: Attachment = read_attachment(&self.pff, &subs, &tc, tc.row(i));
            assert(a@ == all[i as int]);
            assert(all.take(i + 1) =~= all.take(i as int).push(all[i as int]));
            out.push(a);
            i = i + 1;
        }
        assert(all.take(i as int) =~= all);
        Ok(out)
    }

    /// Payload bytes of one attachment.
    pub fn attachment_bytes(&self, msg_nid: u32, att_nid: u32) -> (r: Result<Vec<u8>, Error>)
        requires
            self.wf(),
        ensures
            match r {
                Ok(v) => payload_of(self.pff@, msg_nid, att_nid) == Ok::<Seq<u8>, ErrorV>(v@),
                Err(e) => payload_of(self.pff@, msg_nid, att_nid) == Err::<Seq<u8>, ErrorV>(e@),
            },
    {
        let node: Node = self.pff.node(msg_nid)?;
        let subs: HashMap<u32, (u64, u64)> = self.pff.subnodes(node.bid_sub)?;
        let (bid, bid_sub) = match subs.get(&att_nid) {
            Some(entry) => *entry,
            None => {
                let head: String = text::cat3(
                    "attachment 0x",
                    text::hex_string(att_nid as u64).as_str(),
                    " is not a subnode of message 0x",
                );
                return Err(
                    Error::NotFound(
                        text::cat2(head.as_str(), text::hex_string(msg_nid as u64).as_str()),
                    ),
                );
            },
        };
        let pc: Pc = Pc::open_at(&self.pff, bid, bid_sub)?;
        match pc.prop(pid::ATTACH_DATA_BINARY) {
            Some(p) => if p.ptype == PT_BINARY {
                match pc.bytes(pid::ATTACH_DATA_BINARY) {
                    Some(b) => Ok(b),
                    None => Err(Error::Format("attachment payload did not resolve".to_owned())),
                }
            } else {
                Err(
                    Error::Unsupported(
                        "attachment is an embedded message, not a byte payload".to_owned(),
                    ),
                )
            },
            None => Err(Error::NotFound("attachment has no PidTagAttachDataBinary".to_owned())),
        }
    }
}

/// The bytes of a listed attachment are as many as its metadata says, and are
/// there whenever it says so.
pub proof fn lemma_listed_length_is_payload_length(pff: PffV, msg_nid: u32, i: int)
    requires
        attachments_of(pff, msg_nid) matches Ok(list) && 0 <= i < list.len(),
    ensures
        attachments_of(pff, msg_nid)->Ok_0[i].data_len matches Some(n) ==> (payload_of(
            pff,
            msg_nid,
            attachments_of(pff, msg_nid)->Ok_0[i].nid,
        ) matches Ok(b) && b.len() == n),
{
}

} // verus!
