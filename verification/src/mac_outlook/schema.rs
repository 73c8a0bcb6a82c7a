//! What the rows of `Outlook.sqlite` mean: folders, mail records, and the blocks
//! that link a message to its source and attachment files.

use std::collections::HashMap;
use vstd::prelude::*;
use crate::errors::ErrorV;
use crate::mailbox;
use crate::mailbox::{Error, FolderV, MessageRowV};
use crate::maps;
use crate::search;
use crate::text;
use crate::views;

verus! {

broadcast use {vstd::std_specs::hash::group_hash_axioms, views::lemma_views_push};

/// A failed query.
pub fn sql_error(what: &str) -> (r: Error)
    ensures
        r@ == ErrorV::Format("sqlite: "@ + what@),
{
    Error::Format(text::cat2("sqlite: ", what))
}

/// The first name of an account that is not empty.
pub open spec fn first_name(names: Seq<Option<String>>, i: int) -> Option<Seq<char>>
    decreases names.len() - i,
{
    if i < 0 || i >= names.len() {
        None
    } else {
        match names[i] {
            Some(s) => if s@.len() > 0 {
                Some(s@)
            } else {
                first_name(names, i + 1)
            },
            None => first_name(names, i + 1),
        }
    }
}

/// The name of whichever account table has one first.
pub fn display_name(names: &Vec<Option<String>>) -> (r: Option<String>)
    ensures
        text::opt_text(r) == first_name(names@, 0),
{
    let mut i: usize = 0;
    while i < names.len()
        invariant
            i <= names@.len(),
            first_name(names@, i as int) == first_name(names@, 0),
        decreases names@.len() - i,
    {
        if let Some(s) = &names[i] {
            if s.as_str().unicode_len() > 0 {
                return Some(s.clone());
            }
        }
        i = i + 1;
    }
    None
}

/// The literal text Outlook itself writes into a folder's name when the folder is
/// scaffolding rather than a synced folder.
pub open spec fn placeholder(name: Seq<char>) -> bool {
    search::has_prefix(name, "Placeholder_"@) && name.len() >= 12 && search::stands_at(
        name,
        "_Placeholder"@,
        name.len() - 12,
    )
}

pub fn is_placeholder_name(name: &str) -> (r: bool)
    ensures
        r == placeholder(name@),
{
    proof {
        reveal_strlit("_Placeholder");
    }
    let cs: Vec<char> = text::chars_of(name);
    let n: usize = cs.len();
    if !search::starts_with(cs.as_slice(), text::chars_of("Placeholder_").as_slice()) || n < 12 {
        return false;
    }
    let tail: &[char] = vstd::slice::slice_subrange(cs.as_slice(), n - 12, n);
    text::same_chars(tail, text::chars_of("_Placeholder").as_slice())
}

/// The names of the special folders. Code 0 stands for two different folders, so
/// it names none.
pub open spec fn special_name(code: i64) -> Option<Seq<char>> {
    if code == 1 {
        Some("Inbox"@)
    } else if code == 2 {
        Some("Outbox"@)
    } else if code == 3 {
        Some("Address Book"@)
    } else if code == 4 {
        Some("Calendar"@)
    } else if code == 5 {
        Some("Notes"@)
    } else if code == 6 {
        Some("Tasks"@)
    } else if code == 8 {
        Some("Sent Items"@)
    } else if code == 9 {
        Some("Deleted Items"@)
    } else if code == 10 {
        Some("Drafts"@)
    } else if code == 12 {
        Some("Junk Email"@)
    } else if code == 99 {
        Some("On My Computer"@)
    } else if code == 103 {
        Some("Temporary Items"@)
    } else {
        None
    }
}

/// `Folder_SpecialFolderType` to canonical name.
pub fn special_folder_name(code: i64) -> (r: Option<&'static str>)
    ensures
        match r {
            Some(s) => special_name(code) == Some(s@),
            None => special_name(code) is None,
        },
{
    if code == 1 {
        Some("Inbox")
    } else if code == 2 {
        Some("Outbox")
    } else if code == 3 {
        Some("Address Book")
    } else if code == 4 {
        Some("Calendar")
    } else if code == 5 {
        Some("Notes")
    } else if code == 6 {
        Some("Tasks")
    } else if code == 8 {
        Some("Sent Items")
    } else if code == 9 {
        Some("Deleted Items")
    } else if code == 10 {
        Some("Drafts")
    } else if code == 12 {
        Some("Junk Email")
    } else if code == 99 {
        Some("On My Computer")
    } else if code == 103 {
        Some("Temporary Items")
    } else {
        None
    }
}

/// A row of the folder table.
#[derive(Clone, Debug)]
pub struct FolderRecord {
    pub id: i64,
    /// The parent's record id; zero or less for a folder without one.
    pub parent: i64,
    pub name: String,
    pub special: i64,
}

/// A folder row with its name as a sequence of characters.
pub struct FolderRecordV {
    pub id: i64,
    pub parent: i64,
    pub name: Seq<char>,
    pub special: i64,
}

impl View for FolderRecord {
    type V = FolderRecordV;

    open spec fn view(&self) -> FolderRecordV {
        FolderRecordV {
            id: self.id,
            parent: self.parent,
            name: self.name@,
            special: self.special,
        }
    }
}

impl FolderRecordV {
    /// The folder's real name, if it has one. A placeholder is not a name.
    pub open spec fn real_name(self) -> Option<Seq<char>> {
        match special_name(self.special) {
            Some(n) => Some(n),
            None => if placeholder(self.name) {
                None
            } else {
                Some(self.name)
            },
        }
    }

    pub open spec fn parent_id(self) -> Option<i64> {
        if self.parent > 0 {
            Some(self.parent)
        } else {
            None
        }
    }

    /// The folder's part of a path.
    pub open spec fn segment(self) -> Seq<char> {
        match self.real_name() {
            Some(n) => n,
            None => "folder-"@ + text::signed(self.id as int),
        }
    }
}

/// No folder is ever shown under a placeholder name.
pub proof fn lemma_no_placeholder_surfaces(row: FolderRecordV)
    ensures
        row.real_name() matches Some(n) ==> !placeholder(n),
{
    reveal_strlit("Placeholder_");
    reveal_strlit("Inbox");
    reveal_strlit("Outbox");
    reveal_strlit("Address Book");
    reveal_strlit("Calendar");
    reveal_strlit("Notes");
    reveal_strlit("Tasks");
    reveal_strlit("Sent Items");
    reveal_strlit("Deleted Items");
    reveal_strlit("Drafts");
    reveal_strlit("Junk Email");
    reveal_strlit("On My Computer");
    reveal_strlit("Temporary Items");
    if let Some(n) = special_name(row.special) {
        if placeholder(n) {
            assert(n.subrange(0, 12)[0] == n[0]);
        }
    }
}

impl FolderRecord {
    fn read_name(&self) -> (r: Option<String>)
        ensures
            text::opt_text(r) == self@.real_name(),
    {
        match special_folder_name(self.special) {
            Some(s) => Some(s.to_owned()),
            None => if is_placeholder_name(self.name.as_str()) {
                None
            } else {
                Some(self.name.clone())
            },
        }
    }

    fn read_parent(&self) -> (r: Option<i64>)
        ensures
            r == self@.parent_id(),
    {
        if self.parent > 0 {
            Some(self.parent)
        } else {
            None
        }
    }

    fn read_segment(&self) -> (r: String)
        ensures
            r@ == self@.segment(),
    {
        match self.read_name() {
            Some(n) => n,
            None => text::cat2("folder-", text::signed_string(self.id).as_str()),
        }
    }
}

/// How many messages a folder holds, and how many of them are unread.
#[derive(Clone, Copy, Debug)]
pub struct CountRecord {
    pub folder_id: i64,
    pub total: i64,
    pub unread: Option<i64>,
}

/// The position of each folder row under its id.
pub open spec fn rows_by_id(rows: Seq<FolderRecordV>) -> Map<i64, usize> {
    maps::last_wins(Seq::new(rows.len(), |i: int| (rows[i].id, i as usize)))
}

/// The total and the unread messages of each folder.
pub open spec fn counts_by_id(counts: Seq<CountRecord>) -> Map<i64, (i64, i64)> {
    maps::last_wins(
        Seq::new(
            counts.len(),
            |i: int|
                (
                    counts[i].folder_id,
                    (
                        counts[i].total,
                        match counts[i].unread {
                            Some(n) => n,
                            None => 0,
                        },
                    ),
                ),
        ),
    )
}

/// The path of a folder: the segments of its ancestors and its own, at most
/// `steps` of them, so that a cycle of parents ends.
pub open spec fn path_of(rows: Seq<FolderRecordV>, id: i64, steps: nat) -> Seq<char>
    decreases steps,
{
    if steps == 0 || !rows_by_id(rows).contains_key(id) {
        seq![]
    } else {
        let f = rows[rows_by_id(rows)[id] as int];
        let above = match f.parent_id() {
            Some(p) => path_of(rows, p, (steps - 1) as nat),
            None => seq![],
        };
        above + "/"@ + f.segment()
    }
}

/// Whether a folder is the parent of some other.
pub open spec fn has_children(rows: Seq<FolderRecordV>, id: i64) -> bool {
    exists|i: int| 0 <= i < rows.len() && (#[trigger] rows[i]).parent_id() == Some(id)
}

/// A folder as it is listed.
pub open spec fn listed_folder(
    rows: Seq<FolderRecordV>,
    counts: Map<i64, (i64, i64)>,
    f: FolderRecordV,
) -> FolderV {
    let (total, unread) = if counts.contains_key(f.id) {
        counts[f.id]
    } else {
        (0i64, 0i64)
    };
    FolderV {
        id: f.id,
        parent_id: f.parent_id(),
        name: f.real_name(),
        path: path_of(rows, f.id, 64),
        item_count: Some(total),
        unread_count: Some(unread),
        has_subfolders: has_children(rows, f.id),
        is_search_folder: false,
    }
}

/// The folders of a profile, one per row.
pub open spec fn folder_list(rows: Seq<FolderRecordV>, counts: Seq<CountRecord>) -> Seq<FolderV> {
    Seq::new(rows.len(), |i: int| listed_folder(rows, counts_by_id(counts), rows[i]))
}

/// Whether the parents of a folder run out within `steps` rows, its own counted.
pub open spec fn ends_within(rows: Seq<FolderRecordV>, id: i64, steps: nat) -> bool
    decreases steps,
{
    !rows_by_id(rows).contains_key(id) || (steps > 0
        && match rows[rows_by_id(rows)[id] as int].parent_id() {
        Some(p) => ends_within(rows, p, (steps - 1) as nat),
        None => true,
    })
}

proof fn lemma_path_needs_no_more_steps(rows: Seq<FolderRecordV>, id: i64, steps: nat, more: nat)
    requires
        ends_within(rows, id, steps),
        steps <= more,
    ensures
        path_of(rows, id, more) == path_of(rows, id, steps),
    decreases steps,
{
    if rows_by_id(rows).contains_key(id) {
        if let Some(p) = rows[rows_by_id(rows)[id] as int].parent_id() {
            lemma_path_needs_no_more_steps(rows, p, (steps - 1) as nat, (more - 1) as nat);
        }
    }
}

/// The path of a listed folder is that of its parent, as that is listed, with its
/// own segment behind it; and its segment alone where it has no parent, or none
/// that is listed. This holds as long as its parents run out within 64 rows, and of
/// the last of the rows that carry its id.
pub proof fn lemma_path_is_parents_path_and_segment(
    rows: Seq<FolderRecordV>,
    counts: Seq<CountRecord>,
    i: int,
)
    requires
        0 <= i < rows.len() <= usize::MAX,
        forall|k: int| i < k < rows.len() ==> (#[trigger] rows[k]).id != rows[i].id,
        ends_within(rows, rows[i].id, 64),
    ensures
        forall|j: int|
            0 <= j < rows.len() && rows[i].parent_id() == Some((#[trigger] rows[j]).id)
                ==> folder_list(rows, counts)[i].path == folder_list(rows, counts)[j].path + "/"@
                + rows[i].segment(),
        (forall|j: int|
            0 <= j < rows.len() ==> rows[i].parent_id() != Some((#[trigger] rows[j]).id))
            ==> folder_list(rows, counts)[i].path == "/"@ + rows[i].segment(),
{
    let id = rows[i].id;
    let entries = Seq::new(rows.len(), |k: int| (rows[k].id, k as usize));
    maps::lemma_last_wins_is_last(entries, id);
    assert(entries[i] == (id, i as usize));
    assert(forall|k: int| i < k < entries.len() ==> (#[trigger] entries[k]).0 == rows[k].id);
    assert(rows_by_id(rows)[id] == i as usize);
    if let Some(p) = rows[i].parent_id() {
        assert(ends_within(rows, p, 63));
        lemma_path_needs_no_more_steps(rows, p, 63, 64);
        maps::lemma_last_wins_is_last(entries, p);
        if rows_by_id(rows).contains_key(p) {
            let j = choose|j: int| 0 <= j < entries.len() && (#[trigger] entries[j]).0 == p;
            assert(rows[j].id == p);
        }
    }
    assert(Seq::<char>::empty() + "/"@ =~= "/"@);
}

fn index_rows(rows: &Vec<FolderRecord>) -> (r: HashMap<i64, usize>)
    ensures
        r@ == rows_by_id(views::views(rows@)),
        forall|id: i64| #[trigger] r@.contains_key(id) ==> r@[id] < rows@.len(),
{
    let ghost vs = views::views(rows@);
    let ghost all = Seq::new(vs.len(), |i: int| (vs[i].id, i as usize));
    let mut m: HashMap<i64, usize> = HashMap::new();
    let mut i: usize = 0;
    assert(all.take(0) =~= seq![]);
    while i < rows.len()
        invariant
            i <= rows@.len(),
            vs == views::views(rows@),
            all == Seq::new(vs.len(), |j: int| (vs[j].id, j as usize)),
            m@ == maps::last_wins(all.take(i as int)),
            forall|id: i64| #[trigger] m@.contains_key(id) ==> m@[id] < i,
        decreases rows@.len() - i,
    {
        m.insert(rows[i].id, i);
        assert(all.take(i + 1).drop_last() =~= all.take(i as int));
        assert(all.take(i + 1).last() == (rows@[i as int].id, i));
        i = i + 1;
    }
    assert(all.take(i as int) =~= all);
    m
}

fn index_counts(counts: &Vec<CountRecord>) -> (r: HashMap<i64, (i64, i64)>)
    ensures
        r@ == counts_by_id(counts@),
{
    let ghost all = Seq::new(
        counts@.len(),
        |i: int|
            (
                counts@[i].folder_id,
                (
                    counts@[i].total,
                    match counts@[i].unread {
                        Some(n) => n,
                        None => 0i64,
                    },
                ),
            ),
    );
    let mut m: HashMap<i64, (i64, i64)> = HashMap::new();
    let mut i: usize = 0;
    assert(all.take(0) =~= seq![]);
    while i < counts.len()
        invariant
            i <= counts@.len(),
            all.len() == counts@.len(),
            forall|j: int|
                0 <= j < all.len() ==> #[trigger] all[j] == (
                    counts@[j].folder_id,
                    (
                        counts@[j].total,
                        match counts@[j].unread {
                            Some(n) => n,
                            None => 0i64,
                        },
                    ),
                ),
            m@ == maps::last_wins(all.take(i as int)),
        decreases counts@.len() - i,
    {
        let c: CountRecord = counts[i];
        let unread: i64 = match c.unread {
            Some(n) => n,
            None => 0,
        };
        m.insert(c.folder_id, (c.total, unread));
        assert(all.take(i + 1).drop_last() =~= all.take(i as int));
        assert(all.take(i + 1).last() == all[i as int]);
        i = i + 1;
    }
    assert(all.take(i as int) =~= all);
    assert(all =~= Seq::new(
        counts@.len(),
        |j: int|
            (
                counts@[j].folder_id,
                (
                    counts@[j].total,
                    match counts@[j].unread {
                        Some(n) => n,
                        None => 0i64,
                    },
                ),
            ),
    ));
    m
}

fn write_path(
    rows: &Vec<FolderRecord>,
    by_id: &HashMap<i64, usize>,
    id: i64,
    steps: u32,
    out: &mut String,
)
    requires
        by_id@ == rows_by_id(views::views(rows@)),
        forall|k: i64| #[trigger] by_id@.contains_key(k) ==> by_id@[k] < rows@.len(),
    ensures
        final(out)@ == old(out)@ + path_of(views::views(rows@), id, steps as nat),
    decreases steps,
{
    let ghost start = out@;
    if steps == 0 {
        assert(start + path_of(views::views(rows@), id, 0) =~= start);
        return;
    }
    match by_id.get(&id) {
        None => {
            assert(start + path_of(views::views(rows@), id, steps as nat) =~= start);
        },
        Some(at) => {
            let f: &FolderRecord = &rows[*at];
            assert(views::views(rows@)[*at as int] == f@);
            if let Some(p) = f.read_parent() {
                write_path(rows, by_id, p, steps - 1, out);
            }
            let ghost above = match f@.parent_id() {
                Some(p) => path_of(views::views(rows@), p, (steps - 1) as nat),
                None => seq![],
            };
            assert(out@ =~= start + above);
            out.append("/");
            out.append(f.read_segment().as_str());
            assert(out@ =~= start + (above + "/"@ + f@.segment()));
        },
    }
}

fn any_child(rows: &Vec<FolderRecord>, id: i64) -> (r: bool)
    ensures
        r == has_children(views::views(rows@), id),
{
    let ghost vs = views::views(rows@);
    let mut i: usize = 0;
    while i < rows.len()
        invariant
            i <= rows@.len(),
            vs == views::views(rows@),
            forall|k: int| 0 <= k < i ==> (#[trigger] vs[k]).parent_id() != Some(id),
        decreases rows@.len() - i,
    {
        assert(vs[i as int] == rows@[i as int]@);
        if let Some(p) = rows[i].read_parent() {
            if p == id {
                return true;
            }
        }
        i = i + 1;
    }
    false
}

/// The folders that the rows of the folder table describe, with the counts of the
/// messages that are really there.
pub fn folders(rows: &Vec<FolderRecord>, counts: &Vec<CountRecord>) -> (r: Vec<mailbox::Folder>)
    ensures
        views::views(r@) == folder_list(views::views(rows@), counts@),
{
    let by_id: HashMap<i64, usize> = index_rows(rows);
    let totals: HashMap<i64, (i64, i64)> = index_counts(counts);
    let ghost vs = views::views(rows@);
    let ghost all = folder_list(vs, counts@);
    let mut out: Vec<mailbox::Folder> = Vec::new();
    let mut i: usize = 0;
    assert(views::views(out@) =~= all.take(0));
    while i < rows.len()
        invariant
            i <= rows@.len(),
            vs == views::views(rows@),
            all == folder_list(vs, counts@),
            by_id@ == rows_by_id(vs),
            forall|k: i64| #[trigger] by_id@.contains_key(k) ==> by_id@[k] < rows@.len(),
            totals@ == counts_by_id(counts@),
            views::views(out@) == all.take(i as int),
        decreases rows@.len() - i,
    {
        let f: &FolderRecord = &rows[i];
        assert(vs[i as int] == f@);
        let (item_count, unread_count) = match totals.get(&f.id) {
            Some(c) => *c,
            None => (0, 0),
        };
        let mut path: String = String::new();
        write_path(rows, &by_id, f.id, 64, &mut path);
        assert(path@ =~= path_of(vs, f.id, 64));
        let folder: mailbox::Folder = mailbox::Folder {
            id: f.id,
            parent_id: f.read_parent(),
            name: f.read_name(),
            path,
            item_count: Some(item_count),
            unread_count: Some(unread_count),
            has_subfolders: any_child(rows, f.id),
            is_search_folder: false,
        };
        assert(folder@ == all[i as int]);
        assert(all.take(i + 1) =~= all.take(i as int).push(all[i as int]));
        out.push(folder);
        i = i + 1;
    }
    assert(all.take(i as int) =~= all);
    out
}

/// A row of the mail table. The times are seconds since 1970.
#[derive(Clone, Debug)]
pub struct MailRecord {
    pub id: i64,
    pub folder_id: i64,
    pub subject: Option<String>,
    pub sender_name: Option<String>,
    pub sender_email: Option<String>,
    pub received: Option<i64>,
    pub sent: Option<i64>,
    pub modified: Option<i64>,
    pub size: Option<i64>,
    pub read_flag: Option<i64>,
    pub has_attachment: Option<i64>,
    pub path_to_data_file: Option<String>,
    pub thread_topic: Option<String>,
}

/// A mail record as it is listed, with what only its message needs.
#[derive(Clone, Debug)]
pub struct RawMail {
    pub row: mailbox::MessageRow,
    pub path_to_data_file: Option<String>,
    pub conversation_topic: Option<String>,
}

/// A number of seconds that can be told in microseconds.
pub open spec fn tellable(secs: Option<i64>) -> bool {
    secs matches Some(s) ==> i64::MIN <= s * 1_000_000 <= i64::MAX
}

/// Whether all times of a mail record can be told in microseconds.
pub open spec fn tellable_times(m: MailRecord) -> bool {
    tellable(m.received) && tellable(m.sent) && tellable(m.modified)
}

/// Whether a number of seconds can be told in microseconds.
pub fn can_tell(secs: Option<i64>) -> (r: bool)
    ensures
        r == tellable(secs),
{
    match secs {
        Some(s) => -9_223_372_036_854 <= s && s <= 9_223_372_036_854,
        None => true,
    }
}

/// Seconds as microseconds.
pub open spec fn in_us(secs: Option<i64>) -> Option<i64> {
    match secs {
        Some(s) => Some((s * 1_000_000) as i64),
        None => None,
    }
}

pub fn to_us(secs: Option<i64>) -> (r: Option<i64>)
    requires
        tellable(secs),
    ensures
        r == in_us(secs),
{
    match secs {
        Some(s) => Some(s * 1_000_000),
        None => None,
    }
}

/// A text that is there and not empty.
pub open spec fn not_empty(s: Option<Seq<char>>) -> Option<Seq<char>> {
    match s {
        Some(t) => if t.len() > 0 {
            Some(t)
        } else {
            None
        },
        None => None,
    }
}

fn keep_text(s: Option<String>) -> (r: Option<String>)
    ensures
        text::opt_text(r) == not_empty(text::opt_text(s)),
{
    match s {
        Some(t) => if t.as_str().unicode_len() > 0 {
            Some(t)
        } else {
            None
        },
        None => None,
    }
}

/// A mail record as it is listed.
pub open spec fn listed_mail(m: MailRecord) -> MessageRowV {
    MessageRowV {
        id: m.id,
        folder_id: m.folder_id,
        subject: text::opt_text(m.subject),
        sender_name: not_empty(text::opt_text(m.sender_name)),
        sender_email: not_empty(text::opt_text(m.sender_email)),
        delivered_us: in_us(m.received),
        submitted_us: in_us(m.sent),
        modified_us: in_us(m.modified),
        size: m.size,
        unread: match m.read_flag {
            Some(f) => Some(f == 0),
            None => None,
        },
        has_attachments: match m.has_attachment {
            Some(f) => Some(f != 0),
            None => None,
        },
        message_class: None,
    }
}

/// Read a row of the mail table. No column of it holds a message class.
pub fn row_to_mail(m: MailRecord) -> (r: RawMail)
    requires
        tellable_times(m),
    ensures
        r.row@ == listed_mail(m),
        text::opt_text(r.path_to_data_file) == text::opt_text(m.path_to_data_file),
        text::opt_text(r.conversation_topic) == not_empty(text::opt_text(m.thread_topic)),
{
    RawMail {
        row: mailbox::MessageRow {
            id: m.id,
            folder_id: m.folder_id,
            subject: m.subject,
            sender_name: keep_text(m.sender_name),
            sender_email: keep_text(m.sender_email),
            delivered_us: to_us(m.received),
            submitted_us: to_us(m.sent),
            modified_us: to_us(m.modified),
            size: m.size,
            unread: match m.read_flag {
                Some(f) => Some(f == 0),
                None => None,
            },
            has_attachments: match m.has_attachment {
                Some(f) => Some(f != 0),
                None => None,
            },
            message_class: None,
        },
        path_to_data_file: m.path_to_data_file,
        conversation_topic: keep_text(m.thread_topic),
    }
}

/// The mail record that a query by id gave, or the error that there is none.
pub fn mail_row(found: Option<MailRecord>, id: i64) -> (r: Result<RawMail, Error>)
    requires
        found matches Some(m) ==> tellable_times(m),
    ensures
        match (found, r) {
            (Some(m), Ok(raw)) => raw.row@ == listed_mail(m) && text::opt_text(
                raw.path_to_data_file,
            ) == text::opt_text(m.path_to_data_file) && text::opt_text(raw.conversation_topic)
                == not_empty(text::opt_text(m.thread_topic)),
            (None, Err(e)) => e@ == ErrorV::NotFound("mail record "@ + text::signed(id as int)),
            _ => false,
        },
{
    match found {
        Some(m) => Ok(row_to_mail(m)),
        None => Err(
            Error::NotFound(text::cat2("mail record ", text::signed_string(id).as_str())),
        ),
    }
}

/// The messages of a folder, one per row of the mail table.
pub fn messages(rows: Vec<MailRecord>) -> (r: Vec<mailbox::MessageRow>)
    requires
        forall|i: int| 0 <= i < rows@.len() ==> tellable_times(#[trigger] rows@[i]),
    ensures
        views::views(r@) == Seq::new(rows@.len(), |i: int| listed_mail(rows@[i])),
{
    let ghost all = Seq::new(rows@.len(), |i: int| listed_mail(rows@[i]));
    let mut out: Vec<mailbox::MessageRow> = Vec::new();
    assert(views::views(out@) =~= all.take(0));
    for m in it: rows
        invariant
            it.seq() == rows@,
            all == Seq::new(rows@.len(), |i: int| listed_mail(rows@[i])),
            forall|i: int| 0 <= i < rows@.len() ==> tellable_times(#[trigger] rows@[i]),
            views::views(out@) == all.take(it.index()),
    {
        let ghost k = it.index();
        assert(m == rows@[k]);
        assert(all.take(k + 1) =~= all.take(k).push(all[k]));
        let raw: RawMail = row_to_mail(m);
        out.push(raw.row);
    }
    assert(all.take(all.len() as int) =~= all);
    out
}

/// FNV-1a over these bytes, 64 bits wide.
pub open spec fn fnv(b: Seq<u8>) -> u64
    decreases b.len(),
{
    if b.len() == 0 {
        0xcbf29ce484222325u64
    } else {
        (((fnv(b.drop_last()) ^ (b.last() as u64)) as int * 0x100000001b3) % 0x1_0000_0000_0000_0000)
            as u64
    }
}

/// The id that stands for a block: its hash without the sign bit.
pub open spec fn block_id(b: Seq<u8>) -> i64 {
    (fnv(b) as int % 0x8000_0000_0000_0000) as i64
}

/// FNV-1a 64-bit over a `Blocks.BlockID` blob, folded into a positive `i64`.
/// `BlockID` is a `BLOB` primary key, not an integer, so this gives it a stable
/// surrogate id without needing a second lookup table.
pub fn block_id_hash(b: &[u8]) -> (r: i64)
    ensures
        r == block_id(b@),
        r >= 0,
{
    let mut hash: u64 = 0xcbf29ce484222325;
    let mut i: usize = 0;
    assert(b@.take(0) =~= seq![]);
    while i < b.len()
        invariant
            i <= b@.len(),
            hash == fnv(b@.take(i as int)),
        decreases b@.len() - i,
    {
        assert(b@.take(i + 1).drop_last() =~= b@.take(i as int));
        let mixed: u64 = hash ^ (b[i] as u64);
        hash = ((mixed as u128 * 0x100000001b3) % 0x1_0000_0000_0000_0000) as u64;
        i = i + 1;
    }
    assert(b@.take(i as int) =~= b@);
    (hash % 0x8000_0000_0000_0000) as i64
}

/// One block linked to a mail record, with a derived `i64` id standing in for its
/// `BLOB` primary key.
#[derive(Clone, Debug)]
pub struct LinkedBlock {
    pub id: i64,
    pub path_to_data_file: String,
}

/// A linked block with its path as a sequence of characters.
pub struct LinkedBlockV {
    pub id: i64,
    pub path_to_data_file: Seq<char>,
}

impl View for LinkedBlock {
    type V = LinkedBlockV;

    open spec fn view(&self) -> LinkedBlockV {
        LinkedBlockV { id: self.id, path_to_data_file: self.path_to_data_file@ }
    }
}

/// Whether a part stands in a path; nothing stands in every one.
pub open spec fn path_holds(path: Seq<char>, part: Seq<char>) -> bool {
    part.len() == 0 || search::occurs(path, part)
}

/// The blocks whose path holds `part`, in the order of the rows.
pub open spec fn blocks_with(rows: Seq<(Vec<u8>, String)>, part: Seq<char>) -> Seq<LinkedBlockV>
    decreases rows.len(),
{
    if rows.len() == 0 {
        seq![]
    } else if path_holds(rows.last().1@, part) {
        blocks_with(rows.drop_last(), part).push(
            LinkedBlockV {
                id: block_id(rows.last().0@),
                path_to_data_file: rows.last().1@,
            },
        )
    } else {
        blocks_with(rows.drop_last(), part)
    }
}

/// The blocks of a record that are of one kind, distinguished by a part of
/// `PathToDataFile`.
pub fn linked_blocks(rows: Vec<(Vec<u8>, String)>, part: &str) -> (r: Vec<LinkedBlock>)
    ensures
        views::views(r@) == blocks_with(rows@, part@),
{
    let needle: Vec<char> = text::chars_of(part);
    let mut out: Vec<LinkedBlock> = Vec::new();
    assert(views::views(out@) =~= seq![]);
    assert(rows@.take(0) =~= seq![]);
    for pair in it: rows
        invariant
            it.seq() == rows@,
            needle@ == part@,
            views::views(out@) == blocks_with(rows@.take(it.index()), part@),
    {
        let ghost k = it.index();
        assert(rows@.take(k + 1).drop_last() =~= rows@.take(k));
        assert(rows@.take(k + 1).last() == pair);
        let path: Vec<char> = text::chars_of(pair.1.as_str());
        let wanted: bool = needle.len() == 0 || search::find_chars_from(
            path.as_slice(),
            needle.as_slice(),
            0,
        ).is_some();
        if wanted {
            let id: i64 = block_id_hash(pair.0.as_slice());
            out.push(LinkedBlock { id, path_to_data_file: pair.1 });
        }
    }
    assert(rows@.take(rows@.len() as int) =~= rows@);
    out
}

} // verus!
