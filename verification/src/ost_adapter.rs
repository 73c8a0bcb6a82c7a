//! A PFF store as a [`Mailbox`]. Only ids get widened here, at the boundary, from
//! the reader's native `u32` NID to the trait's `i64`.

use vstd::prelude::*;
use crate::calendar;
use crate::errors::ErrorV;
use crate::mailbox::{
    Attachment,
    AttachmentV,
    Error,
    Folder,
    FolderV,
    Mailbox,
    Message,
    MessageRow,
    MessageRowV,
    MessageV,
    Recipient,
    RecipientV,
};
use crate::ost;
use crate::ost::ndb::PffV;
use crate::ost::store;
use crate::ost::store::Store;
use crate::text;
use crate::views;

verus! {

broadcast use views::lemma_views_push;

pub struct OstMailbox<'a>(Store<'a>);

impl<'a> OstMailbox<'a> {
    #[verifier::type_invariant]
    spec fn inv(self) -> bool {
        self.0.wf()
    }

    /// The store behind the mailbox.
    pub closed spec fn pff(&self) -> PffV {
        self.0.pff@
    }

    pub fn new(store: Store<'a>) -> (r: OstMailbox<'a>)
        requires
            store.wf(),
        ensures
            r.pff() == store.pff@,
    {
        OstMailbox(store)
    }
}

/// The NID that an id stands for: its low 32 bits.
pub open spec fn nid_of_id(id: i64) -> u32 {
    (id as int % 0x1_0000_0000) as u32
}

fn narrow(id: i64) -> (r: u32)
    ensures
        r == nid_of_id(id),
        r == id as int % 0x1_0000_0000,
{
    calendar::floor_rem(id, 0x1_0000_0000) as u32
}

/// A NID survives being widened to an id and narrowed again.
pub proof fn lemma_nid_survives_widening(nid: u32)
    ensures
        nid_of_id(nid as i64) == nid,
{
}

/// Which version of the format is behind the mailbox.
pub open spec fn kind_of(ver: u16) -> Seq<char> {
    if ver == 36 {
        "ost-v36"@
    } else if ver == 23 {
        "ost-v23"@
    } else {
        "ost-other"@
    }
}

fn conv_err(e: ost::Error) -> (r: Error)
    ensures
        r@ == e@,
{
    match e {
        ost::Error::Io(m) => Error::Io(m),
        ost::Error::Format(m) => Error::Format(m),
        ost::Error::Unsupported(m) => Error::Unsupported(m),
        ost::Error::NotFound(m) => Error::NotFound(m),
    }
}

/// A number widened, if it is there.
pub open spec fn widened(n: Option<i32>) -> Option<i64> {
    match n {
        Some(x) => Some(x as i64),
        None => None,
    }
}

fn widen(n: Option<i32>) -> (r: Option<i64>)
    ensures
        r == widened(n),
{
    match n {
        Some(x) => Some(x as i64),
        None => None,
    }
}

pub open spec fn wide_attachment(a: store::AttachmentV) -> AttachmentV {
    AttachmentV {
        id: a.nid as i64,
        filename: a.filename,
        mime: a.mime,
        content_id: a.content_id,
        declared_size: widened(a.declared_size),
        data_len: a.data_len,
    }
}

/// A folder whose type is not that of a normal folder owns no contents.
pub open spec fn wide_folder(f: store::FolderV) -> FolderV {
    FolderV {
        id: f.nid as i64,
        parent_id: if f.parent_nid != 0 {
            Some(f.parent_nid as i64)
        } else {
            None
        },
        name: Some(f.name),
        path: f.path,
        item_count: widened(f.item_count),
        unread_count: widened(f.unread_count),
        has_subfolders: f.has_subfolders,
        is_search_folder: store::type_of(f.nid) != store::NID_TYPE_NORMAL_FOLDER,
    }
}

pub open spec fn wide_row(m: store::MessageRowV) -> MessageRowV {
    MessageRowV {
        id: m.nid as i64,
        folder_id: m.folder_nid as i64,
        subject: m.subject,
        sender_name: m.sender_name,
        sender_email: m.sender_email,
        delivered_us: m.delivered_us,
        submitted_us: m.submitted_us,
        modified_us: m.modified_us,
        size: widened(m.size),
        unread: m.unread,
        has_attachments: m.has_attachments,
        message_class: m.message_class,
    }
}

pub open spec fn wide_recipient(r: store::RecipientV) -> RecipientV {
    RecipientV { kind: r.kind, name: r.name, email: r.email }
}

pub open spec fn wide_message(m: store::MessageV) -> MessageV {
    MessageV {
        id: m.nid as i64,
        subject: m.subject,
        sender_name: m.sender_name,
        sender_email: m.sender_email,
        display_to: m.display_to,
        display_cc: m.display_cc,
        display_bcc: m.display_bcc,
        delivered_us: m.delivered_us,
        submitted_us: m.submitted_us,
        modified_us: m.modified_us,
        size: widened(m.size),
        unread: m.unread,
        message_class: m.message_class,
        internet_message_id: m.internet_message_id,
        conversation_topic: m.conversation_topic,
        body_plain: m.body_plain,
        body_html: m.body_html,
        body_rtf: m.body_rtf,
        recipients: Seq::new(m.recipients.len(), |i: int| wide_recipient(m.recipients[i])),
        attachments: Seq::new(m.attachments.len(), |i: int| wide_attachment(m.attachments[i])),
    }
}

fn conv_attachments(v: Vec<store::Attachment>) -> (r: Vec<Attachment>)
    ensures
        views::views(r@) == Seq::new(v@.len(), |i: int| wide_attachment(views::views(v@)[i])),
{
    let ghost all = Seq::new(v@.len(), |i: int| wide_attachment(views::views(v@)[i]));
    let mut out: Vec<Attachment> = Vec::new();
    assert(views::views(out@) =~= all.take(0));
    for a in it: v
        invariant
            it.seq() == v@,
            all == Seq::new(v@.len(), |i: int| wide_attachment(views::views(v@)[i])),
            views::views(out@) == all.take(it.index()),
    {
        let ghost k = it.index();
        assert(views::views(v@)[k] == a@);
        assert(all.take(k + 1) =~= all.take(k).push(all[k]));
        out.push(
            Attachment {
                id: a.nid as i64,
                filename: a.filename,
                mime: a.mime,
                content_id: a.content_id,
                declared_size: widen(a.declared_size),
                data_len: a.data_len,
            },
        );
    }
    assert(all.take(all.len() as int) =~= all);
    out
}

fn conv_recipients(v: Vec<store::Recipient>) -> (r: Vec<Recipient>)
    ensures
        views::views(r@) == Seq::new(v@.len(), |i: int| wide_recipient(views::views(v@)[i])),
{
    let ghost all = Seq::new(v@.len(), |i: int| wide_recipient(views::views(v@)[i]));
    let mut out: Vec<Recipient> = Vec::new();
    assert(views::views(out@) =~= all.take(0));
    for p in it: v
        invariant
            it.seq() == v@,
            all == Seq::new(v@.len(), |i: int| wide_recipient(views::views(v@)[i])),
            views::views(out@) == all.take(it.index()),
    {
        let ghost k = it.index();
        assert(views::views(v@)[k] == p@);
        assert(all.take(k + 1) =~= all.take(k).push(all[k]));
        out.push(Recipient { kind: p.kind, name: p.name, email: p.email });
    }
    assert(all.take(all.len() as int) =~= all);
    out
}

fn conv_folders(v: Vec<store::Folder>) -> (r: Vec<Folder>)
    ensures
        views::views(r@) == Seq::new(v@.len(), |i: int| wide_folder(views::views(v@)[i])),
{
    let ghost all = Seq::new(v@.len(), |i: int| wide_folder(views::views(v@)[i]));
    let mut out: Vec<Folder> = Vec::new();
    assert(views::views(out@) =~= all.take(0));
    for f in it: v
        invariant
            it.seq() == v@,
            all == Seq::new(v@.len(), |i: int| wide_folder(views::views(v@)[i])),
            views::views(out@) == all.take(it.index()),
    {
        let ghost k = it.index();
        assert(views::views(v@)[k] == f@);
        assert(all.take(k + 1) =~= all.take(k).push(all[k]));
        out.push(
            Folder {
                id: f.nid as i64,
                parent_id: if f.parent_nid != 0 {
                    Some(f.parent_nid as i64)
                } else {
                    None
                },
                name: Some(f.name),
                path: f.path,
                item_count: widen(f.item_count),
                unread_count: widen(f.unread_count),
                has_subfolders: f.has_subfolders,
                is_search_folder: store::nid_type(f.nid) != store::NID_TYPE_NORMAL_FOLDER,
            },
        );
    }
    assert(all.take(all.len() as int) =~= all);
    out
}

fn conv_rows(v: Vec<store::MessageRow>) -> (r: Vec<MessageRow>)
    ensures
        views::views(r@) == Seq::new(v@.len(), |i: int| wide_row(views::views(v@)[i])),
{
    let ghost all = Seq::new(v@.len(), |i: int| wide_row(views::views(v@)[i]));
    let mut out: Vec<MessageRow> = Vec::new();
    assert(views::views(out@) =~= all.take(0));
    for m in it: v
        invariant
            it.seq() == v@,
            all == Seq::new(v@.len(), |i: int| wide_row(views::views(v@)[i])),
            views::views(out@) == all.take(it.index()),
    {
        let ghost k = it.index();
        assert(views::views(v@)[k] == m@);
        assert(all.take(k + 1) =~= all.take(k).push(all[k]));
        out.push(
            MessageRow {
                id: m.nid as i64,
                folder_id: m.folder_nid as i64,
                subject: m.subject,
                sender_name: m.sender_name,
                sender_email: m.sender_email,
                delivered_us: m.delivered_us,
                submitted_us: m.submitted_us,
                modified_us: m.modified_us,
                size: widen(m.size),
                unread: m.unread,
                has_attachments: m.has_attachments,
                message_class: m.message_class,
            },
        );
    }
    assert(all.take(all.len() as int) =~= all);
    out
}

impl<'a> Mailbox for OstMailbox<'a> {
    fn kind(&self) -> (r: &'static str)
        ensures
            r@ == kind_of(self.pff().ver),
    {
        if self.0.pff.ver == 36 {
            "ost-v36"
        } else if self.0.pff.ver == 23 {
            "ost-v23"
        } else {
            "ost-other"
        }
    }

    fn display_name(&self) -> (r: Option<String>)
        ensures
            text::opt_text(r) == store::store_name(self.pff()),
    {
        proof {
            use_type_invariant(&*self);
        }
        self.0.display_name()
    }

    fn folders(&self) -> (r: Result<Vec<Folder>, Error>)
        ensures
            r matches Ok(v) && views::views(v@) == Seq::new(
                store::folder_tree(self.pff()).len(),
                |i: int| wide_folder(store::folder_tree(self.pff())[i]),
            ),
    {
        proof {
            use_type_invariant(&*self);
        }
        match self.0.folders() {
            Ok(v) => Ok(conv_folders(v)),
            Err(e) => Err(conv_err(e)),
        }
    }

    fn messages(&self, folder_id: i64) -> (r: Result<Vec<MessageRow>, Error>)
        ensures
            match (store::folder_messages(self.pff(), nid_of_id(folder_id)), r) {
                (Ok(rows), Ok(v)) => views::views(v@) == Seq::new(
                    rows.len(),
                    |i: int| wide_row(rows[i]),
                ),
                (Err(e), Err(f)) => f@ == e,
                _ => false,
            },
    {
        proof {
            use_type_invariant(&*self);
        }
        match self.0.messages(narrow(folder_id)) {
            Ok(v) => Ok(conv_rows(v)),
            Err(e) => Err(conv_err(e)),
        }
    }

    fn message(&self, id: i64) -> (r: Result<Message, Error>)
        ensures
            match (store::message_of(self.pff(), nid_of_id(id)), r) {
                (Ok(m), Ok(v)) => v@ == wide_message(m),
                (Err(e), Err(f)) => f@ == e,
                _ => false,
            },
    {
        proof {
            use_type_invariant(&*self);
        }
        match self.0.message(narrow(id)) {
            Err(e) => Err(conv_err(e)),
            Ok(m) => {
                let ghost want = wide_message(m@);
                let r: Message = Message {
                    id: m.nid as i64,
                    subject: m.subject,
                    sender_name: m.sender_name,
                    sender_email: m.sender_email,
                    display_to: m.display_to,
                    display_cc: m.display_cc,
                    display_bcc: m.display_bcc,
                    delivered_us: m.delivered_us,
                    submitted_us: m.submitted_us,
                    modified_us: m.modified_us,
                    size: widen(m.size),
                    unread: m.unread,
                    message_class: m.message_class,
                    internet_message_id: m.internet_message_id,
                    conversation_topic: m.conversation_topic,
                    body_plain: m.body_plain,
                    body_html: m.body_html,
                    body_rtf: m.body_rtf,
                    recipients: conv_recipients(m.recipients),
                    attachments: conv_attachments(m.attachments),
                };
                proof {
                    assert(r@.recipients =~= want.recipients);
                    assert(r@.attachments =~= want.attachments);
                    assert(r@ == want);
                }
                Ok(r)
            },
        }
    }

    fn attachments(&self, message_id: i64) -> (r: Result<Vec<Attachment>, Error>)
        ensures
            match (store::attachments_of(self.pff(), nid_of_id(message_id)), r) {
                (Ok(list), Ok(v)) => views::views(v@) == Seq::new(
                    list.len(),
                    |i: int| wide_attachment(list[i]),
                ),
                (Err(e), Err(f)) => f@ == e,
                _ => false,
            },
    {
        proof {
            use_type_invariant(&*self);
        }
        match self.0.attachments(narrow(message_id)) {
            Ok(v) => Ok(conv_attachments(v)),
            Err(e) => Err(conv_err(e)),
        }
    }

    fn attachment_bytes(&self, message_id: i64, attachment_id: i64) -> (r: Result<Vec<u8>, Error>)
        ensures
            match (
                store::payload_of(self.pff(), nid_of_id(message_id), nid_of_id(attachment_id)),
                r,
            ) {
                (Ok(b), Ok(v)) => v@ == b,
                (Err(e), Err(f)) => f@ == e,
                _ => false,
            },
    {
        proof {
            use_type_invariant(&*self);
        }
        match self.0.attachment_bytes(narrow(message_id), narrow(attachment_id)) {
            Ok(v) => Ok(v),
            Err(e) => Err(conv_err(e)),
        }
    }
}

} // verus!
