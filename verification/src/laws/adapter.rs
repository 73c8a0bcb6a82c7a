//! Laws of a PFF store shown as a mailbox: it tells what the store tells, thing for
//! thing.

use vstd::prelude::*;
use crate::laws::same_text;
use crate::mailbox;
use crate::mailbox::Mailbox;
use crate::ost;
use crate::ost::store;
use crate::ost::store::Store;
use crate::ost_adapter::OstMailbox;
use crate::text;
use crate::views;

verus! {

/// The same number, or none on both sides.
pub open spec fn same_number(a: Option<i64>, b: Option<i32>) -> bool {
    match (a, b) {
        (Some(x), Some(y)) => x == y,
        (None, None) => true,
        _ => false,
    }
}

/// The same error, of the same kind and with the same text.
pub open spec fn same_error(a: mailbox::Error, b: ost::Error) -> bool {
    match (a, b) {
        (mailbox::Error::Io(x), ost::Error::Io(y)) => x@ == y@,
        (mailbox::Error::Format(x), ost::Error::Format(y)) => x@ == y@,
        (mailbox::Error::Unsupported(x), ost::Error::Unsupported(y)) => x@ == y@,
        (mailbox::Error::NotFound(x), ost::Error::NotFound(y)) => x@ == y@,
        _ => false,
    }
}

pub open spec fn same_row(a: mailbox::MessageRow, b: store::MessageRow) -> bool {
    &&& a.id == b.nid
    &&& a.folder_id == b.folder_nid
    &&& same_text(a.subject, b.subject)
    &&& same_text(a.sender_name, b.sender_name)
    &&& same_text(a.sender_email, b.sender_email)
    &&& a.delivered_us == b.delivered_us
    &&& a.submitted_us == b.submitted_us
    &&& a.modified_us == b.modified_us
    &&& same_number(a.size, b.size)
    &&& a.unread == b.unread
    &&& a.has_attachments == b.has_attachments
    &&& same_text(a.message_class, b.message_class)
}

pub open spec fn same_attachment(a: mailbox::Attachment, b: store::Attachment) -> bool {
    &&& a.id == b.nid
    &&& same_text(a.filename, b.filename)
    &&& same_text(a.mime, b.mime)
    &&& same_text(a.content_id, b.content_id)
    &&& same_number(a.declared_size, b.declared_size)
    &&& a.data_len == b.data_len
}

pub open spec fn same_recipient(a: mailbox::Recipient, b: store::Recipient) -> bool {
    &&& a.kind == b.kind
    &&& same_text(a.name, b.name)
    &&& same_text(a.email, b.email)
}

/// A folder whose number is of type 2 holds messages; the others only show what
/// stands elsewhere.
pub open spec fn same_folder(a: mailbox::Folder, b: store::Folder) -> bool {
    &&& a.id == b.nid
    &&& match a.parent_id {
        Some(p) => p == b.parent_nid && p != 0,
        None => b.parent_nid == 0,
    }
    &&& a.name matches Some(n) && n@ == b.name@
    &&& a.path@ == b.path@
    &&& same_number(a.item_count, b.item_count)
    &&& same_number(a.unread_count, b.unread_count)
    &&& a.has_subfolders == b.has_subfolders
    &&& a.is_search_folder == (b.nid % 32 != 2)
}

/// Everything of a message but its recipients and attachments.
pub open spec fn same_message(a: mailbox::Message, b: store::Message) -> bool {
    &&& a.id == b.nid
    &&& same_text(a.subject, b.subject)
    &&& same_text(a.sender_name, b.sender_name)
    &&& same_text(a.sender_email, b.sender_email)
    &&& same_text(a.display_to, b.display_to)
    &&& same_text(a.display_cc, b.display_cc)
    &&& same_text(a.display_bcc, b.display_bcc)
    &&& a.delivered_us == b.delivered_us
    &&& a.submitted_us == b.submitted_us
    &&& a.modified_us == b.modified_us
    &&& same_number(a.size, b.size)
    &&& a.unread == b.unread
    &&& same_text(a.message_class, b.message_class)
    &&& same_text(a.internet_message_id, b.internet_message_id)
    &&& same_text(a.conversation_topic, b.conversation_topic)
    &&& same_text(a.body_plain, b.body_plain)
    &&& same_text(a.body_html, b.body_html)
    &&& same_text(a.body_rtf, b.body_rtf)
}

/// The low half of an id names the node; the ids that the mailbox gives are numbers
/// of nodes themselves.
pub open spec fn names_node(id: i64, nid: u32) -> bool {
    id as int % 0x1_0000_0000 == nid
}

/// The mailbox lists in a folder what the store lists there.
pub proof fn lemma_mailbox_lists_the_rows(
    store: Store,
    mb: OstMailbox,
    id: i64,
    nid: u32,
    a: Result<Vec<mailbox::MessageRow>, mailbox::Error>,
    b: Result<Vec<store::MessageRow>, ost::Error>,
)
    requires
        store.wf(),
        names_node(id, nid),
        call_ensures(OstMailbox::new, (store,), mb),
        call_ensures(OstMailbox::messages, (&mb, id), a),
        call_ensures(Store::messages, (&store, nid), b),
    ensures
        match (a, b) {
            (Ok(x), Ok(y)) => x@.len() == y@.len() && forall|i: int|
                0 <= i < x@.len() ==> same_row(#[trigger] x@[i], y@[i]),
            (Err(x), Err(y)) => same_error(x, y),
            _ => false,
        },
{
    if let (Ok(x), Ok(y)) = (a, b) {
        let xs = views::views(x@);
        let ys = views::views(y@);
        assert(xs.len() == x@.len() && ys.len() == y@.len());
        assert forall|i: int| 0 <= i < x@.len() implies same_row(#[trigger] x@[i], y@[i]) by {
            assert(xs[i] == x@[i]@);
            assert(ys[i] == y@[i]@);
            assert(x@[i]@ == crate::ost_adapter::wide_row(y@[i]@));
        }
    }
    if let (Err(x), Err(y)) = (a, b) {
        assert(x@ == y@);
    }
}

/// The mailbox opens the message that the store opens.
pub proof fn lemma_mailbox_opens_the_message(
    store: Store,
    mb: OstMailbox,
    id: i64,
    nid: u32,
    a: Result<mailbox::Message, mailbox::Error>,
    b: Result<store::Message, ost::Error>,
)
    requires
        store.wf(),
        names_node(id, nid),
        call_ensures(OstMailbox::new, (store,), mb),
        call_ensures(OstMailbox::message, (&mb, id), a),
        call_ensures(Store::message, (&store, nid), b),
    ensures
        match (a, b) {
            (Ok(x), Ok(y)) => {
                &&& same_message(x, y)
                &&& x.recipients@.len() == y.recipients@.len()
                &&& forall|i: int|
                    0 <= i < x.recipients@.len() ==> same_recipient(
                        #[trigger] x.recipients@[i],
                        y.recipients@[i],
                    )
                &&& x.attachments@.len() == y.attachments@.len()
                &&& forall|i: int|
                    0 <= i < x.attachments@.len() ==> same_attachment(
                        #[trigger] x.attachments@[i],
                        y.attachments@[i],
                    )
            },
            (Err(x), Err(y)) => same_error(x, y),
            _ => false,
        },
{
    if let (Ok(x), Ok(y)) = (a, b) {
        let want = crate::ost_adapter::wide_message(y@);
        assert(x@ == want);
        let rs = views::views(x.recipients@);
        let ss = views::views(y.recipients@);
        assert(rs.len() == x.recipients@.len() && ss.len() == y.recipients@.len());
        assert(rs.len() == ss.len());
        assert forall|i: int| 0 <= i < x.recipients@.len() implies same_recipient(
            #[trigger] x.recipients@[i],
            y.recipients@[i],
        ) by {
            assert(rs[i] == x.recipients@[i]@);
            assert(ss[i] == y.recipients@[i]@);
            assert(want.recipients[i] == crate::ost_adapter::wide_recipient(ss[i]));
        }
        let us = views::views(x.attachments@);
        let vs = views::views(y.attachments@);
        assert(us.len() == x.attachments@.len() && vs.len() == y.attachments@.len());
        assert(us.len() == vs.len());
        assert forall|i: int| 0 <= i < x.attachments@.len() implies same_attachment(
            #[trigger] x.attachments@[i],
            y.attachments@[i],
        ) by {
            assert(us[i] == x.attachments@[i]@);
            assert(vs[i] == y.attachments@[i]@);
            assert(want.attachments[i] == crate::ost_adapter::wide_attachment(vs[i]));
        }
        assert(same_message(x, y)) by {
            assert(x@.subject == y@.subject);
        }
    }
    if let (Err(x), Err(y)) = (a, b) {
        assert(x@ == y@);
    }
}

/// The mailbox lists the attachments that the store lists.
pub proof fn lemma_mailbox_lists_the_attachments(
    store: Store,
    mb: OstMailbox,
    id: i64,
    nid: u32,
    a: Result<Vec<mailbox::Attachment>, mailbox::Error>,
    b: Result<Vec<store::Attachment>, ost::Error>,
)
    requires
        store.wf(),
        names_node(id, nid),
        call_ensures(OstMailbox::new, (store,), mb),
        call_ensures(OstMailbox::attachments, (&mb, id), a),
        call_ensures(Store::attachments, (&store, nid), b),
    ensures
        match (a, b) {
            (Ok(x), Ok(y)) => x@.len() == y@.len() && forall|i: int|
                0 <= i < x@.len() ==> same_attachment(#[trigger] x@[i], y@[i]),
            (Err(x), Err(y)) => same_error(x, y),
            _ => false,
        },
{
    if let (Ok(x), Ok(y)) = (a, b) {
        let xs = views::views(x@);
        let ys = views::views(y@);
        assert(xs.len() == x@.len() && ys.len() == y@.len());
        assert forall|i: int| 0 <= i < x@.len() implies same_attachment(#[trigger] x@[i], y@[i]) by {
            assert(xs[i] == x@[i]@);
            assert(ys[i] == y@[i]@);
            assert(x@[i]@ == crate::ost_adapter::wide_attachment(y@[i]@));
        }
    }
    if let (Err(x), Err(y)) = (a, b) {
        assert(x@ == y@);
    }
}

/// The mailbox hands out the bytes that the store holds for an attachment.
pub proof fn lemma_mailbox_hands_out_the_bytes(
    store: Store,
    mb: OstMailbox,
    id: i64,
    nid: u32,
    attachment_id: i64,
    attachment_nid: u32,
    a: Result<Vec<u8>, mailbox::Error>,
    b: Result<Vec<u8>, ost::Error>,
)
    requires
        store.wf(),
        names_node(id, nid),
        names_node(attachment_id, attachment_nid),
        call_ensures(OstMailbox::new, (store,), mb),
        call_ensures(OstMailbox::attachment_bytes, (&mb, id, attachment_id), a),
        call_ensures(Store::attachment_bytes, (&store, nid, attachment_nid), b),
    ensures
        match (a, b) {
            (Ok(x), Ok(y)) => x@ == y@,
            (Err(x), Err(y)) => same_error(x, y),
            _ => false,
        },
{
    if let (Err(x), Err(y)) = (a, b) {
        assert(x@ == y@);
    }
}

/// The mailbox shows the folders of the store, in their order, and its name.
pub proof fn lemma_mailbox_shows_the_folders(
    store: Store,
    mb: OstMailbox,
    a: Result<Vec<mailbox::Folder>, mailbox::Error>,
    b: Result<Vec<store::Folder>, ost::Error>,
    name: Option<String>,
    stored_name: Option<String>,
    kind: &'static str,
)
    requires
        store.wf(),
        call_ensures(OstMailbox::new, (store,), mb),
        call_ensures(OstMailbox::folders, (&mb,), a),
        call_ensures(Store::folders, (&store,), b),
        call_ensures(OstMailbox::display_name, (&mb,), name),
        call_ensures(Store::display_name, (&store,), stored_name),
        call_ensures(OstMailbox::kind, (&mb,), kind),
    ensures
        a is Ok && b is Ok,
        a->Ok_0@.len() == b->Ok_0@.len(),
        forall|i: int|
            0 <= i < a->Ok_0@.len() ==> same_folder(#[trigger] a->Ok_0@[i], b->Ok_0@[i]),
        same_text(name, stored_name),
        store.pff.ver == 23 ==> kind@ == "ost-v23"@,
        store.pff.ver == 36 ==> kind@ == "ost-v36"@,
        store.pff.ver != 23 && store.pff.ver != 36 ==> kind@ == "ost-other"@,
{
    let x = a->Ok_0;
    let y = b->Ok_0;
    let xs = views::views(x@);
    let ys = views::views(y@);
    assert(xs.len() == x@.len() && ys.len() == y@.len());
    assert forall|i: int| 0 <= i < x@.len() implies same_folder(#[trigger] x@[i], y@[i]) by {
        assert(xs[i] == x@[i]@);
        assert(ys[i] == y@[i]@);
        assert(x@[i]@ == crate::ost_adapter::wide_folder(y@[i]@));
        assert(x@[i]@.name == text::opt_text(x@[i].name));
    }
}

} // verus!
