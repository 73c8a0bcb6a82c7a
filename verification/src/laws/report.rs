//! Laws of the replies about a message.

use vstd::prelude::*;
use crate::b64;
use crate::laws::{first_chars, same_text};
use crate::laws::times;
use crate::mailbox::{Attachment, Error, Message, Recipient};
use crate::server;
use crate::server::{AttachmentDataReply, AttachmentReply, MessageReply, RecipientReply, ToolError};
use crate::views;

verus! {

/// How many characters of a body, or bytes of a payload, are asked for.
pub open spec fn bound(asked: Option<usize>, default: int) -> int {
    match asked {
        Some(n) => n as int,
        None => default,
    }
}

/// The reply shows this body, in this format, cut at `cap` characters.
pub open spec fn shows(r: MessageReply, format: Seq<char>, body: String, cap: int) -> bool {
    &&& r.body_format matches Some(f) && f@ == format
    &&& r.body matches Some(b) && b@ == first_chars(body@, cap)
    &&& r.body_truncated == (body@.len() > cap)
}

/// The reply names this kind of body exactly where the message has one.
pub open spec fn names(r: MessageReply, format: Seq<char>, has: bool) -> bool {
    has == exists|i: int|
        0 <= i < r.bodies_available@.len() && (#[trigger] r.bodies_available@[i])@ == format
}

/// A recipient in a reply is the message's, its kind in words: the first three codes
/// have one each.
pub open spec fn tells_recipient(r: RecipientReply, p: Recipient) -> bool {
    &&& same_text(r.name, p.name)
    &&& same_text(r.email, p.email)
    &&& p.kind == Some(1i32) ==> r.kind@ == "to"@
    &&& p.kind == Some(2i32) ==> r.kind@ == "cc"@
    &&& p.kind == Some(3i32) ==> r.kind@ == "bcc"@
    &&& p.kind matches Some(n) ==> 1 <= n <= 3 || times::is_decimal(r.kind@, n as int)
}

/// An attachment in a reply is the message's.
pub open spec fn tells_attachment(r: AttachmentReply, a: Attachment) -> bool {
    &&& r.nid == a.id
    &&& same_text(r.filename, a.filename)
    &&& same_text(r.mime, a.mime)
    &&& same_text(r.content_id, a.content_id)
    &&& r.declared_size == a.declared_size
    &&& r.data_len == a.data_len
}

/// A time in a reply is the message's, as text that reads back as it.
pub open spec fn tells_time(shown: Option<String>, us: Option<i64>) -> bool {
    match (shown, us) {
        (Some(s), Some(t)) => times::in_four_places(t as int) ==> times::reads_as(
            s@,
            t as int / 1_000_000,
        ),
        (None, None) => true,
        _ => false,
    }
}

/// A report tells of each thing what the message itself holds: of the bodies the
/// plain one before HTML before RTF, cut at the number of characters asked for, or
/// 20000, and whether it was cut; and of every other field its own.
pub proof fn lemma_report_tells_the_message(m: Message, asked: Option<usize>, r: MessageReply)
    requires
        call_ensures(server::report_of, (m, asked), r),
    ensures
        m.body_plain matches Some(p) ==> shows(r, "plain"@, p, bound(asked, 20_000)),
        m.body_plain is None ==> (m.body_html matches Some(h) ==> shows(
            r,
            "html"@,
            h,
            bound(asked, 20_000),
        )),
        m.body_plain is None && m.body_html is None ==> (m.body_rtf matches Some(t) ==> shows(
            r,
            "rtf"@,
            t,
            bound(asked, 20_000),
        )),
        m.body_plain is None && m.body_html is None && m.body_rtf is None ==> r.body is None
            && r.body_format is None && !r.body_truncated,
        names(r, "plain"@, m.body_plain is Some),
        names(r, "html"@, m.body_html is Some),
        names(r, "rtf"@, m.body_rtf is Some),
        r.nid == m.id,
        same_text(r.subject, m.subject),
        same_text(r.sender_name, m.sender_name),
        same_text(r.sender_email, m.sender_email),
        same_text(r.to, m.display_to),
        same_text(r.cc, m.display_cc),
        tells_time(r.delivered, m.delivered_us),
        tells_time(r.submitted, m.submitted_us),
        tells_time(r.modified, m.modified_us),
        r.size == m.size,
        r.unread == m.unread,
        same_text(r.message_class, m.message_class),
        same_text(r.internet_message_id, m.internet_message_id),
        same_text(r.conversation_topic, m.conversation_topic),
        r.recipients@.len() == m.recipients@.len(),
        forall|i: int|
            0 <= i < m.recipients@.len() ==> tells_recipient(
                #[trigger] r.recipients@[i],
                m.recipients@[i],
            ),
        r.attachments@.len() == m.attachments@.len(),
        forall|i: int|
            0 <= i < m.attachments@.len() ==> tells_attachment(
                #[trigger] r.attachments@[i],
                m.attachments@[i],
            ),
{
    lemma_body(m, asked, r);
    lemma_bodies(m, asked, r);
    lemma_people(m, asked, r);
    lemma_attached(m, asked, r);
    lemma_times(m, asked, r);
    lemma_plain_fields(m, asked, r);
}

proof fn lemma_plain_fields(m: Message, asked: Option<usize>, r: MessageReply)
    requires
        call_ensures(server::report_of, (m, asked), r),
    ensures
        r.nid == m.id,
        same_text(r.subject, m.subject),
        same_text(r.sender_name, m.sender_name),
        same_text(r.sender_email, m.sender_email),
        same_text(r.to, m.display_to),
        same_text(r.cc, m.display_cc),
        r.size == m.size,
        r.unread == m.unread,
        same_text(r.message_class, m.message_class),
        same_text(r.internet_message_id, m.internet_message_id),
        same_text(r.conversation_topic, m.conversation_topic),
{
}

proof fn lemma_times(m: Message, asked: Option<usize>, r: MessageReply)
    requires
        call_ensures(server::report_of, (m, asked), r),
    ensures
        tells_time(r.delivered, m.delivered_us),
        tells_time(r.submitted, m.submitted_us),
        tells_time(r.modified, m.modified_us),
{
    let v = r@;
    assert(v.delivered == server::shown_time(m.delivered_us));
    assert(v.submitted == server::shown_time(m.submitted_us));
    assert(v.modified == server::shown_time(m.modified_us));
    lemma_time(r.delivered, m.delivered_us);
    lemma_time(r.submitted, m.submitted_us);
    lemma_time(r.modified, m.modified_us);
}

proof fn lemma_time(shown: Option<String>, us: Option<i64>)
    requires
        crate::text::opt_text(shown) == server::shown_time(us),
    ensures
        tells_time(shown, us),
{
    if let Some(t) = us {
        times::lemma_text_reads_back(t as int);
    }
}

proof fn lemma_body(m: Message, asked: Option<usize>, r: MessageReply)
    requires
        call_ensures(server::report_of, (m, asked), r),
    ensures
        m.body_plain matches Some(p) ==> shows(r, "plain"@, p, bound(asked, 20_000)),
        m.body_plain is None ==> (m.body_html matches Some(h) ==> shows(
            r,
            "html"@,
            h,
            bound(asked, 20_000),
        )),
        m.body_plain is None && m.body_html is None ==> (m.body_rtf matches Some(t) ==> shows(
            r,
            "rtf"@,
            t,
            bound(asked, 20_000),
        )),
        m.body_plain is None && m.body_html is None && m.body_rtf is None ==> r.body is None
            && r.body_format is None && !r.body_truncated,
{
    let v = r@;
    assert(v.body is Some <==> r.body is Some);
    assert(v.body_format is Some <==> r.body_format is Some);
}

proof fn lemma_bodies(m: Message, asked: Option<usize>, r: MessageReply)
    requires
        call_ensures(server::report_of, (m, asked), r),
    ensures
        names(r, "plain"@, m.body_plain is Some),
        names(r, "html"@, m.body_html is Some),
        names(r, "rtf"@, m.body_rtf is Some),
{
    reveal_strlit("plain");
    reveal_strlit("html");
    reveal_strlit("rtf");
    assert("plain"@.len() == 5 && "html"@.len() == 4 && "rtf"@.len() == 3);
    let list = views::views(r.bodies_available@);
    assert(list == server::available(m@));
    assert(list.len() == r.bodies_available@.len());
    assert(forall|i: int|
        0 <= i < list.len() ==> (#[trigger] r.bodies_available@[i])@ == list[i]);
    let p: int = if m.body_plain is Some {
        1
    } else {
        0
    };
    let h: int = if m.body_html is Some {
        1
    } else {
        0
    };
    if m.body_plain is Some {
        assert(r.bodies_available@[0]@ == "plain"@);
    }
    if m.body_html is Some {
        assert(r.bodies_available@[p]@ == "html"@);
    }
    if m.body_rtf is Some {
        assert(r.bodies_available@[p + h]@ == "rtf"@);
    }
}

proof fn lemma_people(m: Message, asked: Option<usize>, r: MessageReply)
    requires
        call_ensures(server::report_of, (m, asked), r),
    ensures
        r.recipients@.len() == m.recipients@.len(),
        forall|i: int|
            0 <= i < m.recipients@.len() ==> tells_recipient(
                #[trigger] r.recipients@[i],
                m.recipients@[i],
            ),
{
    let told = views::views(r.recipients@);
    let had = views::views(m.recipients@);
    assert(told.len() == r.recipients@.len() && had.len() == m.recipients@.len());
    assert forall|i: int| 0 <= i < m.recipients@.len() implies tells_recipient(
        #[trigger] r.recipients@[i],
        m.recipients@[i],
    ) by {
        assert(told[i] == r.recipients@[i]@);
        assert(had[i] == m.recipients@[i]@);
        assert(told[i] == server::recipient_in_reply(had[i]));
        if let Some(n) = m.recipients@[i].kind {
            times::lemma_signed_is_decimal(n as int);
        }
    }
}

proof fn lemma_attached(m: Message, asked: Option<usize>, r: MessageReply)
    requires
        call_ensures(server::report_of, (m, asked), r),
    ensures
        r.attachments@.len() == m.attachments@.len(),
        forall|i: int|
            0 <= i < m.attachments@.len() ==> tells_attachment(
                #[trigger] r.attachments@[i],
                m.attachments@[i],
            ),
{
    let told = views::views(r.attachments@);
    let had = views::views(m.attachments@);
    assert(told.len() == r.attachments@.len() && had.len() == m.attachments@.len());
    assert forall|i: int| 0 <= i < m.attachments@.len() implies tells_attachment(
        #[trigger] r.attachments@[i],
        m.attachments@[i],
    ) by {
        assert(told[i] == r.attachments@[i]@);
        assert(had[i] == m.attachments@[i]@);
        assert(told[i] == server::attachment_in_reply(had[i]));
    }
}

/// The reply with a payload tells which attachment it is of, what that is called and
/// how long it is, and carries as much of it from the front as was asked for, or
/// 1048576 bytes: as text whose UTF-8 the bytes are, or else as base64 that stands
/// for them and nothing else. It is text wherever the bytes are valid UTF-8 without a
/// NUL.
pub proof fn lemma_payload_reply_carries_the_bytes(
    message_nid: i64,
    attachment_nid: i64,
    meta: Option<Attachment>,
    bytes: Vec<u8>,
    asked: Option<usize>,
    r: AttachmentDataReply,
)
    requires
        call_ensures(
            server::data_reply,
            (message_nid, attachment_nid, meta, bytes, asked),
            r,
        ),
    ensures
        ({
            let cap = bound(asked, 1_048_576);
            let front = bytes@.take(
                if cap < bytes@.len() {
                    cap
                } else {
                    bytes@.len() as int
                },
            );
            &&& r.message_nid == message_nid
            &&& r.attachment_nid == attachment_nid
            &&& meta matches Some(a) ==> same_text(r.filename, a.filename) && same_text(
                r.mime,
                a.mime,
            )
            &&& meta is None ==> r.filename is None && r.mime is None
            &&& r.total_bytes == bytes@.len()
            &&& r.returned_bytes == front.len()
            &&& r.truncated == (front.len() < bytes@.len())
            &&& (r.text is Some) != (r.base64 is Some)
            &&& r.text matches Some(t) ==> vstd::utf8::encode_utf8(t@) == front
            &&& r.base64 matches Some(t) ==> forall|b: Seq<u8>|
                #[trigger] b64::stands_for(t@, b) <==> b == front
            &&& r.text is Some <==> vstd::utf8::valid_utf8(front) && !vstd::utf8::decode_utf8(
                front,
            ).contains('\0')
        }),
{
    let cap = bound(asked, 1_048_576);
    let meta_v = match meta {
        Some(a) => Some(a@),
        None => None,
    };
    server::lemma_reply_carries_the_payload(r, message_nid, attachment_nid, meta_v, bytes@, cap);
    let returned = if bytes@.len() > cap {
        bytes@.take(cap)
    } else {
        bytes@
    };
    assert(bytes@.take(bytes@.len() as int) =~= bytes@);
}

/// What is missing is the caller's mistake and is told as it is; every other error
/// is the server's.
pub proof fn lemma_only_what_is_missing_is_the_callers(e: Error, r: ToolError)
    requires
        call_ensures(server::tool_error, (e,), r),
    ensures
        e matches Error::NotFound(m) ==> (r matches ToolError::BadRequest(t) && t@ == m@),
        e matches Error::Io(m) ==> (r matches ToolError::Internal(t) && t@ == "io: "@ + m@),
        e matches Error::Format(m) ==> (r matches ToolError::Internal(t) && t@ == "malformed: "@
            + m@),
        e matches Error::Unsupported(m) ==> (r matches ToolError::Internal(t) && t@
            == "unsupported: "@ + m@),
{
}

} // verus!
