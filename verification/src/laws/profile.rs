//! Laws of a profile of Outlook for Mac: what its records, its data files and its
//! cache become when they are shown.

use vstd::prelude::*;
use crate::laws::same_text;
use crate::mac_outlook::hxrecord::HxMessage;
use crate::mac_outlook::olk15;
use crate::mac_outlook::olk15::{BodyKind, MessageBody};
use crate::mac_outlook::profile;
use crate::mac_outlook::schema;
use crate::mac_outlook::schema::{CountRecord, FolderRecord, LinkedBlock, MailRecord, RawMail};
use crate::mailbox::{Attachment, Error, Folder, Message, MessageRow};
use crate::maps;
use crate::text;
use crate::views;

verus! {

/// A number of seconds, if there is one, whose microseconds a time can hold.
pub open spec fn holdable(secs: Option<i64>) -> bool {
    secs matches Some(s) ==> -9_223_372_036_854 <= s <= 9_223_372_036_854
}

/// `us` is the time that lies `secs` seconds behind 1970.
pub open spec fn same_time(us: Option<i64>, secs: Option<i64>) -> bool {
    match (us, secs) {
        (Some(u), Some(s)) => u == s * 1_000_000,
        (None, None) => true,
        _ => false,
    }
}

/// `r` is the text `s`; an empty text counts as none.
pub open spec fn kept(r: Option<String>, s: Option<String>) -> bool {
    match s {
        Some(t) => if t@.len() == 0 {
            r is None
        } else {
            r matches Some(u) && u@ == t@
        },
        None => r is None,
    }
}

/// `r` lists the mail record `m`.
pub open spec fn lists_mail(r: MessageRow, m: MailRecord) -> bool {
    &&& r.id == m.id
    &&& r.folder_id == m.folder_id
    &&& same_text(r.subject, m.subject)
    &&& kept(r.sender_name, m.sender_name)
    &&& kept(r.sender_email, m.sender_email)
    &&& same_time(r.delivered_us, m.received)
    &&& same_time(r.submitted_us, m.sent)
    &&& same_time(r.modified_us, m.modified)
    &&& r.size == m.size
    &&& match m.read_flag {
        Some(f) => r.unread == Some(f == 0),
        None => r.unread is None,
    }
    &&& match m.has_attachment {
        Some(f) => r.has_attachments == Some(f != 0),
        None => r.has_attachments is None,
    }
    &&& r.message_class is None
}

/// The times of a mail record are such that a time can hold them.
pub open spec fn holdable_times(m: MailRecord) -> bool {
    holdable(m.received) && holdable(m.sent) && holdable(m.modified)
}

/// Seconds are told in microseconds exactly where those can be held.
pub proof fn lemma_seconds_are_told(secs: Option<i64>, can: bool, us: Option<i64>)
    requires
        call_ensures(schema::can_tell, (secs,), can),
        can ==> call_ensures(schema::to_us, (secs,), us),
    ensures
        can == holdable(secs),
        can ==> same_time(us, secs),
{
}

/// A mail record is listed column for column: which sender, which time and which
/// flag each thing shown is, and which file holds the body.
pub proof fn lemma_mail_is_its_record(m: MailRecord, r: RawMail)
    requires
        holdable_times(m),
        call_ensures(schema::row_to_mail, (m,), r),
    ensures
        lists_mail(r.row, m),
        same_text(r.path_to_data_file, m.path_to_data_file),
        kept(r.conversation_topic, m.thread_topic),
{
    assert(r.row@.subject == text::opt_text(m.subject));
    assert(r.row@.sender_name == schema::not_empty(text::opt_text(m.sender_name)));
    assert(r.row@.sender_email == schema::not_empty(text::opt_text(m.sender_email)));
    assert(r.row@.message_class == None::<Seq<char>>);
}

/// A record that was found is told; one that was not is missing under its number.
pub proof fn lemma_mail_by_id(found: Option<MailRecord>, id: i64, r: Result<RawMail, Error>)
    requires
        found matches Some(m) ==> holdable_times(m),
        call_ensures(schema::mail_row, (found, id), r),
    ensures
        match found {
            Some(m) => r matches Ok(raw) && lists_mail(raw.row, m) && same_text(
                raw.path_to_data_file,
                m.path_to_data_file,
            ) && kept(raw.conversation_topic, m.thread_topic),
            None => r matches Err(Error::NotFound(what)) && what@ == "mail record "@ + text::signed(
                id as int,
            ),
        },
{
    if let Ok(raw) = r {
        assert(raw.row@.message_class == None::<Seq<char>>);
    }
}

/// The listing of a folder has one row for each of its records, in their order.
pub proof fn lemma_listing_is_the_records(rows: Vec<MailRecord>, r: Vec<MessageRow>)
    requires
        forall|i: int| 0 <= i < rows@.len() ==> holdable_times(#[trigger] rows@[i]),
        call_ensures(schema::messages, (rows,), r),
    ensures
        r@.len() == rows@.len(),
        forall|i: int| 0 <= i < rows@.len() ==> lists_mail(#[trigger] r@[i], rows@[i]),
{
    let vs = views::views(r@);
    assert(vs.len() == rows@.len());
    assert forall|i: int| 0 <= i < rows@.len() implies lists_mail(#[trigger] r@[i], rows@[i]) by {
        assert(vs[i] == r@[i]@);
        assert(vs[i] == schema::listed_mail(rows@[i]));
        assert(r@[i]@.message_class == None::<Seq<char>>);
    }
}

/// `r` lists the recovered message `m` under `id`. Such a message has one time, and
/// nothing is known of its size, its state or its attachments.
pub open spec fn lists_recovered(r: MessageRow, id: i64, m: HxMessage) -> bool {
    &&& r.id == id
    &&& r.folder_id == -1
    &&& same_text(r.subject, m.subject)
    &&& same_text(r.sender_name, m.sender_name)
    &&& same_text(r.sender_email, m.sender_address)
    &&& same_time(r.delivered_us, m.sent_unix)
    &&& same_time(r.submitted_us, m.sent_unix)
    &&& r.modified_us is None
    &&& r.size is None
    &&& r.unread is None
    &&& r.has_attachments is None
    &&& r.message_class matches Some(c) && c@ == "IPM.Note"@
}

/// `r` is the recovered message `m` under `id`. Its preview stands for the body only
/// where no HTML does.
pub open spec fn shows_recovered(r: Message, id: i64, m: HxMessage) -> bool {
    &&& r.id == id
    &&& same_text(r.subject, m.subject)
    &&& same_text(r.sender_name, m.sender_name)
    &&& same_text(r.sender_email, m.sender_address)
    &&& r.display_to is None && r.display_cc is None && r.display_bcc is None
    &&& same_time(r.delivered_us, m.sent_unix)
    &&& same_time(r.submitted_us, m.sent_unix)
    &&& r.modified_us is None && r.size is None && r.unread is None
    &&& same_text(r.internet_message_id, m.internet_message_id)
    &&& r.conversation_topic is None
    &&& same_text(r.body_html, m.html)
    &&& m.html is Some ==> r.body_plain is None
    &&& m.html is None ==> same_text(r.body_plain, m.preview)
    &&& r.body_rtf is None
    &&& r.recipients@.len() == 0 && r.attachments@.len() == 0
    &&& r.message_class matches Some(c) && c@ == "IPM.Note"@
}

/// A recovered message is listed with its own texts and its time.
pub proof fn lemma_recovered_row(id: i64, m: &HxMessage, r: MessageRow)
    requires
        holdable(m.sent_unix),
        call_ensures(profile::hx_message_row, (id, m), r),
    ensures
        lists_recovered(r, id, *m),
{
    assert(r@ == profile::hx_row(id, m@));
    assert(r@.message_class == text::opt_text(r.message_class));
    assert(r@.subject == text::opt_text(r.subject));
    assert(m@.subject == text::opt_text(m.subject));
    assert(r@.sender_name == text::opt_text(r.sender_name));
    assert(m@.sender_name == text::opt_text(m.sender_name));
    assert(r@.sender_email == text::opt_text(r.sender_email));
    assert(m@.sender_address == text::opt_text(m.sender_address));
}

/// All recovered messages are listed, each once and in order.
pub proof fn lemma_recovered_rows(cache: &Vec<(i64, HxMessage)>, r: Vec<MessageRow>)
    requires
        forall|i: int| 0 <= i < cache@.len() ==> holdable((#[trigger] cache@[i]).1.sent_unix),
        call_ensures(profile::hx_rows, (cache,), r),
    ensures
        r@.len() == cache@.len(),
        forall|i: int|
            0 <= i < r@.len() ==> lists_recovered(#[trigger] r@[i], cache@[i].0, cache@[i].1),
{
    let vs = views::views(r@);
    assert(vs.len() == cache@.len());
    assert forall|i: int| 0 <= i < r@.len() implies lists_recovered(
        #[trigger] r@[i],
        cache@[i].0,
        cache@[i].1,
    ) by {
        let m = cache@[i].1;
        assert(vs[i] == r@[i]@);
        assert(r@[i]@ == profile::hx_row(cache@[i].0, m@));
        assert(r@[i]@.message_class == text::opt_text(r@[i].message_class));
        assert(m@.subject == text::opt_text(m.subject));
        assert(m@.sender_name == text::opt_text(m.sender_name));
        assert(m@.sender_address == text::opt_text(m.sender_address));
    }
}

proof fn lemma_cached(cache: Seq<(i64, HxMessage)>, id: i64, from: int, at: int)
    requires
        0 <= from <= at <= cache.len(),
        forall|k: int| from <= k < at ==> (#[trigger] cache[k]).0 != id,
        at < cache.len() ==> cache[at].0 == id,
    ensures
        profile::cached_from(cache, id, from) == (if at < cache.len() {
            Some(cache[at].1@)
        } else {
            None
        }),
    decreases at - from,
{
    if from < at {
        assert(cache[from].0 != id);
        lemma_cached(cache, id, from + 1, at);
    }
}

/// A recovered message opens under its id with all that was recovered of it, and no
/// other id opens one. `at` is where the id stands in the cache, or its length.
pub proof fn lemma_recovered_message(
    cache: &Vec<(i64, HxMessage)>,
    id: i64,
    at: int,
    r: Result<Message, Error>,
)
    requires
        forall|i: int| 0 <= i < cache@.len() ==> holdable((#[trigger] cache@[i]).1.sent_unix),
        0 <= at <= cache@.len(),
        forall|k: int| 0 <= k < at ==> (#[trigger] cache@[k]).0 != id,
        at < cache@.len() ==> cache@[at].0 == id,
        call_ensures(profile::hx_message, (cache, id), r),
    ensures
        at < cache@.len() ==> (r matches Ok(m) && shows_recovered(m, id, cache@[at].1)),
        at == cache@.len() ==> r matches Err(Error::NotFound(_)),
{
    lemma_cached(cache@, id, 0, at);
    if at < cache@.len() {
        let h = cache@[at].1;
        let m = r->Ok_0;
        assert(m@ == profile::hx_full(id, h@));
        assert(m@.recipients.len() == m.recipients@.len());
        assert(m@.attachments.len() == m.attachments@.len());
        assert(m@.message_class == text::opt_text(m.message_class));
        assert(h@.subject == text::opt_text(h.subject));
        assert(h@.html == text::opt_text(h.html));
        assert(h@.preview == text::opt_text(h.preview));
    }
}

/// Two folders that show the same.
pub open spec fn same_folder(a: Folder, b: Folder) -> bool {
    &&& a.id == b.id
    &&& a.parent_id == b.parent_id
    &&& same_text(a.name, b.name)
    &&& a.path@ == b.path@
    &&& a.item_count == b.item_count
    &&& a.unread_count == b.unread_count
    &&& a.has_subfolders == b.has_subfolders
    &&& a.is_search_folder == b.is_search_folder
}

/// A profile shows the folders of its database, and behind them one folder that
/// holds the recovered messages where there are any.
pub proof fn lemma_profile_folders(
    folders: Vec<Folder>,
    cache: &Vec<(i64, HxMessage)>,
    r: Vec<Folder>,
)
    requires
        cache@.len() <= 0x4000_0000_0000_0000,
        call_ensures(profile::profile_folders, (folders, cache), r),
    ensures
        r@.len() == folders@.len() + (if cache@.len() == 0 {
            0int
        } else {
            1
        }),
        forall|i: int| 0 <= i < folders@.len() ==> same_folder(#[trigger] r@[i], folders@[i]),
        cache@.len() > 0 ==> {
            let f = r@.last();
            &&& f.id == -1
            &&& f.parent_id is None
            &&& f.name matches Some(n) && n@ == "Recovered Mail (Hx cache)"@
            &&& f.path@ == "/Recovered Mail (Hx cache)"@
            &&& f.item_count matches Some(n) && n == cache@.len()
            &&& f.unread_count is None
            &&& !f.has_subfolders
            &&& !f.is_search_folder
        },
{
    let vs = views::views(r@);
    let given = views::views(folders@);
    assert(vs.len() == r@.len() && given.len() == folders@.len());
    assert forall|i: int| 0 <= i < folders@.len() implies same_folder(
        #[trigger] r@[i],
        folders@[i],
    ) by {
        assert(vs[i] == r@[i]@);
        assert(given[i] == folders@[i]@);
        assert(r@[i]@ == folders@[i]@);
        assert(r@[i]@.name == text::opt_text(r@[i].name));
        assert(folders@[i]@.name == text::opt_text(folders@[i].name));
    }
    if cache@.len() > 0 {
        assert(vs.last() == r@.last()@);
        assert(r@.last()@ == profile::hx_folder(cache@.len()));
        assert(r@.last()@.name == text::opt_text(r@.last().name));
    }
}

/// Two attachments that are listed alike.
pub open spec fn same_attachment(a: Attachment, b: Attachment) -> bool {
    &&& a.id == b.id
    &&& same_text(a.filename, b.filename)
    &&& same_text(a.mime, b.mime)
    &&& same_text(a.content_id, b.content_id)
    &&& a.declared_size == b.declared_size
    &&& a.data_len == b.data_len
}

/// `r` is the message of the listed mail `mail`, with everything but its bodies.
pub open spec fn shows_mail(r: Message, mail: RawMail) -> bool {
    &&& r.id == mail.row.id
    &&& same_text(r.subject, mail.row.subject)
    &&& same_text(r.sender_name, mail.row.sender_name)
    &&& same_text(r.sender_email, mail.row.sender_email)
    &&& r.display_to is None && r.display_cc is None && r.display_bcc is None
    &&& r.delivered_us == mail.row.delivered_us
    &&& r.submitted_us == mail.row.submitted_us
    &&& r.modified_us == mail.row.modified_us
    &&& r.size == mail.row.size
    &&& r.unread == mail.row.unread
    &&& same_text(r.message_class, mail.row.message_class)
    &&& r.internet_message_id is None
    &&& same_text(r.conversation_topic, mail.conversation_topic)
    &&& r.recipients@.len() == 0
}

/// `r` has the body `b`, under the kind that it is of, and no other.
pub open spec fn has_body(r: Message, b: Option<MessageBody>) -> bool {
    match b {
        None => r.body_plain is None && r.body_html is None && r.body_rtf is None,
        Some(body) => match body.kind {
            BodyKind::Html => r.body_html matches Some(t) && t@ == body.text@ && r.body_plain is None
                && r.body_rtf is None,
            BodyKind::Rtf => r.body_rtf matches Some(t) && t@ == body.text@ && r.body_plain is None
                && r.body_html is None,
            _ => r.body_plain matches Some(t) && t@ == body.text@ && r.body_html is None
                && r.body_rtf is None,
        },
    }
}

/// A message of the database tells what its record tells, lists the attachments that
/// it was given, and shows as its body what its file holds.
pub proof fn lemma_classic_message(
    mail: RawMail,
    data: Option<Vec<u8>>,
    file: &[u8],
    body: Option<MessageBody>,
    attachments: Vec<Attachment>,
    r: Message,
)
    requires
        data matches Some(d) ==> d@ == file@ && call_ensures(olk15::parse_message, (file,), body),
        data is None ==> body is None,
        call_ensures(profile::classic_message, (mail, data, attachments), r),
    ensures
        shows_mail(r, mail),
        has_body(r, body),
        r.attachments@.len() == attachments@.len(),
        forall|i: int|
            0 <= i < attachments@.len() ==> same_attachment(
                #[trigger] r.attachments@[i],
                attachments@[i],
            ),
{
    let row = mail.row;
    assert(mail.row@.subject == text::opt_text(row.subject));
    assert(r@.recipients.len() == r.recipients@.len());
    assert(r@.body_plain == text::opt_text(r.body_plain));
    assert(r@.body_html == text::opt_text(r.body_html));
    assert(r@.body_rtf == text::opt_text(r.body_rtf));
    let vs = views::views(r.attachments@);
    let given = views::views(attachments@);
    assert(vs.len() == r.attachments@.len() && given.len() == attachments@.len());
    assert(vs == given);
    assert forall|i: int| 0 <= i < attachments@.len() implies same_attachment(
        #[trigger] r.attachments@[i],
        attachments@[i],
    ) by {
        assert(vs[i] == r.attachments@[i]@);
        assert(given[i] == attachments@[i]@);
        assert(r.attachments@[i]@.filename == text::opt_text(r.attachments@[i].filename));
        assert(attachments@[i]@.filename == text::opt_text(attachments@[i].filename));
        assert(attachments@[i]@.data_len == r.attachments@[i]@.data_len);
    }
}

/// `r` lists the linked block `block`, whose file says `said` of itself.
pub open spec fn lists_block(
    r: Attachment,
    block: LinkedBlock,
    said: Option<(Option<String>, Option<String>)>,
) -> bool {
    &&& r.id == block.id
    &&& match said {
        Some((name, kind)) => same_text(r.filename, name) && same_text(r.mime, kind),
        None => r.filename is None && r.mime is None,
    }
    &&& r.content_id is None && r.declared_size is None && r.data_len is None
}

/// An attachment is listed under the id of its block, with the name and the type
/// that its file gives; with neither where the file says nothing.
pub proof fn lemma_attachment_is_its_block(
    block: &LinkedBlock,
    data: Option<Vec<u8>>,
    file: &[u8],
    said: Result<(Option<String>, Option<String>), Error>,
    r: Attachment,
)
    requires
        data matches Some(d) ==> d@ == file@ && call_ensures(
            olk15::attachment_metadata,
            (file,),
            said,
        ),
        call_ensures(profile::attachment_entry, (block, data), r),
    ensures
        lists_block(
            r,
            *block,
            if data is Some && said is Ok {
                Some(said->Ok_0)
            } else {
                None
            },
        ),
{
    assert(r@.data_len is None);
    assert(r@.filename == text::opt_text(r.filename));
    assert(r@.mime == text::opt_text(r.mime));
}

/// The id of an attachment leads to the file of the first block that carries it.
pub proof fn lemma_attachment_file_is_its_blocks(
    blocks: &Vec<LinkedBlock>,
    message_id: i64,
    attachment_id: i64,
    at: int,
    r: Result<String, Error>,
)
    requires
        0 <= at <= blocks@.len(),
        forall|k: int| 0 <= k < at ==> (#[trigger] blocks@[k]).id != attachment_id,
        at < blocks@.len() ==> blocks@[at].id == attachment_id,
        call_ensures(profile::attachment_file, (blocks, message_id, attachment_id), r),
    ensures
        at < blocks@.len() ==> (r matches Ok(path) && path@ == blocks@[at].path_to_data_file@),
        at == blocks@.len() ==> r matches Err(Error::NotFound(_)),
{
    lemma_block_found(blocks@, attachment_id, 0, at);
}

proof fn lemma_block_found(blocks: Seq<LinkedBlock>, id: i64, from: int, at: int)
    requires
        0 <= from <= at <= blocks.len(),
        forall|k: int| from <= k < at ==> (#[trigger] blocks[k]).id != id,
        at < blocks.len() ==> blocks[at].id == id,
    ensures
        profile::block_from(views::views(blocks), id, from) == (if at < blocks.len() {
            Some(blocks[at]@)
        } else {
            None
        }),
    decreases at - from,
{
    let vs = views::views(blocks);
    if from < at {
        assert(vs[from] == blocks[from]@);
        assert(blocks[from].id != id);
        lemma_block_found(blocks, id, from + 1, at);
    } else if at < blocks.len() {
        assert(vs[at] == blocks[at]@);
    }
}

/// Ids from minus one million down are recovered messages, and minus one is their
/// folder.
pub proof fn lemma_recovered_ids(id: i64, message: bool, folder: bool)
    requires
        call_ensures(profile::is_hx_message, (id,), message),
        call_ensures(profile::is_hx_folder, (id,), folder),
    ensures
        message == (id <= -1_000_000),
        folder == (id == -1),
{
}

/// A text within another.
pub open spec fn within(s: Seq<char>, part: Seq<char>) -> bool {
    exists|k: int| 0 <= k <= s.len() - part.len() && #[trigger] s.subrange(k, k + part.len()) == part
}

proof fn lemma_within(s: Seq<char>, part: Seq<char>)
    ensures
        schema::path_holds(s, part) == within(s, part),
{
    if part.len() == 0 {
        assert(s.subrange(0, 0) =~= part);
        let k: int = 0;
        assert(s.subrange(k, k + part.len()) == part);
    } else {
        crate::search::lemma_first_from(s, part, 0);
        match crate::search::first(s, part) {
            Some(k) => {
                assert(s.subrange(k, k + part.len()) == part);
            },
            None => {
                assert forall|k: int| 0 <= k <= s.len() - part.len() implies #[trigger] s.subrange(
                    k,
                    k + part.len(),
                ) != part by {
                    assert(!crate::search::stands_at(s, part, k));
                }
            },
        }
    }
}

/// One more row of the link table is one more linked block where its path holds the
/// part that is asked for, under the hash of its key, and nothing else changes.
pub proof fn lemma_one_more_linked_row(
    rows: Vec<(Vec<u8>, String)>,
    more: Vec<(Vec<u8>, String)>,
    row: (Vec<u8>, String),
    key: &[u8],
    part: &str,
    id: i64,
    before: Vec<LinkedBlock>,
    after: Vec<LinkedBlock>,
)
    requires
        more@ == rows@.push(row),
        key@ == row.0@,
        call_ensures(schema::block_id_hash, (key,), id),
        call_ensures(schema::linked_blocks, (rows, part), before),
        call_ensures(schema::linked_blocks, (more, part), after),
    ensures
        rows@.len() == 0 ==> before@.len() == 0,
        after@.len() == before@.len() + (if within(row.1@, part@) {
            1int
        } else {
            0
        }),
        forall|i: int|
            0 <= i < before@.len() ==> (#[trigger] after@[i]).id == before@[i].id
                && after@[i].path_to_data_file@ == before@[i].path_to_data_file@,
        within(row.1@, part@) ==> after@.last().id == id && after@.last().path_to_data_file@
            == row.1@,
{
    lemma_within(row.1@, part@);
    let old_views = views::views(before@);
    let new_views = views::views(after@);
    assert(more@.drop_last() =~= rows@);
    assert(more@.last() == row);
    assert(old_views.len() == before@.len() && new_views.len() == after@.len());
    assert forall|i: int| 0 <= i < before@.len() implies (#[trigger] after@[i]).id == before@[i].id
        && after@[i].path_to_data_file@ == before@[i].path_to_data_file@ by {
        assert(old_views[i] == before@[i]@);
        assert(new_views[i] == after@[i]@);
    }
    if within(row.1@, part@) {
        assert(new_views.last() == after@.last()@);
    }
}

/// What a folder is called: by the special folder that it is, else by its own name,
/// unless that is a placeholder.
pub open spec fn folder_called(f: FolderRecord, name: Option<Seq<char>>) -> bool {
    &&& f.special == 1 ==> name == Some("Inbox"@)
    &&& f.special == 2 ==> name == Some("Outbox"@)
    &&& f.special == 3 ==> name == Some("Address Book"@)
    &&& f.special == 4 ==> name == Some("Calendar"@)
    &&& f.special == 5 ==> name == Some("Notes"@)
    &&& f.special == 6 ==> name == Some("Tasks"@)
    &&& f.special == 8 ==> name == Some("Sent Items"@)
    &&& f.special == 9 ==> name == Some("Deleted Items"@)
    &&& f.special == 10 ==> name == Some("Drafts"@)
    &&& f.special == 12 ==> name == Some("Junk Email"@)
    &&& f.special == 99 ==> name == Some("On My Computer"@)
    &&& f.special == 103 ==> name == Some("Temporary Items"@)
    &&& !(1 <= f.special <= 6 || 8 <= f.special <= 10 || f.special == 12 || f.special == 99
        || f.special == 103) ==> name == (if "Placeholder_"@.is_prefix_of(f.name@)
        && "_Placeholder"@.is_suffix_of(f.name@) {
        None
    } else {
        Some(f.name@)
    })
}

/// A folder's part of a path: what it is called, or its number where it has no name.
pub open spec fn folder_step(f: FolderRecord, name: Option<String>) -> Seq<char> {
    match name {
        Some(n) => n@,
        None => "folder-"@ + text::signed(f.id as int),
    }
}

/// `r` lists the folder row `f`.
pub open spec fn lists_folder(r: Folder, f: FolderRecord, rows: Seq<FolderRecord>) -> bool {
    &&& r.id == f.id
    &&& r.parent_id == (if f.parent > 0 {
        Some(f.parent)
    } else {
        None
    })
    &&& folder_called(f, text::opt_text(r.name))
    &&& r.has_subfolders == (f.id > 0 && exists|j: int|
        0 <= j < rows.len() && (#[trigger] rows[j]).parent == f.id)
    &&& !r.is_search_folder
}

proof fn lemma_called(f: FolderRecord)
    ensures
        folder_called(f, f@.real_name()),
{
    reveal_strlit("Placeholder_");
    reveal_strlit("_Placeholder");
    let name = f.name@;
    let head = "Placeholder_"@;
    let tail = "_Placeholder"@;
    if head.is_prefix_of(name) && tail.is_suffix_of(name) {
        assert(name.subrange(0, 12) =~= head);
        assert(name.subrange(name.len() - 12, name.len() as int) =~= tail);
        assert(crate::search::stands_at(name, tail, name.len() - 12));
        assert(schema::placeholder(name));
    }
    if schema::placeholder(name) {
        assert(head =~= name.subrange(0, 12));
        assert(head.is_prefix_of(name));
        assert(tail.is_suffix_of(name));
    }
}

/// The folders of the database are its rows: each under its own id, its parent and
/// its name, and with children where some row names it as parent.
pub proof fn lemma_folders_are_the_rows(
    rows: &Vec<FolderRecord>,
    counts: &Vec<CountRecord>,
    r: Vec<Folder>,
)
    requires
        call_ensures(schema::folders, (rows, counts), r),
    ensures
        r@.len() == rows@.len(),
        forall|i: int|
            0 <= i < rows@.len() ==> lists_folder(#[trigger] r@[i], rows@[i], rows@),
{
    let vs = views::views(r@);
    let all = views::views(rows@);
    assert(vs.len() == r@.len() && all.len() == rows@.len());
    assert forall|i: int| 0 <= i < rows@.len() implies lists_folder(
        #[trigger] r@[i],
        rows@[i],
        rows@,
    ) by {
        assert(vs[i] == r@[i]@);
        assert(all[i] == rows@[i]@);
        lemma_called(rows@[i]);
        assert(r@[i]@ == schema::listed_folder(all, schema::counts_by_id(counts@), rows@[i]@));
        let id = rows@[i].id;
        if schema::has_children(all, id) {
            let j = choose|j: int|
                0 <= j < all.len() && (#[trigger] all[j]).parent_id() == Some(id);
            assert(all[j] == rows@[j]@);
            assert(rows@[j].parent == id);
        }
        if id > 0 && exists|j: int| 0 <= j < rows@.len() && (#[trigger] rows@[j]).parent == id {
            let j = choose|j: int| 0 <= j < rows@.len() && (#[trigger] rows@[j]).parent == id;
            assert(all[j] == rows@[j]@);
        }
    }
}

/// A folder shows the counts of the last count row that speaks of it; zeros where
/// none does. `at` is that row, or -1.
pub proof fn lemma_folders_show_their_counts(
    rows: &Vec<FolderRecord>,
    counts: &Vec<CountRecord>,
    r: Vec<Folder>,
    i: int,
    at: int,
)
    requires
        0 <= i < rows@.len(),
        -1 <= at < counts@.len(),
        forall|k: int| at < k < counts@.len() ==> (#[trigger] counts@[k]).folder_id != rows@[i].id,
        at >= 0 ==> counts@[at].folder_id == rows@[i].id,
        call_ensures(schema::folders, (rows, counts), r),
    ensures
        i < r@.len(),
        r@[i].item_count == Some(
            if at >= 0 {
                counts@[at].total
            } else {
                0
            },
        ),
        r@[i].unread_count == Some(
            if at >= 0 && counts@[at].unread is Some {
                counts@[at].unread->Some_0
            } else {
                0
            },
        ),
{
    let vs = views::views(r@);
    let all = views::views(rows@);
    assert(vs.len() == r@.len() && all.len() == rows@.len());
    assert(vs[i] == r@[i]@);
    assert(all[i] == rows@[i]@);
    let id = rows@[i].id;
    let entries = Seq::new(
        counts@.len(),
        |k: int|
            (
                counts@[k].folder_id,
                (
                    counts@[k].total,
                    match counts@[k].unread {
                        Some(n) => n,
                        None => 0i64,
                    },
                ),
            ),
    );
    assert(schema::counts_by_id(counts@) == maps::last_wins(entries));
    maps::lemma_last_wins_is_last(entries, id);
    assert(forall|k: int| 0 <= k < entries.len() ==> (#[trigger] entries[k]).0
        == counts@[k].folder_id);
    if at >= 0 {
        assert(entries[at].0 == id);
    }
}

/// The steps from the root to a folder, by the rows of the folders on the way.
pub open spec fn path_along(rows: Seq<FolderRecord>, r: Seq<Folder>, way: Seq<int>) -> Seq<char>
    decreases way.len(),
{
    if way.len() == 0 {
        seq![]
    } else {
        path_along(rows, r, way.drop_last()) + "/"@ + folder_step(
            rows[way.last()],
            r[way.last()].name,
        )
    }
}

/// Rows each of which is the parent of the next; nothing listed is the parent of the
/// first.
pub open spec fn leads_down(rows: Seq<FolderRecord>, way: Seq<int>) -> bool {
    &&& 0 < way.len()
    &&& forall|k: int| 0 <= k < way.len() ==> 0 <= #[trigger] way[k] < rows.len()
    &&& forall|k: int|
        0 <= k < way.len() - 1 ==> rows[#[trigger] way[k + 1]].parent == rows[way[k]].id
            && rows[way[k]].id > 0
    &&& rows[way[0]].parent <= 0 || forall|j: int|
        0 <= j < rows.len() ==> (#[trigger] rows[j]).id != rows[way[0]].parent
}

proof fn lemma_path_along(
    rows: Seq<FolderRecord>,
    r: Seq<Folder>,
    way: Seq<int>,
    steps: nat,
)
    requires
        rows.len() <= usize::MAX,
        forall|a: int, b: int|
            0 <= a < b < rows.len() ==> (#[trigger] rows[a]).id != (#[trigger] rows[b]).id,
        leads_down(rows, way),
        way.len() <= steps,
        r.len() == rows.len(),
        forall|i: int|
            0 <= i < rows.len() ==> text::opt_text((#[trigger] r[i]).name)
                == rows[i]@.real_name(),
    ensures
        schema::path_of(views::views(rows), rows[way.last()].id, steps) == path_along(rows, r, way),
    decreases way.len(),
{
    let all = views::views(rows);
    let at = way.last();
    assert(at == way[way.len() - 1]);
    let id = rows[at].id;
    let entries = Seq::new(all.len(), |k: int| (all[k].id, k as usize));
    assert(forall|k: int| 0 <= k < entries.len() ==> (#[trigger] entries[k]).0 == rows[k].id);
    maps::lemma_last_wins_is_last(entries, id);
    assert(entries[at].0 == id);
    assert(schema::rows_by_id(all)[id] == at as usize);
    let f = all[at];
    assert(f == rows[at]@);
    assert(f.segment() == folder_step(rows[at], r[at].name));
    let shorter = way.drop_last();
    if shorter.len() > 0 {
        assert(shorter.last() == way[way.len() - 2]);
        assert(way[way.len() - 2 + 1] == at);
        assert(rows[at].parent == rows[way[way.len() - 2]].id);
        assert(leads_down(rows, shorter)) by {
            assert forall|k: int| 0 <= k < shorter.len() implies 0 <= #[trigger] shorter[k]
                < rows.len() by {
                assert(shorter[k] == way[k]);
            }
            assert forall|k: int| 0 <= k < shorter.len() - 1 implies rows[#[trigger] shorter[k
                + 1]].parent == rows[shorter[k]].id && rows[shorter[k]].id > 0 by {
                assert(shorter[k + 1] == way[k + 1]);
                assert(shorter[k] == way[k]);
            }
            assert(shorter[0] == way[0]);
        }
        lemma_path_along(rows, r, shorter, (steps - 1) as nat);
    } else {
        assert(at == way[0]);
        if let Some(p) = f.parent_id() {
            maps::lemma_last_wins_is_last(entries, p);
            assert(!schema::rows_by_id(all).contains_key(p));
            assert(schema::path_of(all, p, (steps - 1) as nat) == Seq::<char>::empty());
        }
        assert(path_along(rows, r, shorter) == Seq::<char>::empty());
    }
}

/// The path of a folder is made of a slash and a step for each folder on the way to
/// it, itself last.
pub proof fn lemma_path_is_the_way(
    rows: &Vec<FolderRecord>,
    counts: &Vec<CountRecord>,
    r: Vec<Folder>,
    way: Seq<int>,
)
    requires
        forall|a: int, b: int|
            0 <= a < b < rows@.len() ==> (#[trigger] rows@[a]).id != (#[trigger] rows@[b]).id,
        leads_down(rows@, way),
        way.len() <= 64,
        call_ensures(schema::folders, (rows, counts), r),
    ensures
        r@.len() == rows@.len(),
        r@[way.last()].path@ == path_along(rows@, r@, way),
{
    let vs = views::views(r@);
    let all = views::views(rows@);
    assert(vs.len() == r@.len() && all.len() == rows@.len());
    assert forall|i: int| 0 <= i < rows@.len() implies text::opt_text((#[trigger] r@[i]).name)
        == rows@[i]@.real_name() by {
        assert(vs[i] == r@[i]@);
        assert(all[i] == rows@[i]@);
    }
    assert(rows@.len() == rows.len());
    lemma_path_along(rows@, r@, way, 64);
    assert(way.last() == way[way.len() - 1]);
    assert(vs[way.last()] == r@[way.last()]@);
    assert(all[way.last()] == rows@[way.last()]@);
}

/// The name of the profile is the first that is there and not empty.
pub proof fn lemma_first_name_is_shown(names: &Vec<Option<String>>, at: int, r: Option<String>)
    requires
        0 <= at <= names@.len(),
        forall|k: int|
            0 <= k < at ==> ((#[trigger] names@[k]) matches Some(s) ==> s@.len() == 0),
        at < names@.len() ==> (names@[at] matches Some(s) && s@.len() > 0),
        call_ensures(schema::display_name, (names,), r),
    ensures
        at < names@.len() ==> same_text(r, names@[at]),
        at == names@.len() ==> r is None,
{
    lemma_first_name(names@, 0, at);
}

proof fn lemma_first_name(names: Seq<Option<String>>, from: int, at: int)
    requires
        0 <= from <= at <= names.len(),
        forall|k: int| from <= k < at ==> ((#[trigger] names[k]) matches Some(s) ==> s@.len() == 0),
        at < names.len() ==> (names[at] matches Some(s) && s@.len() > 0),
    ensures
        schema::first_name(names, from) == (if at < names.len() {
            Some(names[at]->Some_0@)
        } else {
            None
        }),
    decreases at - from,
{
    if from < at {
        assert(names[from] matches Some(s) ==> s@.len() == 0);
        lemma_first_name(names, from + 1, at);
    }
}

/// A block's id grows out of that of its key without the last byte: each byte is
/// mixed in and the whole is multiplied, and the sign is left out.
pub proof fn lemma_block_id_by_bytes(key: &[u8], longer: &[u8], x: u8, id: i64, next: i64)
    requires
        longer@ == key@.push(x),
        call_ensures(schema::block_id_hash, (key,), id),
        call_ensures(schema::block_id_hash, (longer,), next),
    ensures
        key@.len() == 0 ==> id == 0x4bf29ce484222325,
        id >= 0,
        next == (((id as u64) ^ (x as u64)) * 0x100000001b3) % 0x8000_0000_0000_0000,
{
    assert(longer@.drop_last() =~= key@);
    let f = schema::fnv(key@);
    let h = (f as int % 0x8000_0000_0000_0000) as u64;
    let w = x as u64;
    assert((f ^ w) % 0x8000_0000_0000_0000u64 == (f % 0x8000_0000_0000_0000u64) ^ w) by (bit_vector)
        requires
            w < 256,
    ;
    assert(id as u64 == h);
    let mixed = (f ^ w) as int;
    let m = 0x8000_0000_0000_0000int;
    vstd::arithmetic::div_mod::lemma_mul_mod_noop_left(mixed, 0x100000001b3, m);
    assert(mixed % m == (h ^ w) as int);
}

/// The digit that spells `d` in base sixteen.
pub open spec fn spelled_digit(d: int, small: bool) -> u8 {
    if d < 10 {
        (0x30 + d) as u8
    } else if small {
        (0x61 + d - 10) as u8
    } else {
        (0x41 + d - 10) as u8
    }
}

/// How a byte may be written in an escaped path: as itself, or as a percent sign and
/// two digits.
pub enum Spelling {
    Plain,
    Capitals,
    Small,
}

/// The bytes of an escaped path.
pub open spec fn spelled(b: Seq<u8>, how: Seq<Spelling>) -> Seq<u8>
    decreases b.len(),
{
    if b.len() == 0 {
        seq![]
    } else {
        let small = how[0] is Small;
        let head = if how[0] is Plain {
            seq![b[0]]
        } else {
            seq![
                0x25u8,
                spelled_digit(b[0] as int / 16, small),
                spelled_digit(b[0] as int % 16, small),
            ]
        };
        head + spelled(b.skip(1), how.skip(1))
    }
}

proof fn lemma_spelled(before: Seq<u8>, b: Seq<u8>, how: Seq<Spelling>)
    requires
        how.len() == b.len(),
        forall|i: int| 0 <= i < b.len() && #[trigger] b[i] == 0x25 ==> !(how[i] is Plain),
    ensures
        profile::unescaped_from(before + spelled(b, how), before.len() as int) == b,
    decreases b.len(),
{
    let whole = before + spelled(b, how);
    let at = before.len() as int;
    if b.len() == 0 {
        assert(whole.len() == at);
        assert(profile::unescaped_from(whole, at) =~= b);
    } else {
        let rest_b = b.skip(1);
        let rest_how = how.skip(1);
        let small = how[0] is Small;
        let rest = spelled(rest_b, rest_how);
        assert forall|i: int| 0 <= i < rest_b.len() && #[trigger] rest_b[i] == 0x25 implies !(
        rest_how[i] is Plain) by {
            assert(rest_b[i] == b[i + 1]);
        }
        assert(seq![b[0]] + rest_b =~= b);
        if how[0] is Plain {
            let more = before.push(b[0]);
            lemma_spelled(more, rest_b, rest_how);
            assert(more + rest =~= whole);
            assert(whole[at] == b[0] && b[0] != 0x25);
        } else {
            let hi = spelled_digit(b[0] as int / 16, small);
            let lo = spelled_digit(b[0] as int % 16, small);
            let more = before + seq![0x25u8, hi, lo];
            lemma_spelled(more, rest_b, rest_how);
            assert(more + rest =~= whole);
            assert(whole[at] == 0x25 && whole[at + 1] == hi && whole[at + 2] == lo);
            assert(profile::hex_value(hi) == Some(b[0] as int / 16));
            assert(profile::hex_value(lo) == Some(b[0] as int % 16));
            assert(profile::escape_value(hi, lo) == Some(b[0] as int));
        }
    }
}

/// A path that was escaped reads as what it was, whichever of its bytes were written
/// as digits; a percent sign itself must be.
pub proof fn lemma_escaped_path_reads_back(
    path: Seq<char>,
    how: Seq<Spelling>,
    written: &str,
    r: String,
)
    requires
        how.len() == vstd::utf8::encode_utf8(path).len(),
        forall|i: int|
            0 <= i < how.len() && #[trigger] vstd::utf8::encode_utf8(path)[i] == 0x25 ==> !(
            how[i] is Plain),
        vstd::utf8::encode_utf8(written@) == spelled(vstd::utf8::encode_utf8(path), how),
        call_ensures(profile::percent_decode, (written,), r),
    ensures
        r@ == path,
{
    let b = vstd::utf8::encode_utf8(path);
    lemma_spelled(seq![], b, how);
    assert(Seq::<u8>::empty() + spelled(b, how) =~= spelled(b, how));
    vstd::utf8::encode_utf8_valid_utf8(path);
    vstd::utf8::encode_utf8_decode_utf8(path);
}

} // verus!
