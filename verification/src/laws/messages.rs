//! Laws of messages and folders in a PFF store: which property each thing told of
//! them is.

use vstd::prelude::*;
use crate::bytes;
use crate::errors::ErrorV;
use crate::ost;
use crate::ost::ltp;
use crate::ost::ltp::{PcV, TcV};
use crate::ost::ndb::PffV;
use crate::ost::props;
use crate::ost::store;
use crate::ost::store::{Attachment, Message, MessageRow, Recipient, Store};
use crate::views;

verus! {

/// `r` is the text that is there.
pub open spec fn tells(r: Option<String>, t: Option<Seq<char>>) -> bool {
    match (r, t) {
        (Some(s), Some(u)) => s@ == u,
        (None, None) => true,
        _ => false,
    }
}

/// `r` is `a`, or `b` where that is missing.
pub open spec fn tells_first(
    r: Option<String>,
    a: Option<Seq<char>>,
    b: Option<Seq<char>>,
) -> bool {
    if a is Some {
        tells(r, a)
    } else {
        tells(r, b)
    }
}

/// `r` is the stored time in microseconds from 1970 on; none where it is missing or
/// zero.
pub open spec fn tells_time(r: Option<i64>, ft: Option<u64>) -> bool {
    match ft {
        Some(t) => if t == 0 {
            r is None
        } else {
            r matches Some(us) && us == t as int / 10 - 11_644_473_600_000_000
        },
        None => r is None,
    }
}

/// A number that is odd has its lowest bit set.
pub open spec fn bit_0(n: i32) -> bool {
    n as int % 2 == 1
}

/// Whether bit 4 is set.
pub open spec fn bit_4(n: i32) -> bool {
    n as int / 16 % 2 == 1
}

proof fn lemma_bits(n: i32)
    ensures
        store::is_unread(n) == !bit_0(n),
        store::flags_attachment(n) == bit_4(n),
{
    assert((n & 1 == 0) == (n as int % 2 == 0)) by {
        assert(n & 1 == 0 || n & 1 == 1) by (bit_vector);
        let m: i64 = (n as i64 + 0x8000_0000) as i64;
        let u: u32 = m as u32;
        assert(u == n + 0x8000_0000);
        assert((n & 1 == 0) == (u & 1 == 0)) by (bit_vector)
            requires
                u == n + 0x8000_0000,
        ;
        assert(u & 1 == u % 2) by (bit_vector);
    }
    assert((n & 16 != 0) == (n as int / 16 % 2 == 1)) by {
        let m: i64 = (n as i64 + 0x8000_0000) as i64;
        let u: u32 = m as u32;
        assert(u == n + 0x8000_0000);
        assert((n & 16 != 0) == (u & 16 != 0)) by (bit_vector)
            requires
                u == n + 0x8000_0000,
        ;
        assert((u & 16 != 0) == ((u / 16) % 2 == 1)) by (bit_vector);
    }
}

/// What an EntryID spells out: its name and its address.
pub open spec fn spelled(b: Option<Seq<u8>>) -> (Option<Seq<char>>, Option<Seq<char>>) {
    match b {
        Some(b) => match props::one_off_address(b) {
            Some((name, address)) => (name, address),
            None => (None, None),
        },
        None => (None, None),
    }
}

/// The first EntryID that is there: the sender's, or that of whom it was sent for.
pub open spec fn first_entry(a: Option<Seq<u8>>, b: Option<Seq<u8>>) -> Option<Seq<u8>> {
    if a is Some {
        a
    } else {
        b
    }
}

/// Each thing told of a message is one of its properties.
pub open spec fn is_told_by(m: Message, pc: PcV) -> bool {
    let (name, address) = spelled(first_entry(pc.bytes(0x0C19), pc.bytes(0x0041)));
    &&& pc.string(0x0037) matches Some(s) ==> (m.subject matches Some(t) && t@
        == props::subject_text(s))
    &&& pc.string(0x0037) is None ==> m.subject is None
    &&& pc.string(0x0C1A) is Some ==> tells(m.sender_name, pc.string(0x0C1A))
    &&& pc.string(0x0C1A) is None ==> tells_first(m.sender_name, pc.string(0x0042), name)
    &&& tells_first(m.sender_email, pc.string(0x0C1F), address)
    &&& tells(m.display_to, pc.string(0x0E04))
    &&& tells(m.display_cc, pc.string(0x0E03))
    &&& tells(m.display_bcc, pc.string(0x0E02))
    &&& tells_time(m.delivered_us, pc.uint64(0x0E06))
    &&& tells_time(m.submitted_us, pc.uint64(0x0039))
    &&& tells_time(m.modified_us, pc.uint64(0x3008))
    &&& m.size == pc.int32(0x0E08)
    &&& pc.int32(0x0E07) matches Some(f) ==> m.unread == Some(!bit_0(f))
    &&& pc.int32(0x0E07) is None ==> m.unread is None
    &&& tells(m.message_class, pc.string(0x001A))
    &&& tells(m.internet_message_id, pc.string(0x1035))
    &&& tells(m.conversation_topic, pc.string(0x0070))
    &&& tells(m.body_plain, pc.text(0x1000))
    &&& tells(m.body_html, pc.text(0x1013))
}

/// A message is told by its properties: each field by its own.
pub proof fn lemma_message_is_told_by_its_properties(store: &Store, nid: u32, pc: PcV, m: Message)
    requires
        call_ensures(Store::message, (store, nid), Ok(m)),
        ltp::pc_of(store.pff@, nid) == Ok::<PcV, ErrorV>(pc),
    ensures
        m.nid == nid,
        is_told_by(m, pc),
{
    let v = m@;
    let got = store::message_of(store.pff@, nid)->Ok_0;
    assert(v == got);
    assert(v == store::assembled(nid, pc, v.body_rtf, v.recipients, v.attachments));
    lemma_told(m, pc);
}

proof fn lemma_told(m: Message, pc: PcV)
    requires
        m@ == store::assembled(m.nid, pc, m@.body_rtf, m@.recipients, m@.attachments),
    ensures
        is_told_by(m, pc),
{
    if let Some(f) = pc.int32(0x0E07) {
        lemma_bits(f);
    }
}

/// Each thing told of a message in a list is one of its columns.
pub open spec fn is_row_told_by(m: MessageRow, tc: TcV, row: Seq<u8>) -> bool {
    let (name, address) = spelled(first_entry(tc.bytes(row, 0x0C19), tc.bytes(row, 0x0041)));
    &&& row.len() >= 4 ==> m.nid == bytes::le32(row, 0)
    &&& tc.string(row, 0x0037) matches Some(s) ==> (m.subject matches Some(t) && t@
        == props::subject_text(s))
    &&& tc.string(row, 0x0037) is None ==> m.subject is None
    &&& tells_first(m.sender_name, tc.string(row, 0x0C1A), name)
    &&& tells_first(m.sender_email, tc.string(row, 0x0C1F), address)
    &&& tells_time(m.delivered_us, tc.uint64(row, 0x0E06))
    &&& tells_time(m.submitted_us, tc.uint64(row, 0x0039))
    &&& tells_time(m.modified_us, tc.uint64(row, 0x3008))
    &&& m.size == tc.int32(row, 0x0E08)
    &&& tc.int32(row, 0x0E07) matches Some(f) ==> m.unread == Some(!bit_0(f))
    &&& tc.int32(row, 0x0E07) is None ==> m.unread is None
    &&& tc.flag(row, 0x0E1B) is Some ==> m.has_attachments == tc.flag(row, 0x0E1B)
    &&& tc.flag(row, 0x0E1B) is None ==> (tc.int32(row, 0x0E07) matches Some(f)
        ==> m.has_attachments == Some(bit_4(f)))
    &&& tc.flag(row, 0x0E1B) is None && tc.int32(row, 0x0E07) is None ==> m.has_attachments is None
    &&& tells(m.message_class, tc.string(row, 0x001A))
}

/// The messages of a folder are the rows of its contents table, in order, each told
/// by its columns. (The contents table of a folder has its index and type 0x0E.)
pub proof fn lemma_messages_are_the_rows_of_the_contents_table(
    store: &Store,
    folder: u32,
    tc: TcV,
    list: Vec<MessageRow>,
)
    requires
        call_ensures(Store::messages, (store, folder), Ok(list)),
        ltp::tc_of(store.pff@, (folder / 32 * 32 + 0x0E) as u32) == Ok::<TcV, ErrorV>(tc),
    ensures
        list@.len() == tc.rows.len(),
        forall|i: int|
            0 <= i < list@.len() ==> (#[trigger] list@[i]).folder_nid == folder && is_row_told_by(
                list@[i],
                tc,
                tc.rows[i],
            ),
{
    lemma_table(folder, 0x0E);
    let told = views::views(list@);
    assert(told.len() == list@.len());
    assert forall|i: int| 0 <= i < list@.len() implies (#[trigger] list@[i]).folder_nid == folder
        && is_row_told_by(list@[i], tc, tc.rows[i]) by {
        assert(told[i] == list@[i]@);
        lemma_row_told(list@[i], tc, tc.rows[i], folder);
    }
}

proof fn lemma_row_told(m: MessageRow, tc: TcV, row: Seq<u8>, folder: u32)
    requires
        m@ == store::row_message(tc, row, folder),
    ensures
        m.folder_nid == folder,
        is_row_told_by(m, tc, row),
{
    if let Some(f) = tc.int32(row, 0x0E07) {
        lemma_bits(f);
    }
    if row.len() >= 4 {
        assert(0 <= bytes::le32(row, 0) <= 0xFFFF_FFFF);
    }
}

proof fn lemma_table(folder: u32, ntype: u32)
    requires
        ntype < 32,
    ensures
        store::table_of(folder, ntype) == folder / 32 * 32 + ntype,
{
    assert((((folder / 32) << 5) | ntype) == folder / 32 * 32 + ntype) by (bit_vector)
        requires
            ntype < 32,
    ;
}

/// Each thing told of a recipient is one of its columns; the SMTP address is told
/// before any other.
pub open spec fn is_recipient_told_by(p: Recipient, tc: TcV, row: Seq<u8>) -> bool {
    &&& p.kind == tc.int32(row, 0x0C15)
    &&& tells(p.name, tc.string(row, 0x3001))
    &&& tells_first(p.email, tc.string(row, 0x39FE), tc.string(row, 0x3003))
}

/// The recipients of a message are the rows of its recipient table, which is its
/// subnode 0x0692, in order.
pub proof fn lemma_recipients_are_the_rows_of_their_table(
    store: &Store,
    nid: u32,
    bid_sub: u64,
    subs: Map<u32, (u64, u64)>,
    tc: TcV,
    m: Message,
)
    requires
        call_ensures(Store::message, (store, nid), Ok(m)),
        store.pff@.node(nid) matches Ok(n) && n.bid_sub == bid_sub,
        store.pff@.subnodes(bid_sub) == Ok::<Map<u32, (u64, u64)>, ErrorV>(subs),
        subs.contains_key(0x0692),
        ltp::tc_at(store.pff@, subs[0x0692u32].0, subs[0x0692u32].1) == Ok::<TcV, ErrorV>(tc),
    ensures
        m.recipients@.len() == tc.rows.len(),
        forall|i: int|
            0 <= i < tc.rows.len() ==> is_recipient_told_by(
                #[trigger] m.recipients@[i],
                tc,
                tc.rows[i],
            ),
{
    let had = store::recipients_of(store.pff@, subs);
    assert(m@.recipients == had);
    assert(had.len() == m.recipients@.len());
    assert forall|i: int| 0 <= i < tc.rows.len() implies is_recipient_told_by(
        #[trigger] m.recipients@[i],
        tc,
        tc.rows[i],
    ) by {
        assert(had[i] == m.recipients@[i]@);
    }
}

/// Each thing told of an attachment is one of its columns, or one of the properties of
/// its own node where it has one.
pub open spec fn is_attachment_told_by(
    a: Attachment,
    tc: TcV,
    row: Seq<u8>,
    own: Option<PcV>,
) -> bool {
    &&& row.len() >= 4 ==> a.nid == bytes::le32(row, 0)
    &&& own matches Some(pc) ==> (pc.string(0x3707) is Some ==> tells(
        a.filename,
        pc.string(0x3707),
    ))
    &&& own matches Some(pc) ==> (pc.string(0x3707) is None ==> tells_first(
        a.filename,
        pc.string(0x3704),
        tc.string(row, 0x3707),
    ))
    &&& own is None ==> tells(a.filename, tc.string(row, 0x3707))
    &&& own matches Some(pc) ==> tells(a.mime, pc.string(0x370E)) && tells(
        a.content_id,
        pc.string(0x3712),
    )
    &&& own is None ==> a.mime is None && a.content_id is None && a.data_len is None
    &&& a.declared_size == tc.int32(row, 0x0E20)
}

/// The attachments of a message are the rows of its attachment table, which is its
/// subnode 0x0671, in order.
pub proof fn lemma_attachments_are_the_rows_of_their_table(
    store: &Store,
    nid: u32,
    bid_sub: u64,
    subs: Map<u32, (u64, u64)>,
    tc: TcV,
    list: Vec<Attachment>,
)
    requires
        call_ensures(Store::attachments, (store, nid), Ok(list)),
        store.pff@.node(nid) matches Ok(n) && n.bid_sub == bid_sub,
        store.pff@.subnodes(bid_sub) == Ok::<Map<u32, (u64, u64)>, ErrorV>(subs),
        subs.contains_key(0x0671),
        ltp::tc_at(store.pff@, subs[0x0671u32].0, subs[0x0671u32].1) == Ok::<TcV, ErrorV>(tc),
    ensures
        list@.len() == tc.rows.len(),
        forall|i: int|
            0 <= i < tc.rows.len() ==> is_attachment_told_by(
                #[trigger] list@[i],
                tc,
                tc.rows[i],
                if subs.contains_key(list@[i].nid) {
                    ltp::pc_at(
                        store.pff@,
                        subs[list@[i].nid].0,
                        subs[list@[i].nid].1,
                    ).ok()
                } else {
                    None
                },
            ),
{
    let had = views::views(list@);
    assert(had.len() == list@.len());
    assert forall|i: int| 0 <= i < tc.rows.len() implies is_attachment_told_by(
        #[trigger] list@[i],
        tc,
        tc.rows[i],
        if subs.contains_key(list@[i].nid) {
            ltp::pc_at(store.pff@, subs[list@[i].nid].0, subs[list@[i].nid].1).ok()
        } else {
            None
        },
    ) by {
        assert(had[i] == list@[i]@);
        assert(had[i] == store::row_attachment(store.pff@, subs, tc, tc.rows[i]));
        if tc.rows[i].len() >= 4 {
            assert(0 <= bytes::le32(tc.rows[i], 0) <= 0xFFFF_FFFF);
        }
    }
}

} // verus!
