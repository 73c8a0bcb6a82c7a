//! Laws of reading values out of a PFF store.

use vstd::prelude::*;
use crate::bytes;
use crate::errors::ErrorV;
use crate::laws::encoding;
use crate::ost;
use crate::ost::ltp;
use crate::ost::ltp::{Hn, Pc, PcV, Prop};
use crate::ost::ndb;
use crate::ost::ndb::{Pff, PffV};
use crate::ost::store;
use crate::ost::store::Store;
use crate::views;

verus! {

/// Where block `k` begins when the blocks stand one behind the other.
pub open spec fn offset<T>(blocks: Seq<Seq<T>>, k: int) -> int
    decreases k,
{
    if k <= 0 {
        0
    } else {
        offset(blocks, k - 1) + blocks[k - 1].len()
    }
}

/// Whether `whole` is the blocks one behind the other: as long as all of them
/// together, and each of them in its place.
pub open spec fn end_to_end<T>(whole: Seq<T>, blocks: Seq<Seq<T>>) -> bool {
    &&& whole.len() == offset(blocks, blocks.len() as int)
    &&& forall|k: int|
        0 <= k < blocks.len() ==> whole.subrange(
            offset(blocks, k),
            offset(blocks, k) + (#[trigger] blocks[k]).len(),
        ) == blocks[k]
}

proof fn lemma_offset_of_front<T>(blocks: Seq<Seq<T>>, k: int)
    requires
        0 <= k < blocks.len(),
    ensures
        offset(blocks.drop_last(), k) == offset(blocks, k),
    decreases k,
{
    if k > 0 {
        lemma_offset_of_front(blocks, k - 1);
    }
}

proof fn lemma_offset_grows<T>(blocks: Seq<Seq<T>>, j: int, k: int)
    requires
        0 <= j <= k <= blocks.len(),
    ensures
        0 <= offset(blocks, j) <= offset(blocks, k),
    decreases k,
{
    if k > 0 {
        if j < k {
            lemma_offset_grows(blocks, j, k - 1);
        } else {
            lemma_offset_grows(blocks, j - 1, k - 1);
        }
    }
}

/// Putting one more block behind what is end to end leaves it so.
pub proof fn lemma_end_to_end_push<T>(whole: Seq<T>, blocks: Seq<Seq<T>>, b: Seq<T>)
    requires
        end_to_end(whole, blocks),
    ensures
        end_to_end(whole + b, blocks.push(b)),
{
    let all = blocks.push(b);
    let n = blocks.len() as int;
    assert(all.drop_last() =~= blocks);
    lemma_offset_of_front(all, n);
    assert forall|k: int| 0 <= k < all.len() implies (whole + b).subrange(
        offset(all, k),
        offset(all, k) + (#[trigger] all[k]).len(),
    ) == all[k] by {
        lemma_offset_of_front(all, k);
        if k < n {
            assert(all[k] == blocks[k]);
            lemma_offset_grows(blocks, 0, k);
            lemma_offset_grows(blocks, k + 1, n);
            assert((whole + b).subrange(offset(all, k), offset(all, k) + all[k].len())
                =~= whole.subrange(offset(blocks, k), offset(blocks, k) + blocks[k].len()));
        } else {
            assert((whole + b).subrange(offset(all, k), offset(all, k) + all[k].len()) =~= b);
        }
    }
}

proof fn lemma_flatten_is_end_to_end<T>(blocks: Seq<Seq<T>>)
    ensures
        end_to_end(blocks.flatten(), blocks),
    decreases blocks.len(),
{
    blocks.lemma_flatten_and_flatten_alt_are_equivalent();
    if blocks.len() > 0 {
        let front = blocks.drop_last();
        lemma_flatten_is_end_to_end(front);
        front.lemma_flatten_and_flatten_alt_are_equivalent();
        lemma_end_to_end_push(front.flatten(), front, blocks.last());
        assert(front.push(blocks.last()) =~= blocks);
    }
}

/// All of a node's data is its blocks one behind the other.
pub proof fn lemma_data_is_all_its_blocks(
    pff: &Pff,
    bid: u64,
    blocks: Vec<Vec<u8>>,
    r: Result<Vec<u8>, ost::Error>,
)
    requires
        call_ensures(Pff::data_blocks, (pff, bid), Ok(blocks)),
        call_ensures(Pff::data_flat, (pff, bid), r),
    ensures
        r matches Ok(v) && end_to_end(v@, bytes::each(blocks@)),
{
    lemma_flatten_is_end_to_end(bytes::each(blocks@));
}

/// The property names a subnode, and these are the blocks of that subnode's data.
pub open spec fn kept_in_subnode(pc: PcV, p: Prop, blocks: Seq<Seq<u8>>) -> bool {
    &&& p.raw % 32 != 0
    &&& pc.subs.contains_key(p.raw)
    &&& pc.pff.data_blocks(pc.subs[p.raw].0) == Ok::<Seq<Seq<u8>>, ErrorV>(blocks)
}

/// A value kept in a subnode is as long as all the blocks of the subnode's data
/// together, and each block stands in it right behind those before it.
pub proof fn lemma_subnode_value_is_whole(
    pc: &Pc,
    id: u16,
    p: Prop,
    blocks: Seq<Seq<u8>>,
    r: Option<Vec<u8>>,
)
    requires
        pc@.prop(id) == Some(p),
        kept_in_subnode(pc@, p, blocks),
        call_ensures(Pc::bytes, (pc, id), r),
    ensures
        r matches Some(v) && end_to_end(v@, blocks),
{
    lemma_flatten_is_end_to_end(blocks);
}

/// A text kept in a subnode is read from all the blocks of the subnode's data: where
/// these are, one behind the other, the UTF-16 of a text or, by the property's type,
/// its UTF-8, that text is read, whole.
pub proof fn lemma_subnode_text_is_whole(
    pc: &Pc,
    id: u16,
    p: Prop,
    blocks: Seq<Seq<u8>>,
    whole: Seq<u8>,
    s: Seq<char>,
    r: Option<String>,
)
    requires
        pc@.prop(id) == Some(p),
        kept_in_subnode(pc@, p, blocks),
        end_to_end(whole, blocks),
        p.ptype == 0x001F ==> whole == encoding::utf16_bytes(s),
        p.ptype == 0x001E || p.ptype == 0x0102 ==> whole == vstd::utf8::encode_utf8(s),
        p.ptype == 0x001F || p.ptype == 0x001E || p.ptype == 0x0102,
        call_ensures(Pc::text, (pc, id), r),
    ensures
        r matches Some(t) && t@ == s,
{
    lemma_flatten_is_end_to_end(blocks);
    lemma_end_to_end_is_one(whole, blocks.flatten(), blocks);
    encoding::lemma_string_value_of(s, p.ptype, whole);
}

/// There is one way to put blocks end to end.
proof fn lemma_end_to_end_is_one<T>(a: Seq<T>, b: Seq<T>, blocks: Seq<Seq<T>>)
    requires
        end_to_end(a, blocks),
        end_to_end(b, blocks),
    ensures
        a == b,
    decreases blocks.len(),
{
    if blocks.len() == 0 {
        assert(a =~= b);
    } else {
        let n = blocks.len() - 1;
        let front = blocks.drop_last();
        let cut = offset(blocks, n);
        lemma_offset_grows(blocks, 0, n);
        lemma_offset_of_front(blocks, n);
        assert forall|x: Seq<T>| #[trigger] end_to_end(x, blocks) implies end_to_end(
            x.take(cut),
            front,
        ) by {
            assert forall|k: int| 0 <= k < front.len() implies x.take(cut).subrange(
                offset(front, k),
                offset(front, k) + (#[trigger] front[k]).len(),
            ) == front[k] by {
                lemma_offset_of_front(blocks, k);
                lemma_offset_of_front(blocks, k + 1);
                lemma_offset_grows(blocks, 0, k);
                lemma_offset_grows(blocks, k + 1, n);
                assert(front[k] == blocks[k]);
                assert(x.take(cut).subrange(offset(front, k), offset(front, k) + front[k].len())
                    =~= x.subrange(offset(blocks, k), offset(blocks, k) + blocks[k].len()));
            }
        }
        lemma_end_to_end_is_one(a.take(cut), b.take(cut), front);
        assert(a.subrange(cut, cut + blocks[n].len()) == blocks[n]);
        assert(b.subrange(cut, cut + blocks[n].len()) == blocks[n]);
        assert(a =~= a.take(cut) + a.subrange(cut, cut + blocks[n].len()));
        assert(b =~= b.take(cut) + b.subrange(cut, cut + blocks[n].len()));
    }
}

/// The property context of an attachment, which stands in a subnode of its message.
pub open spec fn attachment_context(pff: PffV, msg: u32, att: u32) -> Option<PcV> {
    match pff.node(msg) {
        Ok(node) => match pff.subnodes(node.bid_sub) {
            Ok(subs) => if subs.contains_key(att) {
                ltp::pc_at(pff, subs[att].0, subs[att].1).ok()
            } else {
                None
            },
            Err(_) => None,
        },
        Err(_) => None,
    }
}

/// An attachment is read whole: where its payload is kept in a subnode, the bytes
/// are all the blocks of that subnode's data one behind the other.
pub proof fn lemma_attachment_is_read_whole(
    store: &Store,
    msg: u32,
    att: u32,
    pc: PcV,
    p: Prop,
    blocks: Seq<Seq<u8>>,
    r: Result<Vec<u8>, ost::Error>,
)
    requires
        call_ensures(Store::attachment_bytes, (store, msg, att), r),
        attachment_context(store.pff@, msg, att) == Some(pc),
        pc.prop(0x3701) == Some(p),
        p.ptype == 0x0102,
        kept_in_subnode(pc, p, blocks),
    ensures
        r matches Ok(v) && end_to_end(v@, blocks),
{
    lemma_flatten_is_end_to_end(blocks);
}

/// The length that an attachment is listed with is that of all the blocks of its
/// payload together.
pub proof fn lemma_listed_length_is_of_all_blocks(
    store: &Store,
    msg: u32,
    i: int,
    list: Vec<store::Attachment>,
    pc: PcV,
    p: Prop,
    blocks: Seq<Seq<u8>>,
)
    requires
        call_ensures(Store::attachments, (store, msg), Ok(list)),
        0 <= i < list@.len(),
        attachment_context(store.pff@, msg, list@[i].nid) == Some(pc),
        pc.prop(0x3701) == Some(p),
        p.ptype == 0x0102,
        kept_in_subnode(pc, p, blocks),
    ensures
        list@[i].data_len matches Some(n) && n == offset(blocks, blocks.len() as int),
{
    lemma_flatten_is_end_to_end(blocks);
    let pff = store.pff@;
    let node = pff.node(msg)->Ok_0;
    let subs = pff.subnodes(node.bid_sub)->Ok_0;
    let told = store::attachments_of(pff, msg)->Ok_0;
    assert(told == views::views(list@));
    assert(told.len() == list@.len());
    assert(told[i] == list@[i]@);
    assert(subs.contains_key(0x671));
    let tc = ltp::tc_at(pff, subs[0x671u32].0, subs[0x671u32].1)->Ok_0;
    assert(told[i] == store::row_attachment(pff, subs, tc, tc.rows[i]));
    assert(store::payload_len(pc) == Some(blocks.flatten().len()));
}

proof fn lemma_text_of(
    pc: PcV,
    id: u16,
    p: Prop,
    blocks: Seq<Seq<u8>>,
    whole: Seq<u8>,
    s: Seq<char>,
)
    requires
        pc.prop(id) == Some(p),
        kept_in_subnode(pc, p, blocks),
        end_to_end(whole, blocks),
        p.ptype == 0x001F && whole == encoding::utf16_bytes(s) || (p.ptype == 0x001E || p.ptype
            == 0x0102) && whole == vstd::utf8::encode_utf8(s),
    ensures
        pc.text(id) == Some(s),
{
    lemma_flatten_is_end_to_end(blocks);
    lemma_end_to_end_is_one(whole, blocks.flatten(), blocks);
    encoding::lemma_string_value_of(s, p.ptype, whole);
}

proof fn lemma_bodies_of(store: &Store, nid: u32, pc: PcV, m: store::Message)
    requires
        call_ensures(Store::message, (store, nid), Ok(m)),
        ltp::pc_of(store.pff@, nid) == Ok::<PcV, ErrorV>(pc),
    ensures
        crate::text::opt_text(m.body_plain) == pc.text(0x1000),
        crate::text::opt_text(m.body_html) == pc.text(0x1013),
{
    assert(m@.body_plain == pc.text(0x1000));
    assert(m@.body_html == pc.text(0x1013));
}

/// A body is read whole: where it is kept in a subnode and all the blocks of that
/// subnode's data, one behind the other, are the UTF-16 of a text, that text is the
/// body. (0x1000 is the plain body, 0x1013 the HTML one.)
pub proof fn lemma_body_is_read_whole(
    store: &Store,
    nid: u32,
    pc: PcV,
    p: Prop,
    blocks: Seq<Seq<u8>>,
    whole: Seq<u8>,
    s: Seq<char>,
    r: Result<store::Message, ost::Error>,
)
    requires
        call_ensures(Store::message, (store, nid), r),
        ltp::pc_of(store.pff@, nid) == Ok::<PcV, ErrorV>(pc),
        kept_in_subnode(pc, p, blocks),
        end_to_end(whole, blocks),
        p.ptype == 0x001F && whole == encoding::utf16_bytes(s) || (p.ptype == 0x001E || p.ptype
            == 0x0102) && whole == vstd::utf8::encode_utf8(s),
    ensures
        r matches Ok(m) ==> (pc.prop(0x1000) == Some(p) ==> (m.body_plain matches Some(t) && t@
            == s)) && (pc.prop(0x1013) == Some(p) ==> (m.body_html matches Some(t) && t@ == s)),
{
    if let Ok(m) = r {
        lemma_bodies_of(store, nid, pc, m);
        if pc.prop(0x1000) == Some(p) {
            lemma_text_of(pc, 0x1000, p, blocks, whole, s);
        }
        if pc.prop(0x1013) == Some(p) {
            lemma_text_of(pc, 0x1013, p, blocks, whole, s);
        }
    }
}

} // verus!
