//! Laws of a PFF file: where in it nodes, blocks and tables stand.

use vstd::prelude::*;
use std::collections::HashMap;
use crate::bytes;
use crate::errors::ErrorV;
use crate::laws::heap::{lemma_widths, number_at};
use crate::laws::ost::{end_to_end, lemma_end_to_end_push};
use crate::maps;
use crate::ost;
use crate::ost::ltp;
use crate::ost::ltp::{Hn, Pc, Prop, Tc, TcCol};
use crate::ost::ndb;
use crate::ost::ndb::{BlockRef, Geom, LeafPage, Node, Pff, PffV};

verus! {

broadcast use vstd::std_specs::hash::group_hash_axioms;

/// A block is what stands in the file where it is filed, as many bytes as are filed;
/// or what that inflates to, where it begins like a compressed stream and inflates
/// to something. The lowest bit of its number does not count.
pub proof fn lemma_block_is_in_the_file(
    pff: &Pff,
    bid: u64,
    raw: &[u8],
    zlib: bool,
    inflated: Option<Vec<u8>>,
    r: Result<Vec<u8>, ost::Error>,
)
    requires
        pff.map@.len() <= u64::MAX,
        pff.bbt@.contains_key((bid - bid % 2) as u64) ==> {
            let e = pff.bbt@[(bid - bid % 2) as u64];
            e.ib + e.cb <= pff.map@.len() ==> raw@ == pff.map@.subrange(e.ib as int, e.ib + e.cb)
        },
        call_ensures(ndb::looks_zlib, (raw,), zlib),
        zlib ==> call_ensures(ndb::inflate, (raw,), inflated),
        call_ensures(Pff::block, (pff, bid), r),
    ensures
        zlib == (raw@.len() >= 2 && raw@[0] as int % 16 == 8 && (256 * raw@[0] + raw@[1]) % 31 == 0),
        r is Ok <==> pff.bbt@.contains_key((bid - bid % 2) as u64) && pff.bbt@[(bid - bid
            % 2) as u64].ib + pff.bbt@[(bid - bid % 2) as u64].cb <= pff.map@.len(),
        r matches Ok(v) ==> if zlib && inflated is Some {
            v@ == inflated->Some_0@ && v@.len() > 0
        } else {
            v@ == raw@
        },
{
}

/// A node is found under its own number.
pub proof fn lemma_node_is_filed(pff: &Pff, nid: u32, r: Result<Node, ost::Error>)
    requires
        call_ensures(Pff::node, (pff, nid), r),
    ensures
        match r {
            Ok(n) => pff.nbt@.contains_key(nid) && n == pff.nbt@[nid],
            Err(e) => !pff.nbt@.contains_key(nid) && e is NotFound,
        },
{
}

/// The data of a block whose number is not marked as a tree's is that block.
pub proof fn lemma_plain_block_is_the_data(
    pff: &Pff,
    bid: u64,
    b: Result<Vec<u8>, ost::Error>,
    r: Result<Vec<Vec<u8>>, ost::Error>,
)
    requires
        (bid as int / 2) % 2 == 0,
        call_ensures(Pff::block, (pff, bid), b),
        call_ensures(Pff::data_blocks, (pff, bid), r),
    ensures
        match b {
            Ok(v) => r matches Ok(blocks) && blocks@.len() == 1 && blocks@[0]@ == v@,
            Err(_) => r is Err,
        },
{
    if let (Ok(v), Ok(blocks)) = (b, r) {
        let held = bytes::each(blocks@);
        assert(held.len() == blocks@.len());
        assert(held[0] == blocks@[0]@);
    }
}

proof fn lemma_less_deep(p: PffV, bid: u64, depth: nat)
    requires
        p.data_tree(bid, depth + 1) is Ok,
    ensures
        p.data_tree(bid, depth) == p.data_tree(bid, depth + 1),
    decreases 5 - depth, 1int, 0int,
{
    if let Ok(b) = p.block(bid) {
        if ndb::internal_bid(bid) && depth < 4 {
            lemma_children_less_deep(p, b, bytes::le16(b, 2), depth);
        }
    }
}

proof fn lemma_children_less_deep(p: PffV, b: Seq<u8>, k: int, depth: nat)
    requires
        depth < 4,
        p.data_children(b, k, depth + 1) is Ok,
    ensures
        p.data_children(b, k, depth) == p.data_children(b, k, depth + 1),
    decreases 5 - depth, 0int, k,
{
    if k > 0 {
        lemma_children_less_deep(p, b, k - 1, depth);
        lemma_less_deep(p, bytes::le64(b, 8 + (k - 1) * 8) as u64, depth + 1);
    }
}

/// Child `i` that a tree block names.
pub open spec fn child(b: Seq<u8>, i: int) -> u64 {
    number_at(b, 8 + 8 * i, 8) as u64
}

proof fn lemma_child(b: Seq<u8>, i: int)
    ensures
        child(b, i) == bytes::le64(b, 8 + i * 8) as u64,
{
    lemma_widths(b, 8 + i * 8);
}

proof fn lemma_children_are_read(p: PffV, b: Seq<u8>, k: int, i: int)
    requires
        0 <= i < k,
        p.data_children(b, k, 0) is Ok,
    ensures
        p.data_blocks(child(b, i)) is Ok,
    decreases k,
{
    lemma_child(b, k - 1);
    lemma_less_deep(p, child(b, k - 1), 0);
    if i < k - 1 {
        lemma_children_are_read(p, b, k - 1, i);
    }
}

proof fn lemma_children_end_to_end(p: PffV, b: Seq<u8>, k: int)
    requires
        0 <= k,
        p.data_children(b, k, 0) is Ok,
    ensures
        end_to_end(
            p.data_children(b, k, 0)->Ok_0,
            Seq::new(k as nat, |i: int| p.data_blocks(child(b, i))->Ok_0),
        ),
    decreases k,
{
    let parts = Seq::new(k as nat, |i: int| p.data_blocks(child(b, i))->Ok_0);
    if k > 0 {
        let front = Seq::new((k - 1) as nat, |i: int| p.data_blocks(child(b, i))->Ok_0);
        lemma_children_end_to_end(p, b, k - 1);
        lemma_child(b, k - 1);
        lemma_less_deep(p, child(b, k - 1), 0);
        lemma_end_to_end_push(p.data_children(b, k - 1, 0)->Ok_0, front, parts.last());
        assert(front.push(parts.last()) =~= parts);
    } else {
        assert(p.data_children(b, k, 0)->Ok_0 =~= Seq::<Seq<u8>>::empty());
    }
}

/// The data of a tree is the data of its children, one behind the other, in the order
/// in which the tree names them: eight bytes each from the eighth on, as many as its
/// third and fourth byte say.
pub proof fn lemma_tree_is_its_children(
    pff: &Pff,
    bid: u64,
    b: Vec<u8>,
    parts: Seq<Result<Vec<Vec<u8>>, ost::Error>>,
    blocks: Vec<Vec<u8>>,
)
    requires
        (bid as int / 2) % 2 == 1,
        call_ensures(Pff::block, (pff, bid), Ok::<Vec<u8>, ost::Error>(b)),
        call_ensures(Pff::data_blocks, (pff, bid), Ok::<Vec<Vec<u8>>, ost::Error>(blocks)),
        parts.len() == number_at(b@, 2, 2),
        forall|i: int|
            0 <= i < parts.len() ==> call_ensures(
                Pff::data_blocks,
                (pff, child(b@, i)),
                #[trigger] parts[i],
            ),
    ensures
        b@.len() >= 8 + 8 * parts.len() && b@[0] == 1,
        forall|i: int| 0 <= i < parts.len() ==> (#[trigger] parts[i]) is Ok,
        end_to_end(
            bytes::each(blocks@),
            Seq::new(parts.len(), |i: int| bytes::each(parts[i]->Ok_0@)),
        ),
{
    let p = pff@;
    lemma_widths(b@, 2);
    let want = Seq::new(parts.len(), |i: int| bytes::each(parts[i]->Ok_0@));
    let k = parts.len() as int;
    assert forall|i: int| 0 <= i < parts.len() implies (#[trigger] parts[i]) is Ok && want[i]
        == p.data_blocks(child(b@, i))->Ok_0 by {
        let one = parts[i];
        assert(call_ensures(Pff::data_blocks, (pff, child(b@, i)), one));
        lemma_children_are_read(p, b@, k, i);
    }
    lemma_children_end_to_end(p, b@, k);
    assert(want =~= Seq::new(k as nat, |i: int| p.data_blocks(child(b@, i))->Ok_0));
}

/// Entry `i` of a subnode block files subnode `nid` with its data and its own
/// subnodes: eight bytes each, one behind the other, from the eighth byte on.
pub open spec fn files_subnode(b: Seq<u8>, i: int, nid: u32, kept: (u64, u64)) -> bool {
    &&& nid == number_at(b, 8 + 24 * i, 4)
    &&& kept.0 == number_at(b, 8 + 24 * i + 8, 8)
    &&& kept.1 == number_at(b, 8 + 24 * i + 16, 8)
}

/// The subnodes in a block of subnodes are its entries; of those for one number the
/// last counts.
pub proof fn lemma_subnodes_are_the_entries(
    pff: &Pff,
    bid: u64,
    b: Vec<u8>,
    subs: HashMap<u32, (u64, u64)>,
    nid: u32,
)
    requires
        bid != 0,
        call_ensures(Pff::block, (pff, bid), Ok::<Vec<u8>, ost::Error>(b)),
        call_ensures(Pff::subnodes, (pff, bid), Ok::<HashMap<u32, (u64, u64)>, ost::Error>(subs)),
        b@[1] == 0,
    ensures
        b@.len() >= 8 + 24 * number_at(b@, 2, 2) && b@[0] == 2,
        subs@.contains_key(nid) <==> exists|i: int|
            0 <= i < number_at(b@, 2, 2) && #[trigger] number_at(b@, 8 + 24 * i, 4) == nid,
        subs@.contains_key(nid) ==> exists|i: int|
            0 <= i < number_at(b@, 2, 2) && #[trigger] files_subnode(b@, i, nid, subs@[nid]),
        forall|i: int|
            0 <= i < number_at(b@, 2, 2) && #[trigger] number_at(b@, 8 + 24 * i, 4) == nid && (
            forall|j: int|
                i < j < number_at(b@, 2, 2) ==> #[trigger] number_at(b@, 8 + 24 * j, 4) != nid)
                ==> files_subnode(b@, i, nid, subs@[nid]),
{
    lemma_widths(b@, 2);
    let n = number_at(b@, 2, 2);
    let entries = ndb::sl_entries(b@, n as nat);
    maps::lemma_last_wins_is_last(entries, nid);
    assert forall|i: int| 0 <= i < n implies (#[trigger] entries[i]).0 == number_at(
        b@,
        8 + 24 * i,
        4,
    ) && files_subnode(b@, i, entries[i].0, entries[i].1) by {
        lemma_widths(b@, 8 + i * 24);
        lemma_widths(b@, 8 + i * 24 + 8);
        lemma_widths(b@, 8 + i * 24 + 16);
    }
    assert forall|i: int| 0 <= i < n && #[trigger] number_at(b@, 8 + 24 * i, 4) == nid implies (
    #[trigger] entries[i]).0 == nid by {}
    if subs@.contains_key(nid) {
        let i = choose|i: int|
            0 <= i < entries.len() && #[trigger] entries[i] == (nid, subs@[nid]);
        assert(entries[i].0 == nid);
        assert(number_at(b@, 8 + 24 * i, 4) == nid);
        assert(files_subnode(b@, i, nid, subs@[nid]));
    }
    if exists|i: int| 0 <= i < n && #[trigger] number_at(b@, 8 + 24 * i, 4) == nid {
        let i = choose|i: int| 0 <= i < n && #[trigger] number_at(b@, 8 + 24 * i, 4) == nid;
        assert(entries[i].0 == nid);
    }
    assert forall|i: int|
        0 <= i < n && #[trigger] number_at(b@, 8 + 24 * i, 4) == nid && (forall|j: int|
            i < j < n ==> #[trigger] number_at(b@, 8 + 24 * j, 4) != nid) implies files_subnode(
        b@,
        i,
        nid,
        subs@[nid],
    ) by {
        assert(entries[i].0 == nid);
        assert forall|j: int| i < j < entries.len() implies (#[trigger] entries[j]).0 != nid by {
            assert(number_at(b@, 8 + 24 * j, 4) != nid);
        }
    }
}

/// Where a number is not given there are no subnodes.
pub proof fn lemma_no_subnodes(pff: &Pff, r: Result<HashMap<u32, (u64, u64)>, ost::Error>)
    requires
        call_ensures(Pff::subnodes, (pff, 0u64), r),
    ensures
        r matches Ok(subs) && forall|nid: u32| !#[trigger] subs@.contains_key(nid),
{
}

/// What a property names is an item of the heap where its lowest five bits are clear,
/// all the data of a subnode where they are not, and nothing where it is zero.
pub proof fn lemma_value_is_where_it_is_named(
    pc: &Pc,
    id: u16,
    p: Prop,
    item: Result<&[u8], ost::Error>,
    data: Result<Vec<u8>, ost::Error>,
    r: Option<Vec<u8>>,
)
    requires
        pc.wf(),
        call_ensures(Pc::prop, (pc, id), Some(p)),
        p.raw != 0 && p.raw % 32 == 0 ==> call_ensures(Hn::item, (&pc.hn, p.raw), item),
        p.raw % 32 != 0 && pc.subs@.contains_key(p.raw) ==> call_ensures(
            Pff::data_flat,
            (pc.pff, pc.subs@[p.raw].0),
            data,
        ),
        call_ensures(Pc::bytes, (pc, id), r),
    ensures
        p.raw == 0 ==> r is None,
        p.raw != 0 && p.raw % 32 == 0 ==> match item {
            Ok(b) => r matches Some(v) && v@ == b@,
            Err(_) => r is None,
        },
        p.raw % 32 != 0 && !pc.subs@.contains_key(p.raw) ==> r is None,
        p.raw % 32 != 0 && pc.subs@.contains_key(p.raw) ==> match data {
            Ok(b) => r matches Some(v) && v@ == b@,
            Err(_) => r is None,
        },
{
}

/// What a cell names is found as what a property names.
pub proof fn lemma_cell_value_is_where_it_is_named(
    tc: &Tc,
    row: &[u8],
    id: u16,
    c: Option<TcCol>,
    there: bool,
    hnid: u32,
    item: Result<&[u8], ost::Error>,
    data: Result<Vec<u8>, ost::Error>,
    r: Option<Vec<u8>>,
)
    requires
        tc.wf(),
        call_ensures(Tc::col, (tc, id), c),
        c is Some ==> call_ensures(Tc::has_cell, (tc, row, &c->Some_0), there),
        c is Some && c->Some_0.ib + 4 <= row@.len() ==> hnid == number_at(
            row@,
            c->Some_0.ib as int,
            4,
        ),
        hnid != 0 && hnid % 32 == 0 ==> call_ensures(Hn::item, (&tc.hn, hnid), item),
        hnid % 32 != 0 && tc.subs@.contains_key(hnid) ==> call_ensures(
            Pff::data_flat,
            (tc.pff, tc.subs@[hnid].0),
            data,
        ),
        call_ensures(Tc::bytes, (tc, row, id), r),
    ensures
        match c {
            Some(col) if there && col.ib + 4 <= row@.len() => {
                &&& hnid == 0 ==> r is None
                &&& hnid != 0 && hnid % 32 == 0 ==> match item {
                    Ok(b) => r matches Some(v) && v@ == b@,
                    Err(_) => r is None,
                }
                &&& hnid % 32 != 0 && !tc.subs@.contains_key(hnid) ==> r is None
                &&& hnid % 32 != 0 && tc.subs@.contains_key(hnid) ==> match data {
                    Ok(b) => r matches Some(v) && v@ == b@,
                    Err(_) => r is None,
                }
            },
            _ => r is None,
        },
{
    if let Some(col) = c {
        lemma_widths(row@, col.ib as int);
    }
}

/// How many rows of `size` bytes fit in the blocks before block `j`. A row never goes
/// on in the next block.
pub open spec fn rows_before(blocks: Seq<Vec<u8>>, size: int, j: int) -> int
    decreases j,
{
    if j <= 0 {
        0
    } else {
        rows_before(blocks, size, j - 1) + blocks[j - 1]@.len() as int / size
    }
}

/// `rows` are the blocks cut into rows of `size` bytes, in order.
pub open spec fn cut_into_rows(rows: Seq<Vec<u8>>, blocks: Seq<Vec<u8>>, size: int) -> bool {
    &&& rows.len() == rows_before(blocks, size, blocks.len() as int)
    &&& forall|j: int, i: int|
        0 <= j < blocks.len() && 0 <= i < blocks[j]@.len() as int / size
            ==> #[trigger] row_stands(rows, blocks, size, j, i)
}

/// Row `i` of block `j` stands behind all rows of the blocks before.
pub open spec fn row_stands(
    rows: Seq<Vec<u8>>,
    blocks: Seq<Vec<u8>>,
    size: int,
    j: int,
    i: int,
) -> bool {
    let at = rows_before(blocks, size, j) + i;
    0 <= at < rows.len() && rows[at]@ == blocks[j]@.subrange(i * size, i * size + size)
}

proof fn lemma_rows_before_of_front(blocks: Seq<Vec<u8>>, size: int, j: int)
    requires
        size > 0,
        0 <= j < blocks.len(),
    ensures
        rows_before(blocks.drop_last(), size, j) == rows_before(blocks, size, j),
        rows_before(blocks, size, j) >= 0,
    decreases j,
{
    if j > 0 {
        lemma_rows_before_of_front(blocks, size, j - 1);
        let n = blocks[j - 1]@.len() as int;
        assert(n / size >= 0) by (nonlinear_arith)
            requires
                n >= 0,
                size > 0,
        ;
    }
}

proof fn lemma_matrix_len(blocks: Seq<Vec<u8>>, size: int)
    requires
        size > 0,
    ensures
        ltp::matrix_rows(bytes::each(blocks), size).len() == rows_before(
            blocks,
            size,
            blocks.len() as int,
        ),
    decreases blocks.len(),
{
    let seen = bytes::each(blocks);
    if blocks.len() > 0 {
        let front = blocks.drop_last();
        let last = blocks.len() - 1;
        assert(seen.drop_last() =~= bytes::each(front));
        assert(seen.last() == blocks[last]@);
        lemma_matrix_len(front, size);
        lemma_rows_before_of_front(blocks, size, last);
        let n = blocks[last]@.len() as int;
        assert(n / size >= 0) by (nonlinear_arith)
            requires
                n >= 0,
                size > 0,
        ;
    }
}

proof fn lemma_matrix_row(blocks: Seq<Vec<u8>>, size: int, j: int, i: int)
    requires
        size > 0,
        0 <= j < blocks.len(),
        0 <= i < blocks[j]@.len() as int / size,
    ensures
        ({
            let all = ltp::matrix_rows(bytes::each(blocks), size);
            let at = rows_before(blocks, size, j) + i;
            0 <= at < all.len() && all[at] == blocks[j]@.subrange(i * size, i * size + size)
        }),
    decreases blocks.len(),
{
    let seen = bytes::each(blocks);
    let front = blocks.drop_last();
    let last = blocks.len() - 1;
    let before = ltp::matrix_rows(bytes::each(front), size);
    assert(seen.drop_last() =~= bytes::each(front));
    assert(seen.last() == blocks[last]@);
    lemma_matrix_len(front, size);
    lemma_rows_before_of_front(blocks, size, last);
    lemma_rows_before_of_front(blocks, size, j);
    let n = blocks[last]@.len() as int;
    assert(n / size >= 0) by (nonlinear_arith)
        requires
            n >= 0,
            size > 0,
    ;
    let tail = ltp::block_rows(blocks[last]@, size, (n / size) as nat);
    let all = ltp::matrix_rows(seen, size);
    assert(all == before + tail);
    if j < last {
        assert(front[j] == blocks[j]);
        lemma_matrix_row(front, size, j, i);
    } else {
        assert(all[before.len() + i] == tail[i]);
    }
}

/// Column `i` of a table's description: a tag of four bytes, an offset of two, a width
/// and a bit, from the twenty-second byte on.
pub open spec fn describes_column(info: Seq<u8>, i: int, c: TcCol) -> bool {
    &&& c.tag == number_at(info, 22 + 8 * i, 4)
    &&& c.ib == number_at(info, 22 + 8 * i + 4, 2)
    &&& c.cb == info[22 + 8 * i + 6]
    &&& c.i_bit == info[22 + 8 * i + 7]
}

/// A table is what its description says: the columns in their order, how long a row
/// is and where its bitmap begins. Its rows are cut from the item or the subnode that
/// the description names.
pub proof fn lemma_table_is_as_described<'a>(
    pff: &'a Pff<'a>,
    bid_data: u64,
    bid_sub: u64,
    blocks: Vec<Vec<u8>>,
    hn: Hn,
    info: &[u8],
    matrix: Vec<Vec<u8>>,
    item: &[u8],
    subs: HashMap<u32, (u64, u64)>,
    tc: Tc<'a>,
)
    requires
        pff.wf(),
        call_ensures(Pff::data_blocks, (pff, bid_data), Ok::<Vec<Vec<u8>>, ost::Error>(blocks)),
        call_ensures(Hn::parse, (blocks, pff.geom.hid_block_shift), Ok::<Hn, ost::Error>(hn)),
        call_ensures(Hn::item, (&hn, hn.hid_user_root), Ok::<&[u8], ost::Error>(info)),
        call_ensures(
            Pff::subnodes,
            (pff, bid_sub),
            Ok::<HashMap<u32, (u64, u64)>, ost::Error>(subs),
        ),
        ({
            let rows = number_at(info@, 14, 4) as u32;
            if rows % 32 == 0 {
                rows != 0 ==> call_ensures(Hn::item, (&hn, rows), Ok::<&[u8], ost::Error>(item))
                    && matrix@.len() == 1 && matrix@[0]@ == item@
            } else {
                subs@.contains_key(rows) ==> call_ensures(
                    Pff::data_blocks,
                    (pff, subs@[rows].0),
                    Ok::<Vec<Vec<u8>>, ost::Error>(matrix),
                )
            }
        }),
        call_ensures(Tc::open_at, (pff, bid_data, bid_sub), Ok::<Tc<'a>, ost::Error>(tc)),
    ensures
        hn.client_sig == 0x7C,
        info@.len() >= 22 && info@[0] == 0x7C,
        tc.ceb_start == number_at(info@, 6, 2),
        tc.row_size == number_at(info@, 8, 2),
        tc.cols@.len() == (if info@[1] <= (info@.len() - 22) / 8 {
            info@[1] as int
        } else {
            (info@.len() - 22) / 8
        }),
        forall|i: int|
            0 <= i < tc.cols@.len() ==> describes_column(info@, i, #[trigger] tc.cols@[i]),
        number_at(info@, 14, 4) == 0 || tc.row_size == 0 ==> tc.rows@.len() == 0,
        number_at(info@, 14, 4) != 0 && tc.row_size != 0 ==> cut_into_rows(
            tc.rows@,
            matrix@,
            tc.row_size as int,
        ),
{
    lemma_widths(info@, 6);
    lemma_widths(info@, 8);
    lemma_widths(info@, 14);
    let size = number_at(info@, 8, 2);
    let hnid = number_at(info@, 14, 4) as u32;
    assert(ltp::columns(info@) == tc.cols@);
    assert forall|i: int| 0 <= i < tc.cols@.len() implies describes_column(
        info@,
        i,
        #[trigger] tc.cols@[i],
    ) by {
        lemma_widths(info@, 22 + i * 8);
        lemma_widths(info@, 22 + i * 8 + 4);
        assert(tc.cols@[i] == ltp::columns(info@)[i]);
    }
    let rows = bytes::each(tc.rows@);
    assert(rows.len() == tc.rows@.len());
    assert(ltp::matrix_rows(seq![], size) =~= seq![]);
    if hnid != 0 && size != 0 {
        let seen = bytes::each(matrix@);
        if hnid % 32 == 0 {
            assert(seen =~= seq![item@]);
        }
        assert(rows == ltp::matrix_rows(seen, size));
        lemma_matrix_len(matrix@, size);
        assert forall|j: int, i: int|
            0 <= j < matrix@.len() && 0 <= i < matrix@[j]@.len() as int
                / size implies #[trigger] row_stands(tc.rows@, matrix@, size, j, i) by {
            let at = rows_before(matrix@, size, j) + i;
            lemma_matrix_row(matrix@, size, j, i);
            assert(rows[at] == tc.rows@[at]@);
        }
    }
}

/// A file is opened as the version that its header names; pages, and the numbers that
/// name items in a heap, are divided as that version does.
pub proof fn lemma_header_is_read<'a>(map: &'a [u8], r: Result<Pff<'a>, ost::Error>)
    requires
        call_ensures(Pff::from_map, (map,), r),
    ensures
        r matches Ok(pff) ==> {
            &&& map@.len() >= 0x210
            &&& map@[0] == 0x21 && map@[1] == 0x42 && map@[2] == 0x44 && map@[3] == 0x4E
            &&& number_at(map@, 8, 2) == 0x4D53 || number_at(map@, 8, 2) == 0x4F53
            &&& map@[0x201] == 0
            &&& pff.map@ == map@
            &&& pff.ver == number_at(map@, 10, 2)
            &&& pff.ver == 23 || pff.ver == 36
            &&& pff.ver == 23 ==> pff.geom.page == 512 && pff.geom.bt_hdr == 488
                && !pff.geom.counts_u16 && pff.geom.hid_block_shift == 16
            &&& pff.ver == 36 ==> pff.geom.page == 4096 && pff.geom.bt_hdr == 4056
                && pff.geom.counts_u16 && pff.geom.hid_block_shift == 19
        },
        map@.len() >= 0x210 && (number_at(map@, 10, 2) == 14 || number_at(map@, 10, 2) == 15)
            && map@[0] == 0x21 && map@[1] == 0x42 && map@[2] == 0x44 && map@[3] == 0x4E && (
        number_at(map@, 8, 2) == 0x4D53 || number_at(map@, 8, 2) == 0x4F53) ==> r matches Err(
            ost::Error::Unsupported(_),
        ),
{
    lemma_widths(map@, 8);
    lemma_widths(map@, 10);
}

/// Where a page of entries begins and ends: it has so many entries of so many bytes.
pub open spec fn leaf_page(map: Seq<u8>, ver: u16, at: int, count: int, stride: int) -> bool {
    if ver == 23 {
        count == map[at + 488] && stride == map[at + 490] && map[at + 491] == 0
    } else {
        count == number_at(map, at + 4056, 2) && stride == map[at + 4060] && map[at + 4061] == 0
    }
}

/// A node stands at `o` in the file: its number, its data, its subnodes and its
/// parent.
pub open spec fn node_at(map: Seq<u8>, o: int, n: Node) -> bool {
    &&& n.nid == number_at(map, o, 4)
    &&& n.bid_data == number_at(map, o + 8, 8)
    &&& n.bid_sub == number_at(map, o + 16, 8)
    &&& n.nid_parent == number_at(map, o + 24, 4)
}

/// A block is filed at `o` in the file: its number, where it stands and how long it
/// is.
pub open spec fn block_at(map: Seq<u8>, o: int, bid: u64, e: BlockRef) -> bool {
    &&& bid == number_at(map, o, 8) - number_at(map, o, 8) % 2
    &&& e.ib == number_at(map, o + 8, 8)
    &&& e.cb == number_at(map, o + 16, 2)
    &&& e.cref == number_at(map, o + 18, 2)
}

proof fn lemma_node_entry(map: Seq<u8>, o: int)
    ensures
        node_at(map, o, ndb::nbt_entry(map, o).1),
        ndb::nbt_entry(map, o).0 == number_at(map, o, 4),
{
    lemma_widths(map, o);
    lemma_widths(map, o + 8);
    lemma_widths(map, o + 16);
    lemma_widths(map, o + 24);
}

proof fn lemma_block_entry(map: Seq<u8>, o: int)
    ensures
        block_at(map, o, ndb::bbt_entry(map, o).0, ndb::bbt_entry(map, o).1),
{
    lemma_widths(map, o);
    lemma_widths(map, o + 8);
    lemma_widths(map, o + 16);
    lemma_widths(map, o + 18);
}

/// Where the tree of nodes is one page, at the offset in the header's 0xE0, the nodes
/// are its entries: each of them is found under its number, and the last counts where
/// a number occurs twice.
pub proof fn lemma_nodes_are_the_entries<'a>(
    map: &'a [u8],
    pff: Pff<'a>,
    count: int,
    stride: int,
    i: int,
)
    requires
        call_ensures(Pff::from_map, (map,), Ok::<Pff<'a>, ost::Error>(pff)),
        leaf_page(map@, pff.ver, number_at(map@, 0xE0, 8), count, stride),
        0 <= i < count,
        forall|j: int|
            i < j < count ==> number_at(
                map@,
                number_at(map@, 0xE0, 8) + #[trigger] (j * stride),
                4,
            ) != number_at(map@, number_at(map@, 0xE0, 8) + i * stride, 4),
    ensures
        ({
            let o = number_at(map@, 0xE0, 8) + i * stride;
            let nid = number_at(map@, o, 4) as u32;
            pff.nbt@.contains_key(nid) && node_at(map@, o, pff.nbt@[nid])
        }),
{
    lemma_widths(map@, 10);
    lemma_widths(map@, 0xE0);
    let at = number_at(map@, 0xE0, 8);
    lemma_widths(map@, at + 4056);
    let g = pff.geom;
    let page = LeafPage { ib: at as u64, c_ent: count as usize, cb_ent: stride as usize };
    assert(ndb::leaves(map@, g, at as u64, 0) == Ok::<Seq<LeafPage>, ErrorV>(seq![page]));
    let entries = ndb::nbt_entries(map@, seq![page]);
    assert(seq![page].drop_last() =~= seq![]);
    assert(ndb::nbt_entries(map@, seq![]) =~= seq![]);
    assert(entries =~= ndb::nbt_page(map@, page, count as nat));
    let o = at + i * stride;
    lemma_node_entry(map@, o);
    let nid = number_at(map@, o, 4) as u32;
    maps::lemma_last_wins_is_last(entries, nid);
    assert(entries[i] == ndb::nbt_entry(map@, o));
    assert(entries[i].0 == nid);
    assert forall|j: int| i < j < entries.len() implies (#[trigger] entries[j]).0 != nid by {
        let q = j * stride;
        lemma_node_entry(map@, at + q);
        assert(entries[j] == ndb::nbt_entry(map@, at + q));
    }
}

/// Where the tree of blocks is one page, at the offset in the header's 0xF0, the
/// blocks are its entries, in the same way.
pub proof fn lemma_blocks_are_the_entries<'a>(
    map: &'a [u8],
    pff: Pff<'a>,
    count: int,
    stride: int,
    i: int,
)
    requires
        call_ensures(Pff::from_map, (map,), Ok::<Pff<'a>, ost::Error>(pff)),
        leaf_page(map@, pff.ver, number_at(map@, 0xF0, 8), count, stride),
        0 <= i < count,
        forall|j: int|
            i < j < count ==> number_at(
                map@,
                number_at(map@, 0xF0, 8) + #[trigger] (j * stride),
                8,
            ) / 2 != number_at(map@, number_at(map@, 0xF0, 8) + i * stride, 8) / 2,
    ensures
        ({
            let o = number_at(map@, 0xF0, 8) + i * stride;
            let bid = (number_at(map@, o, 8) - number_at(map@, o, 8) % 2) as u64;
            pff.bbt@.contains_key(bid) && block_at(map@, o, bid, pff.bbt@[bid])
        }),
{
    lemma_widths(map@, 10);
    lemma_widths(map@, 0xF0);
    let at = number_at(map@, 0xF0, 8);
    lemma_widths(map@, at + 4056);
    let g = pff.geom;
    let page = LeafPage { ib: at as u64, c_ent: count as usize, cb_ent: stride as usize };
    assert(ndb::leaves(map@, g, at as u64, 0) == Ok::<Seq<LeafPage>, ErrorV>(seq![page]));
    let entries = ndb::bbt_entries(map@, seq![page]);
    assert(seq![page].drop_last() =~= seq![]);
    assert(ndb::bbt_entries(map@, seq![]) =~= seq![]);
    assert(entries =~= ndb::bbt_page(map@, page, count as nat));
    let o = at + i * stride;
    lemma_block_entry(map@, o);
    let bid = ndb::bbt_entry(map@, o).0;
    maps::lemma_last_wins_is_last(entries, bid);
    assert(entries[i] == ndb::bbt_entry(map@, o));
    assert(entries[i].0 == bid);
    assert forall|j: int| i < j < entries.len() implies (#[trigger] entries[j]).0 != bid by {
        let q = j * stride;
        lemma_block_entry(map@, at + q);
        assert(entries[j] == ndb::bbt_entry(map@, at + q));
    }
}

} // verus!
