//! Laws of the heap of a node: where in its blocks a value lies, and how numbers,
//! flags and rows are read out of it.

use vstd::prelude::*;
use vstd::arithmetic::power2::pow2;
use crate::bytes;
use crate::ost;
use crate::ost::ltp;
use crate::ost::ltp::{Hn, Pc, Prop, Tc, TcCol};
use crate::ost::ndb::Pff;
use crate::order;

verus! {

/// The number that `n` bytes from `at` on spell, the least of them first.
pub open spec fn number_at(b: Seq<u8>, at: int, n: nat) -> int
    decreases n,
{
    if n == 0 {
        0
    } else {
        b[at] + 256 * number_at(b, at + 1, (n - 1) as nat)
    }
}

/// The three widths in which numbers are read are spelled that way.
pub proof fn lemma_widths(b: Seq<u8>, o: int)
    ensures
        bytes::le16(b, o) == number_at(b, o, 2),
        bytes::le32(b, o) == number_at(b, o, 4),
        bytes::le64(b, o) == number_at(b, o, 8),
{
    reveal_with_fuel(number_at, 9);
}

/// Numbers are read with the least byte first.
pub proof fn lemma_numbers_are_read(b: &[u8], o: usize, x: u16, y: u32, z: u64)
    requires
        o + 8 <= b@.len(),
        call_ensures(bytes::u16le, (b, o), x),
        call_ensures(bytes::u32le, (b, o), y),
        call_ensures(bytes::u64le, (b, o), z),
    ensures
        x == number_at(b@, o as int, 2),
        y == number_at(b@, o as int, 4),
        z == number_at(b@, o as int, 8),
{
    lemma_widths(b@, o as int);
}

/// Item `idx`, counted from one, of a heap block: it lies between two neighbours in
/// the table of offsets, which stands where the first two bytes of the block say.
pub open spec fn item_of_block(block: Seq<u8>, idx: int, item: Seq<u8>) -> bool {
    let table = number_at(block, 0, 2);
    let from = number_at(block, table + 4 + 2 * (idx - 1), 2);
    let to = number_at(block, table + 4 + 2 * idx, 2);
    &&& 1 <= idx <= number_at(block, table, 2)
    &&& table + 4 + 2 * idx + 2 <= block.len()
    &&& from <= to <= block.len()
    &&& item == block.subrange(from, to)
}

/// How many items a heap identifier can tell apart within one block.
pub open spec fn items_per_block(shift: u32) -> int {
    if shift == 16 {
        0x800
    } else {
        0x4000
    }
}

/// A heap identifier names a block and an item in it: item `idx` of block `k` is
/// resolved to the bytes that lie there, and to nothing else.
pub proof fn lemma_item_lies_in_its_block(
    hn: &Hn,
    k: int,
    idx: int,
    hid: u32,
    r: Result<&[u8], ost::Error>,
)
    requires
        hn.wf(),
        hn.hid_block_shift == 16 || hn.hid_block_shift == 19,
        0 <= k < hn.blocks@.len(),
        1 <= idx < items_per_block(hn.hid_block_shift),
        hid == 32 * (k * items_per_block(hn.hid_block_shift) + idx),
        call_ensures(Hn::item, (hn, hid), r),
    ensures
        match r {
            Ok(item) => item_of_block(hn.blocks@[k]@, idx, item@),
            Err(_) => forall|item: Seq<u8>| !#[trigger] item_of_block(hn.blocks@[k]@, idx, item),
        },
{
    let shift = hn.hid_block_shift;
    let per = items_per_block(shift);
    vstd::arithmetic::power2::lemma2_to64();
    let block = hn.blocks@[k]@;
    assert(bytes::each(hn.blocks@)[k] == block);
    assert(ltp::hid_split(hid, shift) == (idx, k)) by {
        assert(pow2((16u32 - 5) as nat) == 2048 && pow2((19u32 - 5) as nat) == 16384);
        assert(pow2(16u32 as nat) == 65536 && pow2(19u32 as nat) == 524288);
        if shift == 16 {
            assert(hid as int == 65536 * k + 32 * idx);
            assert(hid as int / 32 == 2048 * k + idx);
            assert((2048 * k + idx) % 2048 == idx);
            assert((65536 * k + 32 * idx) / 65536 == k);
            assert((hid as int / 32) % (pow2((shift - 5) as nat) as int) == idx);
            assert(hid as int / (pow2(shift as nat) as int) == k);
        } else {
            assert(hid as int == 524288 * k + 32 * idx);
            assert(hid as int / 32 == 16384 * k + idx);
            assert((16384 * k + idx) % 16384 == idx) by (nonlinear_arith)
                requires
                    0 <= idx < 16384,
            ;
            assert((524288 * k + 32 * idx) / 524288 == k) by (nonlinear_arith)
                requires
                    0 <= idx < 16384,
            ;
            assert((hid as int / 32) % (pow2((shift - 5) as nat) as int) == idx);
            assert(hid as int / (pow2(shift as nat) as int) == k);
        }
    }
    assert(hid % 32 == 0);
    let table = bytes::le16(block, 0);
    lemma_widths(block, 0);
    lemma_widths(block, table);
    lemma_widths(block, table + 4 + 2 * (idx - 1));
    lemma_widths(block, table + 4 + 2 * idx);
    assert(0 <= bytes::le16(block, table) <= 0xFFFF);
    let map = ltp::alloc_map(block);
    if idx < map.len() {
        assert(map[idx] == bytes::le16(block, table + 4 + idx * 2) as u16);
        assert(map[idx - 1] == bytes::le16(block, table + 4 + (idx - 1) * 2) as u16);
    }
}

/// What is not of the shape of a heap identifier resolves to nothing: one with type
/// bits, one for item zero, and one for a block that is not there.
pub proof fn lemma_no_other_item(hn: &Hn, hid: u32, r: Result<&[u8], ost::Error>)
    requires
        hn.wf(),
        hn.hid_block_shift == 16 || hn.hid_block_shift == 19,
        hid % 32 != 0 || (hid as int / 32) % items_per_block(hn.hid_block_shift) == 0 || hid as int
            / (32 * items_per_block(hn.hid_block_shift)) >= hn.blocks@.len(),
        call_ensures(Hn::item, (hn, hid), r),
    ensures
        r is Err,
{
    vstd::arithmetic::power2::lemma2_to64();
    assert(pow2((16u32 - 5) as nat) == 2048 && pow2((19u32 - 5) as nat) == 16384);
    assert(pow2(16u32 as nat) == 65536 && pow2(19u32 as nat) == 524288);
    assert(bytes::each(hn.blocks@).len() == hn.blocks@.len());
}

/// A heap says what it is in its first block: a mark, a kind and where to begin.
pub proof fn lemma_heap_header(blocks: Vec<Vec<u8>>, shift: u32, r: Result<Hn, ost::Error>)
    requires
        call_ensures(Hn::parse, (blocks, shift), r),
    ensures
        r is Ok <==> blocks@.len() > 0 && blocks@[0]@.len() >= 12 && blocks@[0]@[2] == 0xEC,
        r matches Ok(hn) ==> {
            &&& hn.client_sig == blocks@[0]@[3]
            &&& hn.hid_user_root == number_at(blocks@[0]@, 4, 4)
            &&& hn.hid_block_shift == shift
            &&& hn.blocks@.len() == blocks@.len()
            &&& forall|i: int|
                0 <= i < blocks@.len() ==> (#[trigger] hn.blocks@[i])@ == blocks@[i]@
        },
{
    let given = bytes::each(blocks@);
    if blocks@.len() > 0 {
        assert(given[0] == blocks@[0]@);
        lemma_widths(blocks@[0]@, 4);
        if let Ok(hn) = r {
            let held = bytes::each(hn.blocks@);
            assert(hn@.blocks == held);
            assert(held == given);
            assert forall|i: int| 0 <= i < blocks@.len() implies (#[trigger] hn.blocks@[i])@
                == blocks@[i]@ by {
                assert(held[i] == hn.blocks@[i]@);
                assert(given[i] == blocks@[i]@);
            }
        }
    }
}

/// `recs` are the records of a leaf: keys and values of fixed widths side by side,
/// as many as fit.
pub open spec fn cut_up(leaf: Seq<u8>, key: int, ent: int, recs: Seq<(Vec<u8>, Vec<u8>)>) -> bool {
    &&& recs.len() == leaf.len() as int / (key + ent)
    &&& forall|i: int|
        0 <= i < recs.len() ==> {
            &&& (#[trigger] recs[i]).0@ == leaf.subrange(i * (key + ent), i * (key + ent) + key)
            &&& recs[i].1@ == leaf.subrange(i * (key + ent) + key, (i + 1) * (key + ent))
        }
}

/// The records of a heap tree of one leaf are that leaf, cut up.
pub proof fn lemma_leaf_is_cut_up(
    hn: &Hn,
    hid_root: u32,
    header: &[u8],
    leaf: &[u8],
    r: Result<Vec<(Vec<u8>, Vec<u8>)>, ost::Error>,
)
    requires
        hn.wf(),
        call_ensures(Hn::item, (hn, hid_root), Ok::<&[u8], ost::Error>(header)),
        header@.len() >= 8,
        header@[0] == 0xB5 && header@[1] > 0 && header@[2] > 0 && header@[3] == 0,
        number_at(header@, 4, 4) > 0,
        call_ensures(
            Hn::item,
            (hn, number_at(header@, 4, 4) as u32),
            Ok::<&[u8], ost::Error>(leaf),
        ),
        call_ensures(ltp::bth_records, (hn, hid_root), r),
    ensures
        r matches Ok(recs) && cut_up(leaf@, header@[1] as int, header@[2] as int, recs@),
{
    lemma_widths(header@, 4);
    let key = header@[1] as int;
    let ent = header@[2] as int;
    let recs = r->Ok_0;
    let seen = ltp::records(recs@);
    let want = ltp::leaf_records(leaf@, key, ent, (leaf@.len() as int / (key + ent)) as nat);
    assert(seen == want);
    assert(seen.len() == recs@.len());
    assert(leaf@.len() as int / (key + ent) >= 0) by (nonlinear_arith)
        requires
            key + ent > 0,
    ;
    assert forall|i: int| 0 <= i < recs@.len() implies (#[trigger] recs@[i]).0@ == leaf@.subrange(
        i * (key + ent),
        i * (key + ent) + key,
    ) && recs@[i].1@ == leaf@.subrange(i * (key + ent) + key, (i + 1) * (key + ent)) by {
        assert(seen[i] == (recs@[i].0@, recs@[i].1@));
        assert(want[i] == seen[i]);
        assert((i + 1) * (key + ent) == i * (key + ent) + (key + ent)) by (nonlinear_arith);
    }
}

/// A record that is wide enough holds the property `p`.
pub open spec fn holds_property(rec: (Vec<u8>, Vec<u8>), p: Prop) -> bool {
    &&& rec.0@.len() >= 2 && rec.1@.len() >= 6
    &&& p.id == number_at(rec.0@, 0, 2)
    &&& p.ptype == number_at(rec.1@, 0, 2)
    &&& p.raw == number_at(rec.1@, 2, 4)
}

proof fn lemma_property_of(rec: (Vec<u8>, Vec<u8>), p: Prop)
    requires
        rec.0@.len() >= 2,
        rec.1@.len() >= 6,
    ensures
        holds_property(rec, p) == (p == ltp::prop_of((rec.0@, rec.1@))),
{
    lemma_widths(rec.0@, 0);
    lemma_widths(rec.1@, 0);
    lemma_widths(rec.1@, 2);
}

proof fn lemma_first_property(recs: Seq<(Vec<u8>, Vec<u8>)>, id: u16, at: int)
    requires
        0 <= at <= recs.len(),
        forall|k: int|
            0 <= k < at ==> (#[trigger] recs[k]).0@.len() < 2 || recs[k].1@.len() < 6 || number_at(
                recs[k].0@,
                0,
                2,
            ) != id,
        at < recs.len() ==> recs[at].0@.len() >= 2 && recs[at].1@.len() >= 6 && number_at(
            recs[at].0@,
            0,
            2,
        ) == id,
    ensures
        order::first_with(ltp::props_of(ltp::records(recs)), ltp::prop_key(), id as int) == (if at
            < recs.len() {
            Some(ltp::prop_of((recs[at].0@, recs[at].1@)))
        } else {
            None
        }),
    decreases recs.len(),
{
    let all = ltp::records(recs);
    if recs.len() > 0 {
        let front = recs.drop_last();
        let last = recs.len() - 1;
        assert(all.drop_last() =~= ltp::records(front));
        assert(all.last() == (recs[last].0@, recs[last].1@));
        lemma_widths(recs[last].0@, 0);
        let before = ltp::props_of(ltp::records(front));
        if at <= last {
            assert forall|k: int| 0 <= k < at implies (#[trigger] front[k]).0@.len() < 2
                || front[k].1@.len() < 6 || number_at(front[k].0@, 0, 2) != id by {
                assert(front[k] == recs[k]);
            }
            lemma_first_property(front, id, at);
        } else {
            lemma_first_property(front, id, last);
        }
        let p = ltp::prop_of(all.last());
        assert(before.push(p).drop_last() =~= before);
        assert(before.push(p).last() == p);
    }
}

/// A property context has for an identifier the property of the first record that
/// carries it. `at` is that record among the records of the heap, or their number.
pub proof fn lemma_property_is_the_first_record<'a>(
    pff: &'a Pff<'a>,
    bid_data: u64,
    bid_sub: u64,
    blocks: Vec<Vec<u8>>,
    hn: Hn,
    recs: Vec<(Vec<u8>, Vec<u8>)>,
    pc: Pc<'a>,
    id: u16,
    at: int,
    p: Option<Prop>,
)
    requires
        pff.wf(),
        call_ensures(Pff::data_blocks, (pff, bid_data), Ok::<Vec<Vec<u8>>, ost::Error>(blocks)),
        call_ensures(Hn::parse, (blocks, pff.geom.hid_block_shift), Ok::<Hn, ost::Error>(hn)),
        call_ensures(
            ltp::bth_records,
            (&hn, hn.hid_user_root),
            Ok::<Vec<(Vec<u8>, Vec<u8>)>, ost::Error>(recs),
        ),
        call_ensures(Pc::open_at, (pff, bid_data, bid_sub), Ok::<Pc<'a>, ost::Error>(pc)),
        call_ensures(Pc::prop, (&pc, id), p),
        0 <= at <= recs@.len(),
        forall|k: int|
            0 <= k < at ==> (#[trigger] recs@[k]).0@.len() < 2 || recs@[k].1@.len() < 6
                || number_at(recs@[k].0@, 0, 2) != id,
        at < recs@.len() ==> recs@[at].0@.len() >= 2 && recs@[at].1@.len() >= 6 && number_at(
            recs@[at].0@,
            0,
            2,
        ) == id,
    ensures
        hn.client_sig == 0xBC,
        at < recs@.len() ==> (p matches Some(found) && holds_property(recs@[at], found)),
        at == recs@.len() ==> p is None,
{
    lemma_first_property(recs@, id, at);
    ltp::lemma_props_found_in_record_order(ltp::records(recs@), id);
    assert(pc@.hn == hn@);
    if at < recs@.len() {
        lemma_property_of(recs@[at], p->Some_0);
    }
}

/// `n` is the number whose two's complement is `raw`.
pub open spec fn signed_of(n: i32, raw: int) -> bool {
    raw == (if n >= 0 {
        n as int
    } else {
        n + 0x1_0000_0000
    })
}

/// Numbers and flags of a property stand in the property itself; a number of eight
/// bytes stands in the bytes that it names.
pub proof fn lemma_property_values(
    pc: &Pc,
    id: u16,
    p: Option<Prop>,
    b: Option<Vec<u8>>,
    n: Option<i32>,
    flag: Option<bool>,
    wide: Option<u64>,
)
    requires
        pc.wf(),
        call_ensures(Pc::prop, (pc, id), p),
        call_ensures(Pc::bytes, (pc, id), b),
        call_ensures(Pc::i32, (pc, id), n),
        call_ensures(Pc::bool, (pc, id), flag),
        call_ensures(Pc::u64, (pc, id), wide),
    ensures
        match p {
            Some(found) => found.id == id && n is Some && signed_of(n->Some_0, found.raw as int)
                && flag == Some(found.raw != 0),
            None => n is None && flag is None && b is None && wide is None,
        },
        wide is Some <==> b is Some && b->Some_0@.len() >= 8,
        wide matches Some(w) ==> w == number_at(b->Some_0@, 0, 8),
{
    order::lemma_first_with_absent(pc.props@, ltp::prop_key(), id as int);
    if let Some(v) = b {
        lemma_widths(v@, 0);
    }
}

/// Texts are only given for properties of a text type: 0x1F in UTF-16, 0x1E in eight
/// bits; where text is asked for, also binary ones, 0x102. They are what decoding
/// the property's bytes gives.
pub proof fn lemma_property_texts(
    pc: &Pc,
    id: u16,
    p: Option<Prop>,
    b: Option<Vec<u8>>,
    view: &[u8],
    decoded: String,
    string: Option<String>,
    text: Option<String>,
)
    requires
        pc.wf(),
        call_ensures(Pc::prop, (pc, id), p),
        call_ensures(Pc::bytes, (pc, id), b),
        p is Some && b is Some ==> view@ == b->Some_0@ && call_ensures(
            ost::props::decode_string,
            (p->Some_0.ptype, view),
            decoded,
        ),
        call_ensures(Pc::string, (pc, id), string),
        call_ensures(Pc::text, (pc, id), text),
    ensures
        string is Some <==> p is Some && b is Some && (p->Some_0.ptype == 0x1F || p->Some_0.ptype
            == 0x1E),
        string matches Some(s) ==> s@ == decoded@,
        text is Some <==> p is Some && b is Some && (p->Some_0.ptype == 0x1F || p->Some_0.ptype
            == 0x1E || p->Some_0.ptype == 0x102),
        text matches Some(s) ==> s@ == decoded@,
{
}

/// Whether the bit of a column is set in the bitmap of a row, the highest bit of each
/// byte first.
pub open spec fn bit_set(byte: u8, k: int) -> bool {
    &&& k == 0 ==> byte as int / 128 % 2 == 1
    &&& k == 1 ==> byte as int / 64 % 2 == 1
    &&& k == 2 ==> byte as int / 32 % 2 == 1
    &&& k == 3 ==> byte as int / 16 % 2 == 1
    &&& k == 4 ==> byte as int / 8 % 2 == 1
    &&& k == 5 ==> byte as int / 4 % 2 == 1
    &&& k == 6 ==> byte as int / 2 % 2 == 1
    &&& k == 7 ==> byte as int % 2 == 1
}

/// A cell is there when its bit in the row's bitmap is set, or the row has no bitmap.
pub proof fn lemma_cell_is_there(tc: &Tc, row: &[u8], c: &TcCol, there: bool)
    requires
        tc.wf(),
        call_ensures(Tc::has_cell, (tc, row, c), there),
    ensures
        there <==> (tc.ceb_start + c.i_bit as int / 8 >= row@.len() || bit_set(
            row@[tc.ceb_start + c.i_bit as int / 8],
            c.i_bit as int % 8,
        )),
{
    vstd::arithmetic::power2::lemma2_to64();
    let k = c.i_bit as int % 8;
    let at = tc.ceb_start + c.i_bit as int / 8;
    let w = pow2((7 - k) as nat) as int;
    let byte = row@[at] as int;
    if at < row@.len() {
        if k == 0 {
            assert(w == 128);
        } else if k == 1 {
            assert(w == 64);
        } else if k == 2 {
            assert(w == 32);
        } else if k == 3 {
            assert(w == 16);
        } else if k == 4 {
            assert(w == 8);
        } else if k == 5 {
            assert(w == 4);
        } else if k == 6 {
            assert(w == 2);
        } else {
            assert(w == 1);
            vstd::arithmetic::div_mod::lemma_div_basics(byte);
        }
        assert((byte / w) % 2 == 1 <==> bit_set(row@[at], k));
    }
}

/// The column of a property is the first whose tag names it in its upper half, if it
/// ends inside the row. `at` is that column, or the number of columns.
pub proof fn lemma_column_is_the_first(tc: &Tc, id: u16, at: int, r: Option<TcCol>)
    requires
        tc.wf(),
        0 <= at <= tc.cols@.len(),
        forall|k: int| 0 <= k < at ==> (#[trigger] tc.cols@[k]).tag as int / 0x1_0000 != id,
        at < tc.cols@.len() ==> tc.cols@[at].tag as int / 0x1_0000 == id,
        call_ensures(Tc::col, (tc, id), r),
    ensures
        r == (if at < tc.cols@.len() && tc.cols@[at].ib + tc.cols@[at].cb <= tc.row_size {
            Some(tc.cols@[at])
        } else {
            None
        }),
{
    let key = ltp::col_key();
    assert forall|k: int| 0 <= k < at implies key(#[trigger] tc.cols@[k]) != id by {
        assert(tc.cols@[k].tag as int / 0x1_0000 != id);
    }
    if at < tc.cols@.len() {
        assert(key(tc.cols@[at]) == id);
        order::lemma_first_with_at(tc.cols@, key, id as int, at);
    } else {
        order::lemma_first_with_absent(tc.cols@, key, id as int);
    }
}

/// What a row holds for a property stands in the row where its column begins: four
/// bytes of a number, one byte of a flag, eight bytes of a wide number. Nothing is
/// read of a cell that is not there.
pub proof fn lemma_cell_values(
    tc: &Tc,
    row: &[u8],
    id: u16,
    c: Option<TcCol>,
    there: bool,
    n: Option<i32>,
    flag: Option<bool>,
    wide: Option<u64>,
)
    requires
        tc.wf(),
        call_ensures(Tc::col, (tc, id), c),
        c is Some ==> call_ensures(Tc::has_cell, (tc, row, &c->Some_0), there),
        call_ensures(Tc::i32, (tc, row, id), n),
        call_ensures(Tc::bool, (tc, row, id), flag),
        call_ensures(Tc::u64, (tc, row, id), wide),
    ensures
        match c {
            Some(col) if there => {
                &&& n is Some <==> col.ib + 4 <= row@.len()
                &&& n matches Some(x) ==> signed_of(x, number_at(row@, col.ib as int, 4))
                &&& flag is Some <==> col.ib < row@.len()
                &&& flag matches Some(x) ==> x == (row@[col.ib as int] != 0)
                &&& wide is Some <==> col.cb >= 8 && col.ib + 8 <= row@.len()
                &&& wide matches Some(x) ==> x == number_at(row@, col.ib as int, 8)
            },
            _ => n is None && flag is None && wide is None,
        },
{
    if let Some(col) = c {
        lemma_widths(row@, col.ib as int);
    }
}

/// A text in a row is what decoding the bytes of its cell by the lower half of the
/// column's tag gives.
pub proof fn lemma_cell_text(
    tc: &Tc,
    row: &[u8],
    id: u16,
    c: Option<TcCol>,
    b: Option<Vec<u8>>,
    view: &[u8],
    decoded: String,
    r: Option<String>,
)
    requires
        tc.wf(),
        call_ensures(Tc::col, (tc, id), c),
        call_ensures(Tc::bytes, (tc, row, id), b),
        c is Some && b is Some ==> view@ == b->Some_0@ && call_ensures(
            ost::props::decode_string,
            ((c->Some_0.tag as int % 0x1_0000) as u16, view),
            decoded,
        ),
        call_ensures(Tc::string, (tc, row, id), r),
    ensures
        r is Some <==> b is Some,
        r matches Some(s) ==> s@ == decoded@,
{
}

/// A row is named by its first four bytes.
pub proof fn lemma_row_id(row: &[u8], r: u32)
    requires
        call_ensures(Tc::row_id, (row,), r),
    ensures
        r == (if row@.len() >= 4 {
            number_at(row@, 0, 4)
        } else {
            0
        }),
{
    lemma_widths(row@, 0);
}

} // verus!
