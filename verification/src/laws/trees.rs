//! Laws of the trees in a PFF file: whatever hangs on a tree, on however many levels,
//! is found in it.

use vstd::prelude::*;
use crate::bytes;
use crate::laws::file::{block_at, node_at};
use crate::laws::heap::{lemma_widths, number_at};
use crate::maps;
use crate::ost;
use crate::ost::ltp;
use crate::ost::ltp::{Hn, HnV};
use crate::ost::ndb;
use crate::ost::ndb::{Geom, LeafPage, Pff};

verus! {

broadcast use vstd::std_specs::hash::group_hash_axioms;

/// How many entries a page has.
pub open spec fn entries_on(map: Seq<u8>, ver: u16, at: int) -> int {
    if ver == 23 {
        map[at + 488] as int
    } else {
        number_at(map, at + 4056, 2)
    }
}

/// How far apart the entries of a page stand.
pub open spec fn stride_on(map: Seq<u8>, ver: u16, at: int) -> int {
    if ver == 23 {
        map[at + 490] as int
    } else {
        map[at + 4060] as int
    }
}

/// How many levels of pages a page has below it.
pub open spec fn level_on(map: Seq<u8>, ver: u16, at: int) -> int {
    if ver == 23 {
        map[at + 491] as int
    } else {
        map[at + 4061] as int
    }
}

/// The page that lies along a way of entries below another: each entry of an inner page
/// names a page in its bytes from the sixteenth on.
pub open spec fn page_along(map: Seq<u8>, ver: u16, at: int, way: Seq<int>) -> Option<int>
    decreases way.len(),
{
    if way.len() == 0 {
        Some(at)
    } else if level_on(map, ver, at) > 0 && 0 <= way[0] < entries_on(map, ver, at) {
        page_along(
            map,
            ver,
            number_at(map, at + way[0] * stride_on(map, ver, at) + 16, 8),
            way.skip(1),
        )
    } else {
        None
    }
}

proof fn lemma_framing(map: Seq<u8>, ver: u16, g: Geom, at: int)
    requires
        ndb::geom_of(ver as int) == Some(g),
    ensures
        ndb::page_entries(map, g, at) == entries_on(map, ver, at),
        ndb::page_stride(map, g, at) == stride_on(map, ver, at),
        ndb::page_level(map, g, at) == level_on(map, ver, at),
{
    lemma_widths(map, at + 4056);
}

proof fn lemma_child_listed(
    map: Seq<u8>,
    g: Geom,
    ib: u64,
    cb_ent: int,
    n: int,
    k: int,
    depth: nat,
    p: LeafPage,
)
    requires
        depth <= 16,
        0 <= k < n,
        ndb::child_leaves(map, g, ib, cb_ent, n, depth) is Ok,
        ndb::leaves(map, g, bytes::le64(map, ib + k * cb_ent + 16) as u64, depth + 1) matches Ok(ps)
            ==> ps.contains(p),
    ensures
        ndb::child_leaves(map, g, ib, cb_ent, n, depth)->Ok_0.contains(p),
    decreases n,
{
    let all = ndb::child_leaves(map, g, ib, cb_ent, n, depth)->Ok_0;
    let a = ndb::leaves(map, g, bytes::le64(map, ib + (n - 1) * cb_ent + 16) as u64, depth + 1);
    let b = ndb::child_leaves(map, g, ib, cb_ent, n - 1, depth);
    let first = a->Ok_0;
    let rest = b->Ok_0;
    assert(all == first + rest);
    if k < n - 1 {
        lemma_child_listed(map, g, ib, cb_ent, n - 1, k, depth, p);
        let i = choose|i: int| 0 <= i < rest.len() && rest[i] == p;
        assert(all[first.len() + i] == p);
    } else {
        let i = choose|i: int| 0 <= i < first.len() && first[i] == p;
        assert(all[i] == p);
    }
}

proof fn lemma_leaf_listed(
    map: Seq<u8>,
    ver: u16,
    g: Geom,
    ib: u64,
    way: Seq<int>,
    depth: nat,
    leaf: int,
)
    requires
        ndb::geom_of(ver as int) == Some(g),
        depth + way.len() <= 16,
        ndb::leaves(map, g, ib, depth) is Ok,
        page_along(map, ver, ib as int, way) == Some(leaf),
        level_on(map, ver, leaf) == 0,
    ensures
        0 <= leaf <= u64::MAX,
        ndb::leaves(map, g, ib, depth)->Ok_0.contains(
            LeafPage {
                ib: leaf as u64,
                c_ent: entries_on(map, ver, leaf) as usize,
                cb_ent: stride_on(map, ver, leaf) as usize,
            },
        ),
    decreases way.len(),
{
    let at = ib as int;
    lemma_framing(map, ver, g, at);
    let pages = ndb::leaves(map, g, ib, depth)->Ok_0;
    if way.len() == 0 {
        assert(pages[0].ib == ib);
    } else {
        let n = entries_on(map, ver, at);
        let stride = stride_on(map, ver, at);
        let k = way[0];
        let o = at + k * stride + 16;
        lemma_widths(map, o);
        let child = number_at(map, o, 8) as u64;
        assert(child as int == number_at(map, o, 8));
        assert(ndb::child_leaves(map, g, ib, stride, n, depth) is Ok);
        lemma_child_ok(map, g, ib, stride, n, k, depth);
        lemma_leaf_listed(map, ver, g, child, way.skip(1), depth + 1, leaf);
        lemma_child_listed(
            map,
            g,
            ib,
            stride,
            n,
            k,
            depth,
            LeafPage {
                ib: leaf as u64,
                c_ent: entries_on(map, ver, leaf) as usize,
                cb_ent: stride_on(map, ver, leaf) as usize,
            },
        );
    }
}

proof fn lemma_child_ok(
    map: Seq<u8>,
    g: Geom,
    ib: u64,
    cb_ent: int,
    n: int,
    k: int,
    depth: nat,
)
    requires
        depth <= 16,
        0 <= k < n,
        ndb::child_leaves(map, g, ib, cb_ent, n, depth) is Ok,
    ensures
        ndb::leaves(map, g, bytes::le64(map, ib + k * cb_ent + 16) as u64, depth + 1) is Ok,
    decreases n,
{
    if k < n - 1 {
        lemma_child_ok(map, g, ib, cb_ent, n - 1, k, depth);
    }
}

proof fn lemma_node_listed(map: Seq<u8>, pages: Seq<LeafPage>, p: LeafPage, i: int)
    requires
        pages.contains(p),
        0 <= i < p.c_ent,
    ensures
        ndb::nbt_entries(map, pages).contains(ndb::nbt_entry(map, p.ib + i * p.cb_ent)),
    decreases pages.len(),
{
    let front = pages.drop_last();
    let last = pages.last();
    let before = ndb::nbt_entries(map, front);
    let mine = ndb::nbt_page(map, last, last.c_ent as nat);
    let all = ndb::nbt_entries(map, pages);
    let e = ndb::nbt_entry(map, p.ib + i * p.cb_ent);
    assert(all == before + mine);
    if last == p {
        assert(mine[i] == e);
        assert(all[before.len() + i] == e);
    } else {
        let j = choose|j: int| 0 <= j < pages.len() && pages[j] == p;
        assert(front[j] == p);
        lemma_node_listed(map, front, p, i);
        let k = choose|k: int| 0 <= k < before.len() && before[k] == e;
        assert(all[k] == e);
    }
}

proof fn lemma_block_listed(map: Seq<u8>, pages: Seq<LeafPage>, p: LeafPage, i: int)
    requires
        pages.contains(p),
        0 <= i < p.c_ent,
    ensures
        ndb::bbt_entries(map, pages).contains(ndb::bbt_entry(map, p.ib + i * p.cb_ent)),
    decreases pages.len(),
{
    let front = pages.drop_last();
    let last = pages.last();
    let before = ndb::bbt_entries(map, front);
    let mine = ndb::bbt_page(map, last, last.c_ent as nat);
    let all = ndb::bbt_entries(map, pages);
    let e = ndb::bbt_entry(map, p.ib + i * p.cb_ent);
    assert(all == before + mine);
    if last == p {
        assert(mine[i] == e);
        assert(all[before.len() + i] == e);
    } else {
        let j = choose|j: int| 0 <= j < pages.len() && pages[j] == p;
        assert(front[j] == p);
        lemma_block_listed(map, front, p, i);
        let k = choose|k: int| 0 <= k < before.len() && before[k] == e;
        assert(all[k] == e);
    }
}

/// Every node that hangs on the tree of nodes is found under its number.
pub proof fn lemma_every_node_is_found<'a>(
    map: &'a [u8],
    pff: Pff<'a>,
    way: Seq<int>,
    leaf: int,
    i: int,
)
    requires
        call_ensures(Pff::from_map, (map,), Ok::<Pff<'a>, ost::Error>(pff)),
        way.len() <= 16,
        page_along(map@, pff.ver, number_at(map@, 0xE0, 8), way) == Some(leaf),
        level_on(map@, pff.ver, leaf) == 0,
        0 <= i < entries_on(map@, pff.ver, leaf),
    ensures
        pff.nbt@.contains_key(
            number_at(map@, leaf + i * stride_on(map@, pff.ver, leaf), 4) as u32,
        ),
{
    lemma_widths(map@, 10);
    lemma_widths(map@, 0xE0);
    let g = pff.geom;
    let root = number_at(map@, 0xE0, 8) as u64;
    lemma_leaf_listed(map@, pff.ver, g, root, way, 0, leaf);
    let pages = ndb::leaves(map@, g, root, 0)->Ok_0;
    lemma_widths(map@, leaf + 4056);
    let p = LeafPage {
        ib: leaf as u64,
        c_ent: entries_on(map@, pff.ver, leaf) as usize,
        cb_ent: stride_on(map@, pff.ver, leaf) as usize,
    };
    lemma_node_listed(map@, pages, p, i);
    let entries = ndb::nbt_entries(map@, pages);
    let o = leaf + i * stride_on(map@, pff.ver, leaf);
    lemma_widths(map@, o);
    let e = ndb::nbt_entry(map@, p.ib + i * p.cb_ent);
    let k = choose|k: int| 0 <= k < entries.len() && entries[k] == e;
    maps::lemma_last_wins_is_last(entries, e.0);
    assert(entries[k].0 == e.0);
}

/// Every block that hangs on the tree of blocks is found under its number, the lowest
/// bit of which does not count.
pub proof fn lemma_every_block_is_found<'a>(
    map: &'a [u8],
    pff: Pff<'a>,
    way: Seq<int>,
    leaf: int,
    i: int,
)
    requires
        call_ensures(Pff::from_map, (map,), Ok::<Pff<'a>, ost::Error>(pff)),
        way.len() <= 16,
        page_along(map@, pff.ver, number_at(map@, 0xF0, 8), way) == Some(leaf),
        level_on(map@, pff.ver, leaf) == 0,
        0 <= i < entries_on(map@, pff.ver, leaf),
    ensures
        ({
            let n = number_at(map@, leaf + i * stride_on(map@, pff.ver, leaf), 8);
            pff.bbt@.contains_key((n - n % 2) as u64)
        }),
{
    lemma_widths(map@, 10);
    lemma_widths(map@, 0xF0);
    let g = pff.geom;
    let root = number_at(map@, 0xF0, 8) as u64;
    lemma_leaf_listed(map@, pff.ver, g, root, way, 0, leaf);
    let pages = ndb::leaves(map@, g, root, 0)->Ok_0;
    lemma_widths(map@, leaf + 4056);
    let p = LeafPage {
        ib: leaf as u64,
        c_ent: entries_on(map@, pff.ver, leaf) as usize,
        cb_ent: stride_on(map@, pff.ver, leaf) as usize,
    };
    lemma_block_listed(map@, pages, p, i);
    let entries = ndb::bbt_entries(map@, pages);
    let o = leaf + i * stride_on(map@, pff.ver, leaf);
    lemma_widths(map@, o);
    let e = ndb::bbt_entry(map@, p.ib + i * p.cb_ent);
    let k = choose|k: int| 0 <= k < entries.len() && entries[k] == e;
    maps::lemma_last_wins_is_last(entries, e.0);
    assert(entries[k].0 == e.0);
}

proof fn lemma_nodes_stand(map: Seq<u8>, pages: Seq<LeafPage>, k: int)
    requires
        0 <= k < ndb::nbt_entries(map, pages).len(),
    ensures
        exists|o: int| #[trigger]
            node_at(map, o, ndb::nbt_entries(map, pages)[k].1) && ndb::nbt_entries(map, pages)[k].0
                == ndb::nbt_entries(map, pages)[k].1.nid,
    decreases pages.len(),
{
    let before = ndb::nbt_entries(map, pages.drop_last());
    let last = pages.last();
    let all = ndb::nbt_entries(map, pages);
    if k < before.len() {
        lemma_nodes_stand(map, pages.drop_last(), k);
        assert(all[k] == before[k]);
    } else {
        let o = last.ib + (k - before.len()) * last.cb_ent;
        assert(all[k] == ndb::nbt_entry(map, o));
        lemma_widths(map, o);
        lemma_widths(map, o + 8);
        lemma_widths(map, o + 16);
        lemma_widths(map, o + 24);
        assert(node_at(map, o, all[k].1));
    }
}

proof fn lemma_blocks_stand(map: Seq<u8>, pages: Seq<LeafPage>, k: int)
    requires
        0 <= k < ndb::bbt_entries(map, pages).len(),
    ensures
        exists|o: int| #[trigger]
            block_at(map, o, ndb::bbt_entries(map, pages)[k].0, ndb::bbt_entries(map, pages)[k].1),
    decreases pages.len(),
{
    let before = ndb::bbt_entries(map, pages.drop_last());
    let last = pages.last();
    let all = ndb::bbt_entries(map, pages);
    if k < before.len() {
        lemma_blocks_stand(map, pages.drop_last(), k);
        assert(all[k] == before[k]);
    } else {
        let o = last.ib + (k - before.len()) * last.cb_ent;
        assert(all[k] == ndb::bbt_entry(map, o));
        lemma_widths(map, o);
        lemma_widths(map, o + 8);
        lemma_widths(map, o + 16);
        lemma_widths(map, o + 18);
        assert(block_at(map, o, all[k].0, all[k].1));
    }
}

/// Every node and every block that is found stands in the file as it is told.
pub proof fn lemma_what_is_found_stands_in_the_file<'a>(
    map: &'a [u8],
    pff: Pff<'a>,
    nid: u32,
    bid: u64,
)
    requires
        call_ensures(Pff::from_map, (map,), Ok::<Pff<'a>, ost::Error>(pff)),
    ensures
        pff.nbt@.contains_key(nid) ==> pff.nbt@[nid].nid == nid && exists|o: int| #[trigger]
            node_at(map@, o, pff.nbt@[nid]),
        pff.bbt@.contains_key(bid) ==> exists|o: int| #[trigger]
            block_at(map@, o, bid, pff.bbt@[bid]),
{
    lemma_widths(map@, 10);
    lemma_widths(map@, 0xE0);
    lemma_widths(map@, 0xF0);
    let g = pff.geom;
    let nodes = ndb::nbt_entries(
        map@,
        ndb::leaves(map@, g, number_at(map@, 0xE0, 8) as u64, 0)->Ok_0,
    );
    let blocks = ndb::bbt_entries(
        map@,
        ndb::leaves(map@, g, number_at(map@, 0xF0, 8) as u64, 0)->Ok_0,
    );
    maps::lemma_last_wins_is_last(nodes, nid);
    maps::lemma_last_wins_is_last(blocks, bid);
    if pff.nbt@.contains_key(nid) {
        let k = choose|k: int| 0 <= k < nodes.len() && #[trigger] nodes[k] == (nid, pff.nbt@[nid]);
        lemma_nodes_stand(
            map@,
            ndb::leaves(map@, g, number_at(map@, 0xE0, 8) as u64, 0)->Ok_0,
            k,
        );
    }
    if pff.bbt@.contains_key(bid) {
        let k = choose|k: int| 0 <= k < blocks.len() && #[trigger] blocks[k] == (bid, pff.bbt@[bid]);
        lemma_blocks_stand(
            map@,
            ndb::leaves(map@, g, number_at(map@, 0xF0, 8) as u64, 0)->Ok_0,
            k,
        );
    }
}

/// The item that lies along a way of entries below another in a heap tree: an entry of
/// an inner item is a key and the identifier of an item.
pub open spec fn item_along(hn: HnV, hid: u32, key: int, way: Seq<int>) -> Option<Seq<u8>>
    decreases way.len(),
{
    match hn.item(hid) {
        Err(_) => None,
        Ok(buf) => if way.len() == 0 {
            Some(buf)
        } else if 0 <= way[0] < buf.len() as int / (key + 4) {
            item_along(
                hn,
                number_at(buf, way[0] * (key + 4) + key, 4) as u32,
                key,
                way.skip(1),
            )
        } else {
            None
        },
    }
}

proof fn lemma_in_children(
    hn: HnV,
    buf: Seq<u8>,
    n: int,
    k: int,
    key: int,
    ent: int,
    level: nat,
    rec: (Seq<u8>, Seq<u8>),
)
    requires
        level > 0,
        0 <= k < n,
        hn.bth_children(buf, n, key, ent, level) is Ok,
        hn.bth_tree(
            bytes::le32(buf, k * (key + 4) + key) as u32,
            key,
            ent,
            (level - 1) as nat,
        ) matches Ok(rs) ==> rs.contains(rec),
    ensures
        hn.bth_children(buf, n, key, ent, level)->Ok_0.contains(rec),
    decreases n,
{
    let all = hn.bth_children(buf, n, key, ent, level)->Ok_0;
    let a = hn.bth_children(buf, n - 1, key, ent, level)->Ok_0;
    let b = hn.bth_tree(
        bytes::le32(buf, (n - 1) * (key + 4) + key) as u32,
        key,
        ent,
        (level - 1) as nat,
    )->Ok_0;
    assert(all == a + b);
    if k < n - 1 {
        lemma_in_children(hn, buf, n - 1, k, key, ent, level, rec);
        let i = choose|i: int| 0 <= i < a.len() && a[i] == rec;
        assert(all[i] == rec);
    } else {
        let i = choose|i: int| 0 <= i < b.len() && b[i] == rec;
        assert(all[a.len() + i] == rec);
    }
}

proof fn lemma_child_tree_ok(
    hn: HnV,
    buf: Seq<u8>,
    n: int,
    k: int,
    key: int,
    ent: int,
    level: nat,
)
    requires
        level > 0,
        0 <= k < n,
        hn.bth_children(buf, n, key, ent, level) is Ok,
    ensures
        hn.bth_tree(
            bytes::le32(buf, k * (key + 4) + key) as u32,
            key,
            ent,
            (level - 1) as nat,
        ) is Ok,
    decreases n,
{
    if k < n - 1 {
        lemma_child_tree_ok(hn, buf, n - 1, k, key, ent, level);
    }
}

proof fn lemma_in_tree(
    hn: HnV,
    hid: u32,
    key: int,
    ent: int,
    way: Seq<int>,
    leaf: Seq<u8>,
    i: int,
)
    requires
        key > 0,
        ent > 0,
        hn.bth_tree(hid, key, ent, way.len()) is Ok,
        item_along(hn, hid, key, way) == Some(leaf),
        0 <= i < leaf.len() as int / (key + ent),
    ensures
        hn.bth_tree(hid, key, ent, way.len())->Ok_0.contains(
            (
                leaf.subrange(i * (key + ent), i * (key + ent) + key),
                leaf.subrange(i * (key + ent) + key, i * (key + ent) + (key + ent)),
            ),
        ),
    decreases way.len(),
{
    let rec = (
        leaf.subrange(i * (key + ent), i * (key + ent) + key),
        leaf.subrange(i * (key + ent) + key, i * (key + ent) + (key + ent)),
    );
    let buf = hn.item(hid)->Ok_0;
    if way.len() == 0 {
        let all = hn.bth_tree(hid, key, ent, 0)->Ok_0;
        assert(all[i] == rec);
    } else {
        let n = buf.len() as int / (key + 4);
        let k = way[0];
        let level = way.len();
        lemma_widths(buf, k * (key + 4) + key);
        let child = bytes::le32(buf, k * (key + 4) + key) as u32;
        assert(hn.bth_children(buf, n, key, ent, level) is Ok);
        lemma_child_tree_ok(hn, buf, n, k, key, ent, level);
        assert(way.skip(1).len() == (level - 1) as nat);
        lemma_in_tree(hn, child, key, ent, way.skip(1), leaf, i);
        lemma_in_children(hn, buf, n, k, key, ent, level, rec);
    }
}

/// Every record of a heap tree is found, on however many levels it hangs.
pub proof fn lemma_every_record_is_found(
    hn: &Hn,
    hid_root: u32,
    header: &[u8],
    way: Seq<int>,
    leaf: Seq<u8>,
    i: int,
    recs: Vec<(Vec<u8>, Vec<u8>)>,
)
    requires
        hn.wf(),
        call_ensures(Hn::item, (hn, hid_root), Ok::<&[u8], ost::Error>(header)),
        header@.len() >= 8,
        header@[1] > 0 && header@[2] > 0 && header@[3] == way.len(),
        number_at(header@, 4, 4) > 0,
        item_along(hn@, number_at(header@, 4, 4) as u32, header@[1] as int, way) == Some(leaf),
        0 <= i < leaf.len() as int / (header@[1] + header@[2]),
        call_ensures(
            ltp::bth_records,
            (hn, hid_root),
            Ok::<Vec<(Vec<u8>, Vec<u8>)>, ost::Error>(recs),
        ),
    ensures
        ({
            let size = header@[1] + header@[2];
            exists|k: int|
                0 <= k < recs@.len() && (#[trigger] recs@[k]).0@ == leaf.subrange(
                    i * size,
                    i * size + header@[1],
                ) && recs@[k].1@ == leaf.subrange(i * size + header@[1], i * size + size)
        }),
{
    lemma_widths(header@, 4);
    let key = header@[1] as int;
    let ent = header@[2] as int;
    lemma_in_tree(hn@, number_at(header@, 4, 4) as u32, key, ent, way, leaf, i);
    let seen = ltp::records(recs@);
    let rec = (
        leaf.subrange(i * (key + ent), i * (key + ent) + key),
        leaf.subrange(i * (key + ent) + key, i * (key + ent) + (key + ent)),
    );
    let k = choose|k: int| 0 <= k < seen.len() && seen[k] == rec;
    assert(seen[k] == (recs@[k].0@, recs@[k].1@));
}

} // verus!
