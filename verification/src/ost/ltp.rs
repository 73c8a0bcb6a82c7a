//! Lists, tables and properties layer: heap-on-node, the heap BTree, and the
//! property and table contexts built on them.
//!
//! The one thing that differs between the versions is where a HID divides into
//! its index and block index; see [`hid_parts`].

use std::collections::HashMap;
use vstd::arithmetic::power2::pow2;
use vstd::prelude::*;
use crate::bytes;
use crate::bytes::{u16le, u32le, u64le};
use crate::order;
use crate::ost::ndb::{Pff, PffV};
use crate::ost::props;
use crate::ost::props::{decode_string, PT_BINARY, PT_STRING8, PT_UNICODE};
use crate::ost::{Error, ErrorV};
use crate::text;

verus! {

broadcast use vstd::std_specs::hash::group_hash_axioms;

/// A HID as `(hidIndex, hidBlockIndex)`: five type bits, the index up to bit
/// `block_shift`, and the block index above it.
pub open spec fn hid_split(hid: u32, block_shift: u32) -> (int, int) {
    (
        (hid as int / 32) % (pow2((block_shift - 5) as nat) as int),
        hid as int / (pow2(block_shift as nat) as int),
    )
}

/// Split a HID into `(hidIndex, hidBlockIndex)`. The boundary between them moved
/// in v36, so it comes from [`crate::ost::ndb::Geom`] rather than being a
/// constant.
pub fn hid_parts(hid: u32, block_shift: u32) -> (r: (usize, usize))
    requires
        5 <= block_shift < 32,
    ensures
        hid_split(hid, block_shift) == (r.0 as int, r.1 as int),
{
    proof {
        vstd::bits::lemma_u32_shr_is_div(hid, block_shift);
        vstd::bits::lemma_u32_pow2_no_overflow((block_shift - 5) as nat);
        vstd::bits::lemma_u32_shl_is_mul(1, (block_shift - 5) as u32);
        vstd::arithmetic::power2::lemma_pow2_pos((block_shift - 5) as nat);
    }
    let indexes: u32 = 1u32 << (block_shift - 5);
    (((hid / 32) % indexes) as usize, (hid >> block_shift) as usize)
}

/// A HID in the first block of a heap splits the same way in every version, which
/// is why both agree on every small property context.
pub proof fn lemma_first_block_splits_alike(hid: u32)
    requires
        hid < 0x1_0000,
    ensures
        hid_split(hid, 16) == hid_split(hid, 19),
        hid_split(hid, 16) == (hid as int / 32, 0int),
{
    vstd::arithmetic::power2::lemma2_to64();
    assert(pow2((16u32 - 5) as nat) == 2048 && pow2((19u32 - 5) as nat) == 16384);
    assert(pow2(16) == 65536 && pow2(19) == 524288);
    assert(hid as int / 65536 == 0 && hid as int / 524288 == 0);
}

/// A heap: the blocks it is spread over, where its HIDs divide, and the two
/// header fields that say what it is.
pub struct HnV {
    pub blocks: Seq<Seq<u8>>,
    pub block_shift: u32,
    pub client_sig: u8,
    pub hid_user_root: u32,
}

/// How many offsets the allocation table of a block holds: one more than it has
/// allocations, as far as the block reaches.
pub open spec fn alloc_len(b: Seq<u8>) -> int {
    let ib_map = bytes::le16(b, 0);
    if b.len() < 2 || ib_map + 4 > b.len() {
        0
    } else {
        let wanted = bytes::le16(b, ib_map) + 1;
        let room = (b.len() - ib_map - 4) / 2;
        if wanted <= room {
            wanted
        } else {
            room
        }
    }
}

/// The allocation table (`rgibAlloc`) of a block.
pub open spec fn alloc_map(b: Seq<u8>) -> Seq<u16> {
    Seq::new(alloc_len(b) as nat, |k: int| bytes::le16(b, bytes::le16(b, 0) + 4 + k * 2) as u16)
}

/// The heap on the given blocks.
pub open spec fn heap(blocks: Seq<Seq<u8>>, block_shift: u32) -> Result<HnV, ErrorV> {
    if blocks.len() == 0 {
        Err(ErrorV::Format("heap node has no blocks"@))
    } else if blocks[0].len() < 12 {
        Err(ErrorV::Format("first heap block is truncated"@))
    } else if blocks[0][2] != 0xEC {
        Err(
            ErrorV::Format(
                "HNHDR bSig is 0x"@ + text::zero_padded(text::hex(blocks[0][2] as nat), 2)
                    + ", expected 0xEC"@,
            ),
        )
    } else {
        Ok(
            HnV {
                blocks,
                block_shift,
                client_sig: blocks[0][3],
                hid_user_root: bytes::le32(blocks[0], 4) as u32,
            },
        )
    }
}

impl HnV {
    /// The heap allocation that a HID names.
    pub open spec fn item(self, hid: u32) -> Result<Seq<u8>, ErrorV> {
        let (idx, blk_i) = hid_split(hid, self.block_shift);
        let map = alloc_map(self.blocks[blk_i]);
        if hid % 32 != 0 {
            Err(
                ErrorV::Format(
                    "0x"@ + text::zero_padded(text::hex(hid as nat), 8) + " is not a HID"@,
                ),
            )
        } else if idx == 0 {
            Err(ErrorV::Format("hidIndex 0 is reserved"@))
        } else if blk_i >= self.blocks.len() {
            Err(
                ErrorV::Format(
                    "HID block index "@ + text::dec(blk_i as nat) + " is out of range"@,
                ),
            )
        } else if idx >= map.len() {
            Err(
                ErrorV::Format(
                    "hidIndex "@ + text::dec(idx as nat) + " is beyond a "@ + text::dec(map.len())
                        + "-entry allocation map"@,
                ),
            )
        } else if map[idx - 1] > map[idx] || map[idx] > self.blocks[blk_i].len() {
            Err(ErrorV::Format("heap item runs outside its block"@))
        } else {
            Ok(self.blocks[blk_i].subrange(map[idx - 1] as int, map[idx] as int))
        }
    }

    /// The leaf records of a heap BTree.
    pub open spec fn bth_records(self, hid_root: u32) -> Result<Seq<(Seq<u8>, Seq<u8>)>, ErrorV> {
        match self.item(hid_root) {
            Err(e) => Err(e),
            Ok(hdr) => {
                let root = bytes::le32(hdr, 4) as u32;
                if hdr.len() < 8 {
                    Err(ErrorV::Format("BTHHEADER is truncated"@))
                } else if hdr[0] != 0xB5 {
                    Err(
                        ErrorV::Format(
                            "BTHHEADER bType is 0x"@ + text::zero_padded(
                                text::hex(hdr[0] as nat),
                                2,
                            ) + ", expected 0xB5"@,
                        ),
                    )
                } else if root == 0 || hdr[1] == 0 || hdr[2] == 0 {
                    Ok(seq![])
                } else {
                    self.bth_tree(root, hdr[1] as int, hdr[2] as int, hdr[3] as nat)
                }
            },
        }
    }

    /// The leaf records under `hid`, `level` levels above the leaves.
    pub open spec fn bth_tree(self, hid: u32, cb_key: int, cb_ent: int, level: nat) -> Result<
        Seq<(Seq<u8>, Seq<u8>)>,
        ErrorV,
    >
        decreases level, 1int, 0int,
    {
        match self.item(hid) {
            Err(e) => Err(e),
            Ok(buf) => if level == 0 {
                Ok(leaf_records(buf, cb_key, cb_ent, (buf.len() as int / (cb_key + cb_ent)) as nat))
            } else {
                self.bth_children(buf, buf.len() as int / (cb_key + 4), cb_key, cb_ent, level)
            },
        }
    }

    /// The leaf records under the first `n` entries of an inner node.
    pub open spec fn bth_children(
        self,
        buf: Seq<u8>,
        n: int,
        cb_key: int,
        cb_ent: int,
        level: nat,
    ) -> Result<Seq<(Seq<u8>, Seq<u8>)>, ErrorV>
        decreases level, 0int, n,
    {
        if n <= 0 || level == 0 {
            Ok(seq![])
        } else {
            match self.bth_children(buf, n - 1, cb_key, cb_ent, level) {
                Err(e) => Err(e),
                Ok(a) => {
                    let child = bytes::le32(buf, (n - 1) * (cb_key + 4) + cb_key) as u32;
                    match self.bth_tree(child, cb_key, cb_ent, (level - 1) as nat) {
                        Err(e) => Err(e),
                        Ok(b) => Ok(a + b),
                    }
                },
            }
        }
    }

    proof fn lemma_bth_children_fail(
        self,
        buf: Seq<u8>,
        k: int,
        n: int,
        cb_key: int,
        cb_ent: int,
        level: nat,
    )
        requires
            k <= n,
            level > 0,
            self.bth_children(buf, k, cb_key, cb_ent, level) is Err,
        ensures
            self.bth_children(buf, n, cb_key, cb_ent, level) == self.bth_children(
                buf,
                k,
                cb_key,
                cb_ent,
                level,
            ),
        decreases n,
    {
        if k < n && n > 0 {
            self.lemma_bth_children_fail(buf, k, n - 1, cb_key, cb_ent, level);
        }
    }
}

/// The first `n` records of a leaf: a key and a value each, side by side.
pub open spec fn leaf_records(buf: Seq<u8>, cb_key: int, cb_ent: int, n: nat) -> Seq<
    (Seq<u8>, Seq<u8>),
> {
    let rec = cb_key + cb_ent;
    Seq::new(
        n,
        |i: int|
            (
                buf.subrange(i * rec, i * rec + cb_key),
                buf.subrange(i * rec + cb_key, i * rec + rec),
            ),
    )
}

/// The keys and values of a list of records.
pub open spec fn records(v: Seq<(Vec<u8>, Vec<u8>)>) -> Seq<(Seq<u8>, Seq<u8>)> {
    Seq::new(v.len(), |i: int| (v[i].0@, v[i].1@))
}

/// Heap-on-node: a byte heap spread over a node's data blocks.
pub struct Hn {
    pub blocks: Vec<Vec<u8>>,
    /// Per block, the allocation table (`rgibAlloc`).
    pub maps: Vec<Vec<u16>>,
    pub hid_block_shift: u32,
    pub client_sig: u8,
    pub hid_user_root: u32,
}

impl View for Hn {
    type V = HnV;

    open spec fn view(&self) -> HnV {
        HnV {
            blocks: bytes::each(self.blocks@),
            block_shift: self.hid_block_shift,
            client_sig: self.client_sig,
            hid_user_root: self.hid_user_root,
        }
    }
}

fn read_alloc_map(blk: &Vec<u8>) -> (r: Vec<u16>)
    ensures
        r@ == alloc_map(blk@),
{
    let mut rgib: Vec<u16> = Vec::new();
    let n: usize = blk.len();
    if n >= 2 {
        let ib_map: usize = u16le(blk.as_slice(), 0) as usize;
        if ib_map + 4 <= n {
            let c_alloc: usize = u16le(blk.as_slice(), ib_map) as usize;
            let mut k: usize = 0;
            while k <= c_alloc && n - ib_map - 4 >= 2 * k + 2
                invariant
                    n == blk@.len(),
                    n >= 2,
                    ib_map == bytes::le16(blk@, 0),
                    ib_map + 4 <= n,
                    c_alloc == bytes::le16(blk@, ib_map as int),
                    c_alloc <= 0xFFFF,
                    k <= alloc_len(blk@),
                    k <= c_alloc + 1,
                    rgib@ == alloc_map(blk@).take(k as int),
                decreases c_alloc + 1 - k,
            {
                rgib.push(u16le(blk.as_slice(), ib_map + 4 + k * 2));
                k = k + 1;
            }
            assert(alloc_map(blk@).take(k as int) =~= alloc_map(blk@));
        }
    }
    assert(rgib@ =~= alloc_map(blk@));
    rgib
}

impl Hn {
    /// The allocation tables are those of the blocks.
    pub open spec fn wf(&self) -> bool {
        &&& 5 <= self.hid_block_shift < 32
        &&& self.maps@.len() == self.blocks@.len()
        &&& forall|i: int|
            0 <= i < self.blocks@.len() ==> (#[trigger] self.maps@[i])@ == alloc_map(
                self.blocks@[i]@,
            )
    }

    /// Any shift is taken; those from 5 to 31 leave HIDs that can be resolved.
    pub fn parse(blocks: Vec<Vec<u8>>, hid_block_shift: u32) -> (r: Result<Hn, Error>)
        ensures
            match r {
                Ok(hn) => (5 <= hid_block_shift < 32 ==> hn.wf()) && heap(bytes::each(blocks@), hid_block_shift) == Ok::<
                    HnV,
                    ErrorV,
                >(hn@),
                Err(e) => heap(bytes::each(blocks@), hid_block_shift) == Err::<HnV, ErrorV>(e@),
            },
    {
        if blocks.len() == 0 {
            return Err(Error::Format("heap node has no blocks".to_owned()));
        }
        if blocks[0].len() < 12 {
            return Err(Error::Format("first heap block is truncated".to_owned()));
        }
        let sig: u8 = blocks[0][2];
        if sig != 0xEC {
            let shown: String = text::zero_pad(text::hex_string(sig as u64).as_str(), 2);
            return Err(
                Error::Format(text::cat3("HNHDR bSig is 0x", shown.as_str(), ", expected 0xEC")),
            );
        }
        let client_sig: u8 = blocks[0][3];
        let hid_user_root: u32 = u32le(blocks[0].as_slice(), 4);
        let mut maps: Vec<Vec<u16>> = Vec::new();
        let mut i: usize = 0;
        while i < blocks.len()
            invariant
                i <= blocks@.len(),
                maps@.len() == i,
                forall|k: int| 0 <= k < i ==> (#[trigger] maps@[k])@ == alloc_map(blocks@[k]@),
            decreases blocks@.len() - i,
        {
            maps.push(read_alloc_map(&blocks[i]));
            i = i + 1;
        }
        Ok(Hn { blocks, maps, hid_block_shift, client_sig, hid_user_root })
    }

    /// Resolve a HID to its heap allocation.
    ///
    /// HID layout: bits 0-4 are the type (0 for a HID), then the 1-based index
    /// into the block's allocation map, then the block index.
    pub fn item(&self, hid: u32) -> (r: Result<&[u8], Error>)
        requires
            self.wf(),
        ensures
            match r {
                Ok(s) => self@.item(hid) == Ok::<Seq<u8>, ErrorV>(s@),
                Err(e) => self@.item(hid) == Err::<Seq<u8>, ErrorV>(e@),
            },
    {
        if hid % 32 != 0 {
            let shown: String = text::zero_pad(text::hex_string(hid as u64).as_str(), 8);
            return Err(Error::Format(text::cat3("0x", shown.as_str(), " is not a HID")));
        }
        let (idx, blk_i) = hid_parts(hid, self.hid_block_shift);
        if idx == 0 {
            return Err(Error::Format("hidIndex 0 is reserved".to_owned()));
        }
        if blk_i >= self.blocks.len() {
            return Err(
                Error::Format(
                    text::cat3(
                        "HID block index ",
                        text::dec_string(blk_i as u64).as_str(),
                        " is out of range",
                    ),
                ),
            );
        }
        let blk: &Vec<u8> = &self.blocks[blk_i];
        let map: &Vec<u16> = &self.maps[blk_i];
        if idx >= map.len() {
            let head: String = text::cat3(
                "hidIndex ",
                text::dec_string(idx as u64).as_str(),
                " is beyond a ",
            );
            return Err(
                Error::Format(
                    text::cat3(
                        head.as_str(),
                        text::dec_string(map.len() as u64).as_str(),
                        "-entry allocation map",
                    ),
                ),
            );
        }
        let s: usize = map[idx - 1] as usize;
        let e: usize = map[idx] as usize;
        if s > e || e > blk.len() {
            return Err(Error::Format("heap item runs outside its block".to_owned()));
        }
        Ok(vstd::slice::slice_subrange(blk.as_slice(), s, e))
    }
}

/// Walk a heap BTree and return every leaf record as `(key, data)`.
pub fn bth_records(hn: &Hn, hid_root: u32) -> (r: Result<Vec<(Vec<u8>, Vec<u8>)>, Error>)
    requires
        hn.wf(),
    ensures
        match r {
            Ok(v) => hn@.bth_records(hid_root) == Ok::<Seq<(Seq<u8>, Seq<u8>)>, ErrorV>(
                records(v@),
            ),
            Err(e) => hn@.bth_records(hid_root) == Err::<Seq<(Seq<u8>, Seq<u8>)>, ErrorV>(e@),
        },
{
    let hdr: &[u8] = hn.item(hid_root)?;
    if hdr.len() < 8 {
        return Err(Error::Format("BTHHEADER is truncated".to_owned()));
    }
    if hdr[0] != 0xB5 {
        let shown: String = text::zero_pad(text::hex_string(hdr[0] as u64).as_str(), 2);
        return Err(
            Error::Format(text::cat3("BTHHEADER bType is 0x", shown.as_str(), ", expected 0xB5")),
        );
    }
    let cb_key: usize = hdr[1] as usize;
    let cb_ent: usize = hdr[2] as usize;
    let levels: u8 = hdr[3];
    let root: u32 = u32le(hdr, 4);
    let mut out: Vec<(Vec<u8>, Vec<u8>)> = Vec::new();
    assert(records(out@) =~= seq![]);
    if root != 0 && cb_key != 0 && cb_ent != 0 {
        bth_walk(hn, root, cb_key, cb_ent, levels, &mut out)?;
        assert(records(out@) =~= hn@.bth_records(hid_root)->Ok_0);
    }
    Ok(out)
}

fn bth_walk(
    hn: &Hn,
    hid: u32,
    cb_key: usize,
    cb_ent: usize,
    level: u8,
    out: &mut Vec<(Vec<u8>, Vec<u8>)>,
) -> (r: Result<(), Error>)
    requires
        hn.wf(),
        0 < cb_key <= 0xFF,
        0 < cb_ent <= 0xFF,
    ensures
        match r {
            Ok(_) => hn@.bth_tree(hid, cb_key as int, cb_ent as int, level as nat) matches Ok(more)
                && records(final(out)@) == records(old(out)@) + more,
            Err(e) => hn@.bth_tree(hid, cb_key as int, cb_ent as int, level as nat) == Err::<
                Seq<(Seq<u8>, Seq<u8>)>,
                ErrorV,
            >(e@),
        },
    decreases level,
{
    let buf: &[u8] = hn.item(hid)?;
    let ghost start = records(out@);
    let mut i: usize = 0;
    if level == 0 {
        let rec: usize = cb_key + cb_ent;
        let n: usize = buf.len() / rec;
        assert(n * rec <= buf@.len()) by (nonlinear_arith)
            requires
                n == buf@.len() as int / (rec as int),
                rec > 0,
        ;
        assert(start + leaf_records(buf@, cb_key as int, cb_ent as int, 0) =~= start);
        while i < n
            invariant
                i <= n,
                rec == cb_key + cb_ent,
                cb_key <= 0xFF,
                cb_ent <= 0xFF,
                n * rec <= buf@.len() <= usize::MAX,
                records(out@) == start + leaf_records(
                    buf@,
                    cb_key as int,
                    cb_ent as int,
                    i as nat,
                ),
            decreases n - i,
        {
            assert(i * rec + rec <= n * rec) by (nonlinear_arith)
                requires
                    i < n,
            ;
            let o: usize = i * rec;
            let key: Vec<u8> = bytes::copy_range(buf, o, o + cb_key);
            let data: Vec<u8> = bytes::copy_range(buf, o + cb_key, o + rec);
            let ghost before = records(out@);
            let ghost added = (key@, data@);
            out.push((key, data));
            proof {
                let so_far = leaf_records(buf@, cb_key as int, cb_ent as int, i as nat);
                let next = leaf_records(buf@, cb_key as int, cb_ent as int, (i + 1) as nat);
                assert(records(out@) =~= before.push(added));
                assert(next =~= so_far.push(added));
                assert((start + so_far).push(added) =~= start + so_far.push(added));
            }
            i = i + 1;
        }
    } else {
        let rec: usize = cb_key + 4;
        let n: usize = buf.len() / rec;
        assert(n * rec <= buf@.len()) by (nonlinear_arith)
            requires
                n == buf@.len() as int / (rec as int),
                rec > 0,
        ;
        let ghost mut seen: Seq<(Seq<u8>, Seq<u8>)> = seq![];
        assert(start + seen =~= start);
        while i < n
            invariant
                hn.wf(),
                0 < cb_key <= 0xFF,
                0 < cb_ent <= 0xFF,
                level > 0,
                i <= n,
                rec == cb_key + 4,
                n * rec <= buf@.len() <= usize::MAX,
                hn@.bth_tree(hid, cb_key as int, cb_ent as int, level as nat) == hn@.bth_children(
                    buf@,
                    n as int,
                    cb_key as int,
                    cb_ent as int,
                    level as nat,
                ),
                hn@.bth_children(buf@, i as int, cb_key as int, cb_ent as int, level as nat)
                    == Ok::<Seq<(Seq<u8>, Seq<u8>)>, ErrorV>(seen),
                records(out@) == start + seen,
            decreases n - i,
        {
            assert(i * rec + rec <= n * rec) by (nonlinear_arith)
                requires
                    i < n,
            ;
            let child: u32 = u32le(buf, i * rec + cb_key);
            match bth_walk(hn, child, cb_key, cb_ent, level - 1, out) {
                Ok(_) => {
                    proof {
                        let more = hn@.bth_tree(
                            child,
                            cb_key as int,
                            cb_ent as int,
                            (level - 1) as nat,
                        )->Ok_0;
                        assert((start + seen) + more =~= start + (seen + more));
                        seen = seen + more;
                    }
                },
                Err(e) => {
                    proof {
                        hn@.lemma_bth_children_fail(
                            buf@,
                            i + 1,
                            n as int,
                            cb_key as int,
                            cb_ent as int,
                            level as nat,
                        );
                    }
                    return Err(e);
                },
            }
            i = i + 1;
        }
    }
    Ok(())
}

/// The bytes that an HNID names: a HID into the local heap, or a NID into the
/// node's subnodes for values too large to keep on the heap.
pub open spec fn resolved(
    pff: PffV,
    hn: HnV,
    subs: Map<u32, (u64, u64)>,
    hnid: u32,
) -> Option<Seq<u8>> {
    if hnid == 0 {
        None
    } else if hnid % 32 == 0 {
        hn.item(hnid).ok()
    } else if subs.contains_key(hnid) {
        pff.data_flat(subs[hnid].0).ok()
    } else {
        None
    }
}

fn resolve_hnid(pff: &Pff, hn: &Hn, subs: &HashMap<u32, (u64, u64)>, hnid: u32) -> (r: Option<
    Vec<u8>,
>)
    requires
        hn.wf(),
    ensures
        bytes::opt_bytes(r) == resolved(pff@, hn@, subs@, hnid),
{
    if hnid == 0 {
        return None;
    }
    if hnid % 32 == 0 {
        match hn.item(hnid) {
            Ok(s) => Some(bytes::copy_range(s, 0, s.len())),
            Err(_) => None,
        }
    } else {
        match subs.get(&hnid) {
            Some(entry) => match pff.data_flat(entry.0) {
                Ok(v) => Some(v),
                Err(_) => None,
            },
            None => None,
        }
    }
}

#[derive(Clone, Copy, Debug)]
pub struct Prop {
    pub id: u16,
    pub ptype: u16,
    /// Either an inline value (types of 4 bytes or fewer) or an HNID.
    pub raw: u32,
}

/// Properties are ordered and found by their identifier.
pub open spec fn prop_key() -> spec_fn(Prop) -> int {
    |p: Prop| p.id as int
}

/// The property that a heap record holds: its identifier is the key, its type and
/// value the data.
pub open spec fn prop_of(rec: (Seq<u8>, Seq<u8>)) -> Prop {
    Prop {
        id: bytes::le16(rec.0, 0) as u16,
        ptype: bytes::le16(rec.1, 0) as u16,
        raw: bytes::le32(rec.1, 2) as u32,
    }
}

/// The properties of the records that are long enough to hold one.
pub open spec fn props_of(recs: Seq<(Seq<u8>, Seq<u8>)>) -> Seq<Prop>
    decreases recs.len(),
{
    if recs.len() == 0 {
        seq![]
    } else if recs.last().0.len() >= 2 && recs.last().1.len() >= 6 {
        props_of(recs.drop_last()).push(prop_of(recs.last()))
    } else {
        props_of(recs.drop_last())
    }
}

/// A 32-bit pattern as a signed number.
pub open spec fn as_i32(raw: u32) -> i32 {
    if raw < 0x8000_0000 {
        raw as i32
    } else {
        (raw - 0x1_0000_0000) as i32
    }
}

fn signed_32(raw: u32) -> (r: i32)
    ensures
        r == as_i32(raw),
{
    if raw < 0x8000_0000 {
        raw as i32
    } else {
        (raw as i64 - 0x1_0000_0000) as i32
    }
}

/// A property context: a store, the heap and subnodes of one of its nodes, and
/// the properties found there.
pub struct PcV {
    pub pff: PffV,
    pub hn: HnV,
    pub subs: Map<u32, (u64, u64)>,
    pub props: Seq<Prop>,
}

/// A heap with its subnodes, of the kind that `client_sig` marks.
pub open spec fn context(
    pff: PffV,
    bid_data: u64,
    bid_sub: u64,
    client_sig: u8,
    not_one: Seq<char>,
) -> Result<(HnV, Map<u32, (u64, u64)>), ErrorV> {
    match pff.data_blocks(bid_data) {
        Err(e) => Err(e),
        Ok(blocks) => match heap(blocks, pff.geom.hid_block_shift) {
            Err(e) => Err(e),
            Ok(hn) => if hn.client_sig != client_sig {
                Err(
                    ErrorV::Format(
                        "bClientSig is 0x"@ + text::zero_padded(text::hex(hn.client_sig as nat), 2)
                            + not_one,
                    ),
                )
            } else {
                match pff.subnodes(bid_sub) {
                    Err(e) => Err(e),
                    Ok(subs) => Ok((hn, subs)),
                }
            },
        },
    }
}

/// The property context on the given blocks.
pub open spec fn pc_at(pff: PffV, bid_data: u64, bid_sub: u64) -> Result<PcV, ErrorV> {
    match context(pff, bid_data, bid_sub, 0xBC, ", not a property context (0xBC)"@) {
        Err(e) => Err(e),
        Ok((hn, subs)) => match hn.bth_records(hn.hid_user_root) {
            Err(e) => Err(e),
            Ok(recs) => Ok(
                PcV { pff, hn, subs, props: order::sorted_by(props_of(recs), prop_key()) },
            ),
        },
    }
}

/// The property context of a node.
pub open spec fn pc_of(pff: PffV, nid: u32) -> Result<PcV, ErrorV> {
    match pff.node(nid) {
        Err(e) => Err(e),
        Ok(n) => pc_at(pff, n.bid_data, n.bid_sub),
    }
}

impl PcV {
    /// The first property with this identifier.
    pub open spec fn prop(self, id: u16) -> Option<Prop> {
        order::first_with(self.props, prop_key(), id as int)
    }

    /// The bytes that a property's value names.
    pub open spec fn bytes(self, id: u16) -> Option<Seq<u8>> {
        match self.prop(id) {
            Some(p) => resolved(self.pff, self.hn, self.subs, p.raw),
            None => None,
        }
    }

    /// The text of a property that is a string.
    pub open spec fn string(self, id: u16) -> Option<Seq<char>> {
        match self.prop(id) {
            Some(p) => if p.ptype == PT_UNICODE || p.ptype == PT_STRING8 {
                match self.bytes(id) {
                    Some(b) => Some(props::string_value(p.ptype, b)),
                    None => None,
                }
            } else {
                None
            },
            None => None,
        }
    }

    /// The text of a property that is a string or UTF-8 bytes.
    pub open spec fn text(self, id: u16) -> Option<Seq<char>> {
        match self.prop(id) {
            Some(p) => if p.ptype == PT_UNICODE || p.ptype == PT_STRING8 || p.ptype == PT_BINARY {
                match self.bytes(id) {
                    Some(b) => Some(props::string_value(p.ptype, b)),
                    None => None,
                }
            } else {
                None
            },
            None => None,
        }
    }

    pub open spec fn int32(self, id: u16) -> Option<i32> {
        match self.prop(id) {
            Some(p) => Some(as_i32(p.raw)),
            None => None,
        }
    }

    pub open spec fn flag(self, id: u16) -> Option<bool> {
        match self.prop(id) {
            Some(p) => Some(p.raw != 0),
            None => None,
        }
    }

    pub open spec fn uint64(self, id: u16) -> Option<u64> {
        match self.bytes(id) {
            Some(b) => if b.len() >= 8 {
                Some(bytes::le64(b, 0) as u64)
            } else {
                None
            },
            None => None,
        }
    }
}

/// A property context: a node whose heap holds a BTH of property values.
pub struct Pc<'a> {
    pub pff: &'a Pff<'a>,
    pub hn: Hn,
    pub subs: HashMap<u32, (u64, u64)>,
    pub props: Vec<Prop>,
}

impl<'a> View for Pc<'a> {
    type V = PcV;

    open spec fn view(&self) -> PcV {
        PcV { pff: self.pff@, hn: self.hn@, subs: self.subs@, props: self.props@ }
    }
}

fn sort_key(p: &Prop) -> (r: i128)
    ensures
        r == prop_key()(*p),
{
    p.id as i128
}

/// The properties of a list of records, in the order of their identifiers.
fn read_props(recs: &Vec<(Vec<u8>, Vec<u8>)>) -> (r: Vec<Prop>)
    ensures
        r@ == order::sorted_by(props_of(records(recs@)), prop_key()),
{
    let mut found: Vec<Prop> = Vec::new();
    let ghost all = records(recs@);
    let mut i: usize = 0;
    assert(all.take(0) =~= seq![]);
    while i < recs.len()
        invariant
            i <= recs@.len(),
            all == records(recs@),
            found@ == props_of(all.take(i as int)),
        decreases recs@.len() - i,
    {
        let rec: &(Vec<u8>, Vec<u8>) = &recs[i];
        assert(all.take(i + 1).drop_last() =~= all.take(i as int));
        assert(all.take(i + 1).last() == (rec.0@, rec.1@));
        if rec.0.len() >= 2 && rec.1.len() >= 6 {
            found.push(
                Prop {
                    id: u16le(rec.0.as_slice(), 0),
                    ptype: u16le(rec.1.as_slice(), 0),
                    raw: u32le(rec.1.as_slice(), 2),
                },
            );
        }
        i = i + 1;
    }
    assert(all.take(i as int) =~= all);
    order::sort_by_key(found, sort_key, Ghost(prop_key()))
}

impl<'a> Pc<'a> {
    pub open spec fn wf(&self) -> bool {
        self.hn.wf()
    }

    pub fn open(pff: &'a Pff<'a>, nid: u32) -> (r: Result<Pc<'a>, Error>)
        requires
            pff.wf(),
        ensures
            match r {
                Ok(pc) => pc.wf() && pc_of(pff@, nid) == Ok::<PcV, ErrorV>(pc@),
                Err(e) => pc_of(pff@, nid) == Err::<PcV, ErrorV>(e@),
            },
    {
        let n: crate::ost::ndb::Node = pff.node(nid)?;
        Pc::open_at(pff, n.bid_data, n.bid_sub)
    }

    pub fn open_at(pff: &'a Pff<'a>, bid_data: u64, bid_sub: u64) -> (r: Result<Pc<'a>, Error>)
        requires
            pff.wf(),
        ensures
            match r {
                Ok(pc) => pc.wf() && pc_at(pff@, bid_data, bid_sub) == Ok::<PcV, ErrorV>(pc@),
                Err(e) => pc_at(pff@, bid_data, bid_sub) == Err::<PcV, ErrorV>(e@),
            },
    {
        let hn: Hn = Hn::parse(pff.data_blocks(bid_data)?, pff.geom.hid_block_shift)?;
        if hn.client_sig != 0xBC {
            let shown: String = text::zero_pad(text::hex_string(hn.client_sig as u64).as_str(), 2);
            return Err(
                Error::Format(
                    text::cat3(
                        "bClientSig is 0x",
                        shown.as_str(),
                        ", not a property context (0xBC)",
                    ),
                ),
            );
        }
        let subs: HashMap<u32, (u64, u64)> = pff.subnodes(bid_sub)?;
        let recs: Vec<(Vec<u8>, Vec<u8>)> = bth_records(&hn, hn.hid_user_root)?;
        let props: Vec<Prop> = read_props(&recs);
        Ok(Pc { pff, hn, subs, props })
    }

    pub fn prop(&self, id: u16) -> (r: Option<Prop>)
        ensures
            r == self@.prop(id),
    {
        let mut i: usize = 0;
        while i < self.props.len()
            invariant
                i <= self.props@.len(),
                forall|k: int| 0 <= k < i ==> prop_key()(#[trigger] self.props@[k]) != id,
            decreases self.props@.len() - i,
        {
            if self.props[i].id == id {
                proof {
                    order::lemma_first_with_at(self.props@, prop_key(), id as int, i as int);
                }
                return Some(self.props[i]);
            }
            i = i + 1;
        }
        proof {
            order::lemma_first_with_absent(self.props@, prop_key(), id as int);
        }
        None
    }

    /// Raw bytes of a variable-length property.
    pub fn bytes(&self, id: u16) -> (r: Option<Vec<u8>>)
        requires
            self.wf(),
        ensures
            bytes::opt_bytes(r) == self@.bytes(id),
    {
        let p: Prop = self.prop(id)?;
        resolve_hnid(self.pff, &self.hn, &self.subs, p.raw)
    }

    pub fn string(&self, id: u16) -> (r: Option<String>)
        requires
            self.wf(),
        ensures
            text::opt_text(r) == self@.string(id),
    {
        let p: Prop = self.prop(id)?;
        if p.ptype != PT_UNICODE && p.ptype != PT_STRING8 {
            return None;
        }
        let b: Vec<u8> = resolve_hnid(self.pff, &self.hn, &self.subs, p.raw)?;
        Some(decode_string(p.ptype, b.as_slice()))
    }

    /// A string property, or a binary one decoded as UTF-8. `PidTagHtml` is
    /// declared `PT_BINARY` in practice even though it holds text.
    pub fn text(&self, id: u16) -> (r: Option<String>)
        requires
            self.wf(),
        ensures
            text::opt_text(r) == self@.text(id),
    {
        let p: Prop = self.prop(id)?;
        let b: Vec<u8> = resolve_hnid(self.pff, &self.hn, &self.subs, p.raw)?;
        if p.ptype == PT_UNICODE || p.ptype == PT_STRING8 || p.ptype == PT_BINARY {
            Some(decode_string(p.ptype, b.as_slice()))
        } else {
            None
        }
    }

    pub fn i32(&self, id: u16) -> (r: Option<i32>)
        ensures
            r == self@.int32(id),
    {
        match self.prop(id) {
            Some(p) => Some(signed_32(p.raw)),
            None => None,
        }
    }

    pub fn bool(&self, id: u16) -> (r: Option<bool>)
        ensures
            r == self@.flag(id),
    {
        match self.prop(id) {
            Some(p) => Some(p.raw != 0),
            None => None,
        }
    }

    /// 8-byte values live off-heap in a property context, unlike in a table row.
    pub fn u64(&self, id: u16) -> (r: Option<u64>)
        requires
            self.wf(),
        ensures
            r == self@.uint64(id),
    {
        let b: Vec<u8> = self.bytes(id)?;
        if b.len() >= 8 {
            Some(u64le(b.as_slice(), 0))
        } else {
            None
        }
    }
}

/// Opening a property context finds for each identifier the first record that
/// carries it, and lists the properties by identifier.
pub proof fn lemma_props_found_in_record_order(recs: Seq<(Seq<u8>, Seq<u8>)>, id: u16)
    ensures
        order::first_with(order::sorted_by(props_of(recs), prop_key()), prop_key(), id as int)
            == order::first_with(props_of(recs), prop_key(), id as int),
        forall|i: int, j: int|
            0 <= i <= j < props_of(recs).len() ==> (#[trigger] order::sorted_by(
                props_of(recs),
                prop_key(),
            )[i]).id <= (#[trigger] order::sorted_by(props_of(recs), prop_key())[j]).id,
{
    order::lemma_sorting_is_stable(props_of(recs), prop_key(), id as int);
    order::lemma_sorted_by(props_of(recs), prop_key());
    let s = order::sorted_by(props_of(recs), prop_key());
    assert forall|i: int, j: int| 0 <= i <= j < props_of(recs).len() implies (#[trigger] s[i]).id
        <= (#[trigger] s[j]).id by {
        assert(prop_key()(s[i]) <= prop_key()(s[j]));
    }
}

#[derive(Clone, Copy, Debug)]
pub struct TcCol {
    pub tag: u32,
    pub ib: usize,
    pub cb: usize,
    /// This column's bit in each row's cell existence bitmap.
    pub i_bit: u8,
}

impl TcCol {
    /// The property that the column holds: the upper half of its tag.
    pub open spec fn prop_id(self) -> u16 {
        (self.tag / 0x1_0000) as u16
    }

    /// The type of the column's cells: the lower half of its tag.
    pub open spec fn prop_type(self) -> u16 {
        (self.tag % 0x1_0000) as u16
    }

    pub fn id(&self) -> (r: u16)
        ensures
            r == self.prop_id(),
            r == self.tag as int / 0x1_0000,
    {
        (self.tag / 0x1_0000) as u16
    }

    pub fn ptype(&self) -> (r: u16)
        ensures
            r == self.prop_type(),
            r == self.tag as int % 0x1_0000,
    {
        (self.tag % 0x1_0000) as u16
    }
}

/// Columns are found by the property that they hold.
pub open spec fn col_key() -> spec_fn(TcCol) -> int {
    |c: TcCol| c.prop_id() as int
}

/// The column descriptors of a TCINFO: 8 bytes each from byte 22 on, as many as
/// are announced and fit.
pub open spec fn columns(info: Seq<u8>) -> Seq<TcCol> {
    let fit = (info.len() - 22) / 8;
    let n = if info[1] <= fit {
        info[1] as int
    } else {
        fit
    };
    Seq::new(
        n as nat,
        |i: int|
            TcCol {
                tag: bytes::le32(info, 22 + i * 8) as u32,
                ib: bytes::le16(info, 22 + i * 8 + 4) as usize,
                cb: info[22 + i * 8 + 6] as usize,
                i_bit: info[22 + i * 8 + 7],
            },
    )
}

/// The first `n` rows of a block, one after the other.
pub open spec fn block_rows(blk: Seq<u8>, row_size: int, n: nat) -> Seq<Seq<u8>> {
    Seq::new(n, |i: int| blk.subrange(i * row_size, i * row_size + row_size))
}

/// The rows of a row matrix. Rows never straddle a block: what is left over at
/// the end of one is no row.
pub open spec fn matrix_rows(blocks: Seq<Seq<u8>>, row_size: int) -> Seq<Seq<u8>>
    decreases blocks.len(),
{
    if blocks.len() == 0 {
        seq![]
    } else {
        matrix_rows(blocks.drop_last(), row_size) + block_rows(
            blocks.last(),
            row_size,
            (blocks.last().len() as int / row_size) as nat,
        )
    }
}

/// A table context: the heap and subnodes of a node, its columns and its rows.
pub struct TcV {
    pub pff: PffV,
    pub hn: HnV,
    pub subs: Map<u32, (u64, u64)>,
    pub cols: Seq<TcCol>,
    pub row_size: int,
    pub ceb_start: int,
    pub rows: Seq<Seq<u8>>,
}

/// The blocks of a row matrix: a heap item or, once it outgrows the heap, a
/// subnode whose data tree spans many blocks.
pub open spec fn matrix(
    pff: PffV,
    hn: HnV,
    subs: Map<u32, (u64, u64)>,
    hnid_rows: u32,
    row_size: int,
) -> Result<Seq<Seq<u8>>, ErrorV> {
    if hnid_rows == 0 || row_size == 0 {
        Ok(seq![])
    } else if hnid_rows % 32 == 0 {
        match hn.item(hnid_rows) {
            Ok(b) => Ok(seq![b]),
            Err(e) => Err(e),
        }
    } else if subs.contains_key(hnid_rows) {
        pff.data_blocks(subs[hnid_rows].0)
    } else {
        Err(
            ErrorV::Format(
                "hnidRows 0x"@ + text::zero_padded(text::hex(hnid_rows as nat), 8)
                    + " is not a subnode"@,
            ),
        )
    }
}

/// The table context on the given blocks.
pub open spec fn tc_at(pff: PffV, bid_data: u64, bid_sub: u64) -> Result<TcV, ErrorV> {
    match context(pff, bid_data, bid_sub, 0x7C, ", not a table context (0x7C)"@) {
        Err(e) => Err(e),
        Ok((hn, subs)) => match hn.item(hn.hid_user_root) {
            Err(e) => Err(e),
            Ok(info) => if info.len() < 22 || info[0] != 0x7C {
                Err(ErrorV::Format("TCINFO is truncated or mistyped"@))
            } else {
                let row_size = bytes::le16(info, 8);
                match matrix(pff, hn, subs, bytes::le32(info, 14) as u32, row_size) {
                    Err(e) => Err(e),
                    Ok(blocks) => Ok(
                        TcV {
                            pff,
                            hn,
                            subs,
                            cols: columns(info),
                            row_size,
                            ceb_start: bytes::le16(info, 6),
                            rows: matrix_rows(blocks, row_size),
                        },
                    ),
                }
            },
        },
    }
}

/// The table context of a node.
pub open spec fn tc_of(pff: PffV, nid: u32) -> Result<TcV, ErrorV> {
    match pff.node(nid) {
        Err(e) => Err(e),
        Ok(n) => tc_at(pff, n.bid_data, n.bid_sub),
    }
}

/// `dwRowID`: the first 4 bytes of a row.
pub open spec fn row_id_of(row: Seq<u8>) -> u32 {
    if row.len() >= 4 {
        bytes::le32(row, 0) as u32
    } else {
        0
    }
}

impl TcV {
    /// The column of a property, if the table has one that fits in a row.
    pub open spec fn col(self, id: u16) -> Option<TcCol> {
        match order::first_with(self.cols, col_key(), id as int) {
            Some(c) => if c.ib + c.cb <= self.row_size {
                Some(c)
            } else {
                None
            },
            None => None,
        }
    }

    /// A column's bit in the row's cell existence bitmap, which is big-endian
    /// within each byte. Where the row leaves no room for the bitmap there is
    /// nothing to test and the cell counts as set.
    pub open spec fn is_set(self, row: Seq<u8>, c: TcCol) -> bool {
        let i = self.ceb_start + c.i_bit as int / 8;
        i < row.len() ==> (row[i] as int / (pow2((7 - c.i_bit as int % 8) as nat) as int)) % 2 == 1
    }

    /// The column of a property, if this row has a value for it.
    pub open spec fn cell(self, row: Seq<u8>, id: u16) -> Option<TcCol> {
        match self.col(id) {
            Some(c) => if self.is_set(row, c) {
                Some(c)
            } else {
                None
            },
            None => None,
        }
    }

    /// The four bytes of a cell.
    pub open spec fn word(self, row: Seq<u8>, id: u16) -> Option<u32> {
        match self.cell(row, id) {
            Some(c) => if c.ib + 4 <= row.len() {
                Some(bytes::le32(row, c.ib as int) as u32)
            } else {
                None
            },
            None => None,
        }
    }

    pub open spec fn bytes(self, row: Seq<u8>, id: u16) -> Option<Seq<u8>> {
        match self.word(row, id) {
            Some(hnid) => resolved(self.pff, self.hn, self.subs, hnid),
            None => None,
        }
    }

    pub open spec fn string(self, row: Seq<u8>, id: u16) -> Option<Seq<char>> {
        match self.bytes(row, id) {
            Some(b) => Some(props::string_value(self.col(id)->Some_0.prop_type(), b)),
            None => None,
        }
    }

    pub open spec fn int32(self, row: Seq<u8>, id: u16) -> Option<i32> {
        match self.word(row, id) {
            Some(raw) => Some(as_i32(raw)),
            None => None,
        }
    }

    pub open spec fn flag(self, row: Seq<u8>, id: u16) -> Option<bool> {
        match self.cell(row, id) {
            Some(c) => if c.ib < row.len() {
                Some(row[c.ib as int] != 0)
            } else {
                None
            },
            None => None,
        }
    }

    pub open spec fn uint64(self, row: Seq<u8>, id: u16) -> Option<u64> {
        match self.cell(row, id) {
            Some(c) => if c.cb >= 8 && c.ib + 8 <= row.len() {
                Some(bytes::le64(row, c.ib as int) as u64)
            } else {
                None
            },
            None => None,
        }
    }
}

/// No accessor reads a cell whose existence bit is clear: the bytes of an unset
/// cell are whatever was there before.
pub proof fn lemma_absent_cell_is_never_read(tc: TcV, row: Seq<u8>, id: u16)
    requires
        tc.col(id) matches Some(c) ==> !tc.is_set(row, c),
    ensures
        tc.bytes(row, id) is None,
        tc.string(row, id) is None,
        tc.int32(row, id) is None,
        tc.flag(row, id) is None,
        tc.uint64(row, id) is None,
{
}

/// A table context: a row matrix plus its column descriptors.
pub struct Tc<'a> {
    pub pff: &'a Pff<'a>,
    pub hn: Hn,
    pub subs: HashMap<u32, (u64, u64)>,
    pub cols: Vec<TcCol>,
    pub row_size: usize,
    /// Offset within a row where the cell existence bitmap begins; it runs to
    /// `row_size`.
    pub ceb_start: usize,
    pub rows: Vec<Vec<u8>>,
}

impl<'a> View for Tc<'a> {
    type V = TcV;

    open spec fn view(&self) -> TcV {
        TcV {
            pff: self.pff@,
            hn: self.hn@,
            subs: self.subs@,
            cols: self.cols@,
            row_size: self.row_size as int,
            ceb_start: self.ceb_start as int,
            rows: bytes::each(self.rows@),
        }
    }
}

fn read_columns(info: &[u8]) -> (r: Vec<TcCol>)
    requires
        info@.len() >= 22,
    ensures
        r@ == columns(info@),
{
    let c_cols: usize = info[1] as usize;
    let fit: usize = (info.len() - 22) / 8;
    let n: usize = if c_cols <= fit {
        c_cols
    } else {
        fit
    };
    let mut cols: Vec<TcCol> = Vec::new();
    let mut i: usize = 0;
    while i < n
        invariant
            i <= n,
            n <= 0xFF,
            22 + n * 8 <= info@.len(),
            n == columns(info@).len(),
            cols@ == columns(info@).take(i as int),
        decreases n - i,
    {
        let o: usize = 22 + i * 8;
        cols.push(
            TcCol {
                tag: u32le(info, o),
                ib: u16le(info, o + 4) as usize,
                cb: info[o + 6] as usize,
                i_bit: info[o + 7],
            },
        );
        i = i + 1;
    }
    assert(columns(info@).take(i as int) =~= columns(info@));
    cols
}

fn read_rows(blocks: &Vec<Vec<u8>>, row_size: usize) -> (r: Vec<Vec<u8>>)
    requires
        0 < row_size <= 0xFFFF,
    ensures
        bytes::each(r@) == matrix_rows(bytes::each(blocks@), row_size as int),
{
    let mut rows: Vec<Vec<u8>> = Vec::new();
    let ghost all = bytes::each(blocks@);
    let mut j: usize = 0;
    assert(all.take(0) =~= seq![]);
    assert(bytes::each(rows@) =~= seq![]);
    while j < blocks.len()
        invariant
            0 < row_size <= 0xFFFF,
            j <= blocks@.len(),
            all == bytes::each(blocks@),
            bytes::each(rows@) == matrix_rows(all.take(j as int), row_size as int),
        decreases blocks@.len() - j,
    {
        let blk: &Vec<u8> = &blocks[j];
        let ghost before = bytes::each(rows@);
        let n: usize = blk.len() / row_size;
        assert(n * row_size <= blk@.len()) by (nonlinear_arith)
            requires
                n == blk@.len() as int / (row_size as int),
                row_size > 0,
        ;
        let mut i: usize = 0;
        assert(before + block_rows(blk@, row_size as int, 0) =~= before);
        while i < n
            invariant
                i <= n,
                row_size <= 0xFFFF,
                n * row_size <= blk@.len() <= usize::MAX,
                bytes::each(rows@) == before + block_rows(blk@, row_size as int, i as nat),
            decreases n - i,
        {
            assert(i * row_size + row_size <= n * row_size) by (nonlinear_arith)
                requires
                    i < n,
            ;
            let row: Vec<u8> = bytes::copy_range(
                blk.as_slice(),
                i * row_size,
                i * row_size + row_size,
            );
            let ghost so_far = bytes::each(rows@);
            let ghost added = row@;
            rows.push(row);
            proof {
                let now = block_rows(blk@, row_size as int, i as nat);
                let next = block_rows(blk@, row_size as int, (i + 1) as nat);
                assert(bytes::each(rows@) =~= so_far.push(added));
                assert(next =~= now.push(added));
                assert((before + now).push(added) =~= before + now.push(added));
            }
            i = i + 1;
        }
        assert(all.take(j + 1).drop_last() =~= all.take(j as int));
        j = j + 1;
    }
    assert(all.take(j as int) =~= all);
    rows
}

impl<'a> Tc<'a> {
    pub open spec fn wf(&self) -> bool {
        &&& self.hn.wf()
        &&& self.row_size <= 0xFFFF
        &&& self.ceb_start <= 0xFFFF
        &&& forall|i: int|
            0 <= i < self.cols@.len() ==> (#[trigger] self.cols@[i]).ib <= 0xFFFF && self.cols@[i].cb
                <= 0xFF
    }

    pub fn open(pff: &'a Pff<'a>, nid: u32) -> (r: Result<Tc<'a>, Error>)
        requires
            pff.wf(),
        ensures
            match r {
                Ok(tc) => tc.wf() && tc_of(pff@, nid) == Ok::<TcV, ErrorV>(tc@),
                Err(e) => tc_of(pff@, nid) == Err::<TcV, ErrorV>(e@),
            },
    {
        let n: crate::ost::ndb::Node = pff.node(nid)?;
        Tc::open_at(pff, n.bid_data, n.bid_sub)
    }

    pub fn open_at(pff: &'a Pff<'a>, bid_data: u64, bid_sub: u64) -> (r: Result<Tc<'a>, Error>)
        requires
            pff.wf(),
        ensures
            match r {
                Ok(tc) => tc.wf() && tc_at(pff@, bid_data, bid_sub) == Ok::<TcV, ErrorV>(tc@),
                Err(e) => tc_at(pff@, bid_data, bid_sub) == Err::<TcV, ErrorV>(e@),
            },
    {
        let hn: Hn = Hn::parse(pff.data_blocks(bid_data)?, pff.geom.hid_block_shift)?;
        if hn.client_sig != 0x7C {
            let shown: String = text::zero_pad(text::hex_string(hn.client_sig as u64).as_str(), 2);
            return Err(
                Error::Format(
                    text::cat3("bClientSig is 0x", shown.as_str(), ", not a table context (0x7C)"),
                ),
            );
        }
        let subs: HashMap<u32, (u64, u64)> = pff.subnodes(bid_sub)?;
        let info: &[u8] = hn.item(hn.hid_user_root)?;
        if info.len() < 22 || info[0] != 0x7C {
            return Err(Error::Format("TCINFO is truncated or mistyped".to_owned()));
        }
        // rgib[TCI_1b] ends the 1-byte cells and so begins the cell existence
        // bitmap; rgib[TCI_bm] ends that bitmap and is the row stride.
        let ceb_start: usize = u16le(info, 6) as usize;
        let row_size: usize = u16le(info, 8) as usize;
        let hnid_rows: u32 = u32le(info, 14);
        let cols: Vec<TcCol> = read_columns(info);
        let mut rows: Vec<Vec<u8>> = Vec::new();
        assert(bytes::each(rows@) =~= seq![]);
        assert(matrix_rows(seq![], row_size as int) =~= seq![]);
        if hnid_rows != 0 && row_size != 0 {
            let blocks: Vec<Vec<u8>> = if hnid_rows % 32 == 0 {
                let item: &[u8] = hn.item(hnid_rows)?;
                let mut one: Vec<Vec<u8>> = Vec::new();
                one.push(bytes::copy_range(item, 0, item.len()));
                assert(item@.subrange(0, item@.len() as int) =~= item@);
                assert(bytes::each(one@) =~= seq![item@]);
                one
            } else {
                match subs.get(&hnid_rows) {
                    Some(entry) => pff.data_blocks(entry.0)?,
                    None => {
                        let shown: String = text::zero_pad(
                            text::hex_string(hnid_rows as u64).as_str(),
                            8,
                        );
                        return Err(
                            Error::Format(
                                text::cat3("hnidRows 0x", shown.as_str(), " is not a subnode"),
                            ),
                        );
                    },
                }
            };
            rows = read_rows(&blocks, row_size);
        }
        Ok(Tc { pff, hn, subs, cols, row_size, ceb_start, rows })
    }

    /// How many rows the table has.
    pub fn row_count(&self) -> (r: usize)
        ensures
            r == self@.rows.len(),
    {
        self.rows.len()
    }

    /// The bytes of row `i`.
    pub fn row(&self, i: usize) -> (r: &[u8])
        requires
            i < self@.rows.len(),
        ensures
            r@ == self@.rows[i as int],
    {
        self.rows[i].as_slice()
    }

    /// Column sets differ per table, so every accessor is a lookup by property
    /// id and returns `None` when a table simply does not carry that column.
    pub fn col(&self, id: u16) -> (r: Option<TcCol>)
        requires
            self.wf(),
        ensures
            r == self@.col(id),
    {
        let mut i: usize = 0;
        while i < self.cols.len()
            invariant
                self.wf(),
                i <= self.cols@.len(),
                forall|k: int| 0 <= k < i ==> col_key()(#[trigger] self.cols@[k]) != id,
            decreases self.cols@.len() - i,
        {
            let c: TcCol = self.cols[i];
            if c.id() == id {
                proof {
                    order::lemma_first_with_at(self.cols@, col_key(), id as int, i as int);
                }
                assert(self.cols@[i as int].ib <= 0xFFFF);
                if c.ib + c.cb <= self.row_size {
                    return Some(c);
                }
                return None;
            }
            i = i + 1;
        }
        proof {
            order::lemma_first_with_absent(self.cols@, col_key(), id as int);
        }
        None
    }

    /// The column, but only if this row actually has a value for it.
    ///
    /// A row's cells are fixed-width slots that are not cleared when a value is
    /// absent. The cell existence bitmap is the only thing that distinguishes the
    /// two, so no accessor may skip it.
    fn cell(&self, row: &[u8], id: u16) -> (r: Option<TcCol>)
        requires
            self.wf(),
        ensures
            r == self@.cell(row@, id),
    {
        let c: TcCol = self.col(id)?;
        if self.has_cell(row, &c) {
            Some(c)
        } else {
            None
        }
    }

    /// Test a column's bit in the row's cell existence bitmap. The bitmap is
    /// big-endian within each byte: column `iBit` is bit `7 - iBit % 8` of byte
    /// `iBit / 8`.
    pub fn has_cell(&self, row: &[u8], c: &TcCol) -> (r: bool)
        requires
            self.wf(),
        ensures
            r == self@.is_set(row@, *c),
    {
        let i: usize = self.ceb_start + (c.i_bit / 8) as usize;
        if i >= row.len() {
            // A row stride that leaves no room for the bitmap: nothing to test.
            return true;
        }
        let k: u8 = c.i_bit % 8;
        proof {
            vstd::arithmetic::power2::lemma2_to64();
        }
        let weight: u8 = if k == 0 {
            128
        } else if k == 1 {
            64
        } else if k == 2 {
            32
        } else if k == 3 {
            16
        } else if k == 4 {
            8
        } else if k == 5 {
            4
        } else if k == 6 {
            2
        } else {
            1
        };
        assert(weight == pow2((7 - c.i_bit as int % 8) as nat));
        (row[i] / weight) % 2 == 1
    }

    /// `dwRowID`, the first 4 bytes of every row. In a hierarchy table it is the
    /// child folder's NID; in a contents table, the message's.
    pub fn row_id(row: &[u8]) -> (r: u32)
        ensures
            r == row_id_of(row@),
    {
        if row.len() >= 4 {
            u32le(row, 0)
        } else {
            0
        }
    }

    fn word(&self, row: &[u8], id: u16) -> (r: Option<u32>)
        requires
            self.wf(),
        ensures
            r == self@.word(row@, id),
    {
        let c: TcCol = self.cell(row, id)?;
        if row.len() >= 4 && c.ib <= row.len() - 4 {
            Some(u32le(row, c.ib))
        } else {
            None
        }
    }

    pub fn bytes(&self, row: &[u8], id: u16) -> (r: Option<Vec<u8>>)
        requires
            self.wf(),
        ensures
            bytes::opt_bytes(r) == self@.bytes(row@, id),
    {
        let hnid: u32 = self.word(row, id)?;
        resolve_hnid(self.pff, &self.hn, &self.subs, hnid)
    }

    pub fn string(&self, row: &[u8], id: u16) -> (r: Option<String>)
        requires
            self.wf(),
        ensures
            text::opt_text(r) == self@.string(row@, id),
    {
        let c: TcCol = self.col(id)?;
        let b: Vec<u8> = self.bytes(row, id)?;
        Some(decode_string(c.ptype(), b.as_slice()))
    }

    pub fn i32(&self, row: &[u8], id: u16) -> (r: Option<i32>)
        requires
            self.wf(),
        ensures
            r == self@.int32(row@, id),
    {
        let raw: u32 = self.word(row, id)?;
        Some(signed_32(raw))
    }

    pub fn bool(&self, row: &[u8], id: u16) -> (r: Option<bool>)
        requires
            self.wf(),
        ensures
            r == self@.flag(row@, id),
    {
        let c: TcCol = self.cell(row, id)?;
        if c.ib < row.len() {
            Some(row[c.ib] != 0)
        } else {
            None
        }
    }

    /// 8-byte values are stored inline in a row, unlike in a property context.
    pub fn u64(&self, row: &[u8], id: u16) -> (r: Option<u64>)
        requires
            self.wf(),
        ensures
            r == self@.uint64(row@, id),
    {
        let c: TcCol = self.cell(row, id)?;
        if c.cb >= 8 && row.len() >= 8 && c.ib <= row.len() - 8 {
            Some(u64le(row, c.ib))
        } else {
            None
        }
    }
}

} // verus!
