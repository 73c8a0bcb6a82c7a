//! Node database layer: header, page framing, the node and block BTrees, and
//! block payload assembly.
//!
//! Everything variant-specific lives in [`Geom`]. Entry records are identical
//! across both supported versions, so only the page envelope is parameterised.

use std::collections::HashMap;
use vstd::prelude::*;
use crate::bytes;
use crate::bytes::{u16le, u32le, u64le};
use crate::maps;
use crate::ost::{Error, ErrorV};
use crate::text;

verus! {

broadcast use vstd::std_specs::hash::group_hash_axioms;

/// The bid that a block is filed under: bit 0 is reserved and ignored.
pub open spec fn bid_key_of(bid: u64) -> u64 {
    (bid - bid % 2) as u64
}

/// BID bit 0 is reserved and must be ignored when comparing.
pub fn bid_key(bid: u64) -> (r: u64)
    ensures
        r == bid_key_of(bid),
{
    bid - bid % 2
}

/// Whether bit 1 of a bid is set.
pub open spec fn internal_bid(bid: u64) -> bool {
    (bid / 2) % 2 == 1
}

/// BID bit 1 marks an internal block: a data tree or a subnode tree rather than
/// leaf data.
pub fn bid_is_internal(bid: u64) -> (r: bool)
    ensures
        r == internal_bid(bid),
{
    (bid / 2) % 2 == 1
}

/// Page framing, the only thing that differs between the supported versions.
#[derive(Clone, Copy, Debug)]
pub struct Geom {
    /// Page size in bytes.
    pub page: usize,
    /// Offset of the BTPAGE header (`cEnt`) within a page.
    pub bt_hdr: usize,
    /// v36 widened `cEnt`/`cEntMax` from u8 to u16, which shifts the two fields
    /// that follow them.
    pub counts_u16: bool,
    /// First bit of `hidBlockIndex` in a HID: 16 leaves an 11-bit `hidIndex`,
    /// 19 (v36) leaves 14 bits.
    pub hid_block_shift: u32,
}

/// The page framing of each supported version.
pub open spec fn geom_of(ver: int) -> Option<Geom> {
    if ver == 23 {
        Some(Geom { page: 512, bt_hdr: 488, counts_u16: false, hid_block_shift: 16 })
    } else if ver == 36 {
        Some(Geom { page: 4096, bt_hdr: 4056, counts_u16: true, hid_block_shift: 19 })
    } else {
        None
    }
}

impl Geom {
    /// One of the two framings that exist.
    pub open spec fn known(self) -> bool {
        geom_of(23) == Some(self) || geom_of(36) == Some(self)
    }

    pub open spec fn cb_ent_at(self) -> int {
        if self.counts_u16 {
            4
        } else {
            2
        }
    }

    pub open spec fn c_level_at(self) -> int {
        if self.counts_u16 {
            5
        } else {
            3
        }
    }

    fn cb_ent_off(self) -> (r: usize)
        ensures
            r == self.cb_ent_at(),
    {
        if self.counts_u16 {
            4
        } else {
            2
        }
    }

    fn c_level_off(self) -> (r: usize)
        ensures
            r == self.c_level_at(),
    {
        if self.counts_u16 {
            5
        } else {
            3
        }
    }
}

/// One NBT leaf entry: a node and the blocks holding its data and subnodes.
#[derive(Clone, Copy, Debug)]
pub struct Node {
    pub nid: u32,
    pub bid_data: u64,
    pub bid_sub: u64,
    pub nid_parent: u32,
}

/// One BBT leaf entry: where a block lives and how many bytes are stored.
#[derive(Clone, Copy, Debug)]
pub struct BlockRef {
    pub ib: u64,
    /// Stored size. For a compressed block this is the *compressed* length.
    pub cb: u16,
    pub cref: u16,
}

/// A leaf page of a BTree: where it starts, how many entries are live and how
/// far apart they are.
#[derive(Clone, Copy, Debug)]
pub struct LeafPage {
    pub ib: u64,
    pub c_ent: usize,
    pub cb_ent: usize,
}

/// A page of the file, or why there is none at `ib`.
pub open spec fn page_error(map: Seq<u8>, g: Geom, ib: u64) -> Option<ErrorV> {
    if ib + g.page > u64::MAX {
        Some(ErrorV::Format("page offset overflow"@))
    } else if ib + g.page > map.len() {
        Some(ErrorV::Format("page at 0x"@ + text::hex(ib as nat) + " is past EOF"@))
    } else {
        None
    }
}

/// `cEnt` of the page at `ib`.
pub open spec fn page_entries(map: Seq<u8>, g: Geom, ib: int) -> int {
    if g.counts_u16 {
        bytes::le16(map, ib + g.bt_hdr)
    } else {
        map[ib + g.bt_hdr] as int
    }
}

/// `cbEnt` of the page at `ib`.
pub open spec fn page_stride(map: Seq<u8>, g: Geom, ib: int) -> int {
    map[ib + g.bt_hdr + g.cb_ent_at()] as int
}

/// `cLevel` of the page at `ib`.
pub open spec fn page_level(map: Seq<u8>, g: Geom, ib: int) -> int {
    map[ib + g.bt_hdr + g.c_level_at()] as int
}

/// A page whose entries do not fit where entries may be.
pub open spec fn overfull(ib: u64, c_ent: int, cb_ent: int) -> ErrorV {
    ErrorV::Format(
        "BTree page at 0x"@ + text::hex(ib as nat) + " claims "@ + text::dec(c_ent as nat)
            + " entries of "@ + text::dec(cb_ent as nat) + " bytes"@,
    )
}

/// The leaf pages under the page at `ib`, in the order in which they are
/// visited: the last child of an inner page first.
pub open spec fn leaves(map: Seq<u8>, g: Geom, ib: u64, depth: nat) -> Result<
    Seq<LeafPage>,
    ErrorV,
>
    decreases 17 - depth, 1int, 0int,
{
    let c_ent = page_entries(map, g, ib as int);
    let cb_ent = page_stride(map, g, ib as int);
    if depth > 16 {
        Err(ErrorV::Format("BTree deeper than 16 levels"@))
    } else if let Some(e) = page_error(map, g, ib) {
        Err(e)
    } else if cb_ent == 0 || c_ent * cb_ent > g.bt_hdr {
        Err(overfull(ib, c_ent, cb_ent))
    } else if page_level(map, g, ib as int) == 0 {
        Ok(seq![LeafPage { ib, c_ent: c_ent as usize, cb_ent: cb_ent as usize }])
    } else {
        child_leaves(map, g, ib, cb_ent, c_ent, depth)
    }
}

/// The leaf pages under children `k - 1`, ..., `0` of the inner page at `ib`.
pub open spec fn child_leaves(
    map: Seq<u8>,
    g: Geom,
    ib: u64,
    cb_ent: int,
    k: int,
    depth: nat,
) -> Result<Seq<LeafPage>, ErrorV>
    decreases 17 - depth, 0int, k,
{
    if k <= 0 || depth > 16 {
        Ok(seq![])
    } else {
        let child = bytes::le64(map, ib + (k - 1) * cb_ent + 16) as u64;
        match leaves(map, g, child, depth + 1) {
            Err(e) => Err(e),
            Ok(a) => match child_leaves(map, g, ib, cb_ent, k - 1, depth) {
                Err(e) => Err(e),
                Ok(b) => Ok(a + b),
            },
        }
    }
}

/// Where page `ib` starts in a file that holds all of it.
fn page_start(map: &[u8], g: Geom, ib: u64) -> (r: Result<usize, Error>)
    requires
        g.page <= 4096,
    ensures
        match r {
            Ok(s) => page_error(map@, g, ib) is None && s == ib && s + g.page <= map@.len()
                <= usize::MAX,
            Err(e) => page_error(map@, g, ib) == Some(e@),
        },
{
    match ib.checked_add(g.page as u64) {
        None => Err(Error::Format("page offset overflow".to_owned())),
        Some(end) => if end > map.len() as u64 {
            Err(
                Error::Format(
                    text::cat3("page at 0x", text::hex_string(ib).as_str(), " is past EOF"),
                ),
            )
        } else {
            Ok(ib as usize)
        },
    }
}

fn overfull_error(ib: u64, c_ent: usize, cb_ent: usize) -> (r: Error)
    ensures
        r@ == overfull(ib, c_ent as int, cb_ent as int),
{
    let head: String = text::cat3("BTree page at 0x", text::hex_string(ib).as_str(), " claims ");
    let mid: String = text::cat3(
        head.as_str(),
        text::dec_string(c_ent as u64).as_str(),
        " entries of ",
    );
    Error::Format(text::cat3(mid.as_str(), text::dec_string(cb_ent as u64).as_str(), " bytes"))
}

/// Visit every leaf page of a BTree.
fn walk_leaves(map: &[u8], g: Geom, ib: u64, depth: usize, out: &mut Vec<LeafPage>) -> (r: Result<
    (),
    Error,
>)
    requires
        g.known(),
        depth <= 17,
    ensures
        match r {
            Ok(_) => leaves(map@, g, ib, depth as nat) matches Ok(pages) && final(out)@ == old(out)@
                + pages,
            Err(e) => leaves(map@, g, ib, depth as nat) == Err::<Seq<LeafPage>, ErrorV>(e@),
        },
    decreases 17 - depth,
{
    if depth > 16 {
        return Err(Error::Format("BTree deeper than 16 levels".to_owned()));
    }
    let s: usize = page_start(map, g, ib)?;
    let c_ent: usize = if g.counts_u16 {
        u16le(map, s + g.bt_hdr) as usize
    } else {
        map[s + g.bt_hdr] as usize
    };
    let cb_ent: usize = map[s + g.bt_hdr + g.cb_ent_off()] as usize;
    let c_level: u8 = map[s + g.bt_hdr + g.c_level_off()];
    assert(c_ent * cb_ent <= 0xFFFF * 0xFF) by (nonlinear_arith)
        requires
            c_ent <= 0xFFFF,
            cb_ent <= 0xFF,
    ;
    if cb_ent == 0 || c_ent * cb_ent > g.bt_hdr {
        return Err(overfull_error(ib, c_ent, cb_ent));
    }
    if c_level == 0 {
        out.push(LeafPage { ib, c_ent, cb_ent });
        return Ok(());
    }
    let mut k: usize = c_ent;
    let ghost mut seen: Seq<LeafPage> = seq![];
    while k > 0
        invariant
            g.known(),
            depth <= 16,
            k <= c_ent,
            s == ib,
            s + g.page <= map@.len() <= usize::MAX,
            cb_ent > 0,
            c_ent * cb_ent <= g.bt_hdr,
            out@ == old(out)@ + seen,
            leaves(map@, g, ib, depth as nat) == child_leaves(
                map@,
                g,
                ib,
                cb_ent as int,
                c_ent as int,
                depth as nat,
            ),
            match child_leaves(map@, g, ib, cb_ent as int, k as int, depth as nat) {
                Ok(rest) => leaves(map@, g, ib, depth as nat) == Ok::<Seq<LeafPage>, ErrorV>(
                    seen + rest,
                ),
                Err(e) => leaves(map@, g, ib, depth as nat) == Err::<Seq<LeafPage>, ErrorV>(e),
            },
        decreases k,
    {
        assert((k - 1) * cb_ent + cb_ent <= c_ent * cb_ent) by (nonlinear_arith)
            requires
                1 <= k <= c_ent,
                cb_ent > 0,
        ;
        let child: u64 = u64le(map, s + (k - 1) * cb_ent + 16);
        let ghost before = out@;
        walk_leaves(map, g, child, depth + 1, out)?;
        proof {
            let a = leaves(map@, g, child, (depth + 1) as nat)->Ok_0;
            assert(out@ == old(out)@ + (seen + a));
            match child_leaves(map@, g, ib, cb_ent as int, k - 1, depth as nat) {
                Ok(b) => {
                    assert(seen + (a + b) =~= (seen + a) + b);
                },
                Err(_) => {},
            }
            seen = seen + a;
        }
        k = k - 1;
    }
    Ok(())
}

/// The block that the BBT entry at `o` files, and its key.
pub open spec fn bbt_entry(map: Seq<u8>, o: int) -> (u64, BlockRef) {
    (
        bid_key_of(bytes::le64(map, o) as u64),
        BlockRef {
            ib: bytes::le64(map, o + 8) as u64,
            cb: bytes::le16(map, o + 16) as u16,
            cref: bytes::le16(map, o + 18) as u16,
        },
    )
}

/// The node that the NBT entry at `o` files, and its key. The NID is 4 bytes,
/// widened to 8 in the file.
pub open spec fn nbt_entry(map: Seq<u8>, o: int) -> (u32, Node) {
    let nid = bytes::le32(map, o) as u32;
    (
        nid,
        Node {
            nid,
            bid_data: bytes::le64(map, o + 8) as u64,
            bid_sub: bytes::le64(map, o + 16) as u64,
            nid_parent: bytes::le32(map, o + 24) as u32,
        },
    )
}

/// The first `n` entries of a leaf page of the BBT.
pub open spec fn bbt_page(map: Seq<u8>, p: LeafPage, n: nat) -> Seq<(u64, BlockRef)> {
    Seq::new(n, |i: int| bbt_entry(map, p.ib + i * p.cb_ent))
}

/// The first `n` entries of a leaf page of the NBT.
pub open spec fn nbt_page(map: Seq<u8>, p: LeafPage, n: nat) -> Seq<(u32, Node)> {
    Seq::new(n, |i: int| nbt_entry(map, p.ib + i * p.cb_ent))
}

/// The entries of the BBT, page by page.
pub open spec fn bbt_entries(map: Seq<u8>, pages: Seq<LeafPage>) -> Seq<(u64, BlockRef)>
    decreases pages.len(),
{
    if pages.len() == 0 {
        seq![]
    } else {
        bbt_entries(map, pages.drop_last()) + bbt_page(map, pages.last(), pages.last().c_ent as nat)
    }
}

/// The entries of the NBT, page by page.
pub open spec fn nbt_entries(map: Seq<u8>, pages: Seq<LeafPage>) -> Seq<(u32, Node)>
    decreases pages.len(),
{
    if pages.len() == 0 {
        seq![]
    } else {
        nbt_entries(map, pages.drop_last()) + nbt_page(map, pages.last(), pages.last().c_ent as nat)
    }
}

/// Whether the last 28-byte NBT entry of the page ends inside the page.
pub open spec fn nbt_page_fits(g: Geom, p: LeafPage) -> bool {
    p.c_ent == 0 || (p.c_ent - 1) * p.cb_ent + 28 <= g.page
}

/// The first page, if any, whose NBT entries run off its end.
pub open spec fn nbt_overrun(g: Geom, pages: Seq<LeafPage>) -> Option<LeafPage>
    decreases pages.len(),
{
    if pages.len() == 0 {
        None
    } else if nbt_overrun(g, pages.drop_last()) is Some {
        nbt_overrun(g, pages.drop_last())
    } else if nbt_page_fits(g, pages.last()) {
        None
    } else {
        Some(pages.last())
    }
}

/// A leaf page as the walk yields it: inside the file, its entries in front of
/// the page header.
pub open spec fn leaf_in(map: Seq<u8>, g: Geom, p: LeafPage) -> bool {
    &&& p.ib + g.page <= map.len()
    &&& p.cb_ent > 0
    &&& p.c_ent * p.cb_ent <= g.bt_hdr
}

/// Every leaf page that a walk yields lies inside the file.
proof fn lemma_leaves_in_file(map: Seq<u8>, g: Geom, ib: u64, depth: nat)
    requires
        map.len() <= usize::MAX,
    ensures
        leaves(map, g, ib, depth) matches Ok(pages) ==> forall|i: int|
            0 <= i < pages.len() ==> leaf_in(map, g, #[trigger] pages[i]),
    decreases 17 - depth, 1int, 0int,
{
    if depth <= 16 && page_error(map, g, ib) is None {
        let c_ent = page_entries(map, g, ib as int);
        let cb_ent = page_stride(map, g, ib as int);
        lemma_child_leaves_in_file(map, g, ib, cb_ent, c_ent, depth);
    }
}

proof fn lemma_child_leaves_in_file(
    map: Seq<u8>,
    g: Geom,
    ib: u64,
    cb_ent: int,
    k: int,
    depth: nat,
)
    requires
        map.len() <= usize::MAX,
    ensures
        child_leaves(map, g, ib, cb_ent, k, depth) matches Ok(pages) ==> forall|i: int|
            0 <= i < pages.len() ==> leaf_in(map, g, #[trigger] pages[i]),
    decreases 17 - depth, 0int, k,
{
    if k > 0 && depth <= 16 {
        let child = bytes::le64(map, ib + (k - 1) * cb_ent + 16) as u64;
        lemma_leaves_in_file(map, g, child, depth + 1);
        lemma_child_leaves_in_file(map, g, ib, cb_ent, k - 1, depth);
    }
}

/// A store as the reader sees it: the bytes of the file and the two trees.
pub struct PffV {
    pub map: Seq<u8>,
    pub ver: u16,
    pub geom: Geom,
    pub nbt: Map<u32, Node>,
    pub bbt: Map<u64, BlockRef>,
}

/// What opening a file with these bytes gives.
pub open spec fn opened(map: Seq<u8>) -> Result<PffV, ErrorV> {
    let client = bytes::le16(map, 8);
    let ver = bytes::le16(map, 10);
    if map.len() < 0x210 {
        Err(ErrorV::Format("file shorter than a PFF header"@))
    } else if !(map[0] == 0x21 && map[1] == 0x42 && map[2] == 0x44 && map[3] == 0x4E) {
        Err(ErrorV::Format("missing !BDN magic"@))
    } else if client != 0x4D53 && client != 0x4F53 {
        Err(
            ErrorV::Format(
                "unexpected wMagicClient 0x"@ + text::zero_padded(text::hex(client as nat), 4),
            ),
        )
    } else if ver == 14 || ver == 15 {
        Err(ErrorV::Unsupported("32-bit ANSI PFF (wVer 14/15, Outlook 2002 and earlier)"@))
    } else if geom_of(ver) is None {
        Err(ErrorV::Unsupported("unknown PFF wVer "@ + text::dec(ver as nat)))
    } else if map[0x201] != 0 {
        Err(
            ErrorV::Unsupported(
                "bCryptMethod "@ + text::dec(map[0x201] as nat)
                    + "; only NDB_CRYPT_NONE is implemented"@,
            ),
        )
    } else {
        let g = geom_of(ver)->Some_0;
        match leaves(map, g, bytes::le64(map, 0xF0) as u64, 0) {
            Err(e) => Err(e),
            Ok(bbt) => match leaves(map, g, bytes::le64(map, 0xE0) as u64, 0) {
                Err(e) => Err(e),
                Ok(nbt) => if let Some(p) = nbt_overrun(g, nbt) {
                    Err(overfull(p.ib, p.c_ent as int, p.cb_ent as int))
                } else {
                    Ok(
                        PffV {
                            map,
                            ver: ver as u16,
                            geom: g,
                            nbt: maps::last_wins(nbt_entries(map, nbt)),
                            bbt: maps::last_wins(bbt_entries(map, bbt)),
                        },
                    )
                },
            },
        }
    }
}

fn read_bbt(map: &[u8], g: Geom, pages: &Vec<LeafPage>) -> (r: HashMap<u64, BlockRef>)
    requires
        g.known(),
        forall|i: int| 0 <= i < pages@.len() ==> leaf_in(map@, g, #[trigger] pages@[i]),
    ensures
        r@ == maps::last_wins(bbt_entries(map@, pages@)),
{
    let n: usize = map.len();
    let mut bbt: HashMap<u64, BlockRef> = HashMap::new();
    let mut j: usize = 0;
    assert(pages@.take(0) =~= seq![]);
    while j < pages.len()
        invariant
            n == map@.len(),
            g.known(),
            forall|i: int| 0 <= i < pages@.len() ==> leaf_in(map@, g, #[trigger] pages@[i]),
            j <= pages@.len(),
            bbt@ == maps::last_wins(bbt_entries(map@, pages@.take(j as int))),
        decreases pages@.len() - j,
    {
        let p: LeafPage = pages[j];
        assert(leaf_in(map@, g, pages@[j as int]));
        let ghost before = bbt_entries(map@, pages@.take(j as int));
        let mut i: usize = 0;
        assert(before + bbt_page(map@, p, 0) =~= before);
        while i < p.c_ent
            invariant
                n == map@.len(),
                g.known(),
                leaf_in(map@, g, p),
                i <= p.c_ent,
                bbt@ == maps::last_wins(before + bbt_page(map@, p, i as nat)),
            decreases p.c_ent - i,
        {
            assert(i * p.cb_ent + p.cb_ent <= p.c_ent * p.cb_ent) by (nonlinear_arith)
                requires
                    i < p.c_ent,
                    p.cb_ent > 0,
            ;
            let o: usize = p.ib as usize + i * p.cb_ent;
            bbt.insert(
                bid_key(u64le(map, o)),
                BlockRef {
                    ib: u64le(map, o + 8),
                    cb: u16le(map, o + 16),
                    cref: u16le(map, o + 18),
                },
            );
            proof {
                let next = before + bbt_page(map@, p, (i + 1) as nat);
                assert(next.drop_last() =~= before + bbt_page(map@, p, i as nat));
                assert(next.last() == bbt_entry(map@, o as int));
            }
            i = i + 1;
        }
        assert(pages@.take(j + 1).drop_last() =~= pages@.take(j as int));
        j = j + 1;
    }
    assert(pages@.take(j as int) =~= pages@);
    bbt
}

fn find_nbt_overrun(g: Geom, pages: &Vec<LeafPage>) -> (r: Option<LeafPage>)
    requires
        g.known(),
        forall|i: int|
            0 <= i < pages@.len() ==> (#[trigger] pages@[i]).cb_ent > 0 && pages@[i].c_ent
                * pages@[i].cb_ent <= g.bt_hdr,
    ensures
        r == nbt_overrun(g, pages@),
        r is None ==> forall|i: int| 0 <= i < pages@.len() ==> nbt_page_fits(g, #[trigger] pages@[i]),
{
    let mut j: usize = 0;
    assert(pages@.take(0) =~= seq![]);
    while j < pages.len()
        invariant
            g.known(),
            forall|i: int|
                0 <= i < pages@.len() ==> (#[trigger] pages@[i]).cb_ent > 0 && pages@[i].c_ent
                    * pages@[i].cb_ent <= g.bt_hdr,
            j <= pages@.len(),
            nbt_overrun(g, pages@.take(j as int)) is None,
            forall|i: int| 0 <= i < j ==> nbt_page_fits(g, #[trigger] pages@[i]),
        decreases pages@.len() - j,
    {
        let p: LeafPage = pages[j];
        assert(pages@.take(j + 1).drop_last() =~= pages@.take(j as int));
        if p.c_ent > 0 {
            assert((p.c_ent - 1) * p.cb_ent + p.cb_ent == p.c_ent * p.cb_ent) by (nonlinear_arith);
            assert((p.c_ent - 1) * p.cb_ent >= 0) by (nonlinear_arith)
                requires
                    p.c_ent > 0,
            ;
            if (p.c_ent - 1) * p.cb_ent + 28 > g.page {
                proof {
                    lemma_overrun_is_first(g, pages@, j as int);
                }
                return Some(p);
            }
        }
        j = j + 1;
    }
    assert(pages@.take(j as int) =~= pages@);
    None
}

proof fn lemma_overrun_is_first(g: Geom, pages: Seq<LeafPage>, j: int)
    requires
        0 <= j < pages.len(),
        nbt_overrun(g, pages.take(j)) is None,
        !nbt_page_fits(g, pages[j]),
    ensures
        nbt_overrun(g, pages) == Some(pages[j]),
    decreases pages.len(),
{
    if j == pages.len() - 1 {
        assert(pages.take(j) =~= pages.drop_last());
    } else {
        assert(pages.drop_last().take(j) =~= pages.take(j));
        lemma_overrun_is_first(g, pages.drop_last(), j);
    }
}

fn read_nbt(map: &[u8], g: Geom, pages: &Vec<LeafPage>) -> (r: HashMap<u32, Node>)
    requires
        g.known(),
        forall|i: int| 0 <= i < pages@.len() ==> leaf_in(map@, g, #[trigger] pages@[i]),
        forall|i: int| 0 <= i < pages@.len() ==> nbt_page_fits(g, #[trigger] pages@[i]),
    ensures
        r@ == maps::last_wins(nbt_entries(map@, pages@)),
{
    let n: usize = map.len();
    let mut nbt: HashMap<u32, Node> = HashMap::new();
    let mut j: usize = 0;
    assert(pages@.take(0) =~= seq![]);
    while j < pages.len()
        invariant
            n == map@.len(),
            g.known(),
            forall|i: int| 0 <= i < pages@.len() ==> leaf_in(map@, g, #[trigger] pages@[i]),
            forall|i: int| 0 <= i < pages@.len() ==> nbt_page_fits(g, #[trigger] pages@[i]),
            j <= pages@.len(),
            nbt@ == maps::last_wins(nbt_entries(map@, pages@.take(j as int))),
        decreases pages@.len() - j,
    {
        let p: LeafPage = pages[j];
        assert(leaf_in(map@, g, pages@[j as int]));
        assert(nbt_page_fits(g, pages@[j as int]));
        let ghost before = nbt_entries(map@, pages@.take(j as int));
        let mut i: usize = 0;
        assert(before + nbt_page(map@, p, 0) =~= before);
        while i < p.c_ent
            invariant
                n == map@.len(),
                g.known(),
                leaf_in(map@, g, p),
                nbt_page_fits(g, p),
                i <= p.c_ent,
                nbt@ == maps::last_wins(before + nbt_page(map@, p, i as nat)),
            decreases p.c_ent - i,
        {
            assert(0 <= i * p.cb_ent <= (p.c_ent - 1) * p.cb_ent) by (nonlinear_arith)
                requires
                    i < p.c_ent,
                    p.cb_ent > 0,
            ;
            let o: usize = p.ib as usize + i * p.cb_ent;
            let nid: u32 = u32le(map, o);
            nbt.insert(
                nid,
                Node {
                    nid,
                    bid_data: u64le(map, o + 8),
                    bid_sub: u64le(map, o + 16),
                    nid_parent: u32le(map, o + 24),
                },
            );
            proof {
                let next = before + nbt_page(map@, p, (i + 1) as nat);
                assert(next.drop_last() =~= before + nbt_page(map@, p, i as nat));
                assert(next.last() == nbt_entry(map@, o as int));
            }
            i = i + 1;
        }
        assert(pages@.take(j + 1).drop_last() =~= pages@.take(j as int));
        j = j + 1;
    }
    assert(pages@.take(j as int) =~= pages@);
    nbt
}

/// An open store: the bytes of the file with its two BTrees read.
pub struct Pff<'a> {
    /// The bytes of the file.
    pub map: &'a [u8],
    pub ver: u16,
    pub geom: Geom,
    pub nbt: HashMap<u32, Node>,
    pub bbt: HashMap<u64, BlockRef>,
}

impl<'a> Pff<'a> {
    /// The framing is one of those that exist.
    pub open spec fn wf(&self) -> bool {
        self.geom.known()
    }
}

impl<'a> View for Pff<'a> {
    type V = PffV;

    open spec fn view(&self) -> PffV {
        PffV {
            map: self.map@,
            ver: self.ver,
            geom: self.geom,
            nbt: self.nbt@,
            bbt: self.bbt@,
        }
    }
}

/// The zlib sniff: low nibble of byte 0 is 8 (deflate) and the two header bytes
/// form a multiple of 31 (the check bits).
pub open spec fn zlib_header(b: Seq<u8>) -> bool {
    b.len() >= 2 && b[0] % 16 == 8 && (0x100 * b[0] + b[1]) % 31 == 0
}

/// Sniff a zlib stream.
pub fn looks_zlib(b: &[u8]) -> (r: bool)
    ensures
        r == zlib_header(b@),
{
    b.len() >= 2 && b[0] % 16 == 8 && (0x100 * (b[0] as u32) + b[1] as u32) % 31 == 0
}

/// What `flate2` inflates a zlib stream to; nothing where it reports an error.
pub uninterp spec fn zlib_inflated(b: Seq<u8>) -> Option<Seq<u8>>;

/// Calls `flate2::read::ZlibDecoder::read_to_end` on the whole of `b`. Whether it
/// succeeds and what it yields is a function of the bytes alone, named
/// [`zlib_inflated`]; nothing more is claimed of it.
#[verifier::external_body]
fn zlib_read_to_end(b: &[u8]) -> (r: Option<Vec<u8>>)
    ensures
        bytes::opt_bytes(r) == zlib_inflated(b@),
{
    let mut out = Vec::new();
    let mut decoder = flate2::read::ZlibDecoder::new(b);
    match std::io::Read::read_to_end(&mut decoder, &mut out) {
        Ok(_) => Some(out),
        Err(_) => None,
    }
}

/// Inflate a zlib stream, unless that fails or yields nothing.
pub fn inflate(b: &[u8]) -> (r: Option<Vec<u8>>)
    ensures
        bytes::opt_bytes(r) == match zlib_inflated(b@) {
            Some(v) => if v.len() > 0 {
                Some(v)
            } else {
                None
            },
            None => None,
        },
{
    match zlib_read_to_end(b) {
        Some(out) => if out.is_empty() {
            None
        } else {
            Some(out)
        },
        None => None,
    }
}

/// The payload of a block: what inflating gave, or the stored bytes where it
/// gave nothing.
pub open spec fn payload(raw: Seq<u8>, inflated: Option<Seq<u8>>) -> Seq<u8> {
    match inflated {
        Some(v) => if v.len() > 0 {
            v
        } else {
            raw
        },
        None => raw,
    }
}

/// Choose between the stored bytes of a block and what they inflate to.
pub fn block_payload(raw: &[u8], inflated: Option<Vec<u8>>) -> (r: Vec<u8>)
    ensures
        r@ == payload(raw@, bytes::opt_bytes(inflated)),
{
    if let Some(v) = inflated {
        if !v.is_empty() {
            return v;
        }
    }
    bytes::copy_range(raw, 0, raw.len())
}

/// The payload of a block stored as `raw`: there is no flag for compression, so
/// it is a header sniff plus a successful inflate.
pub open spec fn stored_payload(raw: Seq<u8>) -> Seq<u8> {
    if zlib_header(raw) {
        payload(raw, zlib_inflated(raw))
    } else {
        raw
    }
}

impl PffV {
    /// The node filed under `nid`.
    pub open spec fn node(self, nid: u32) -> Result<Node, ErrorV> {
        if self.nbt.contains_key(nid) {
            Ok(self.nbt[nid])
        } else {
            Err(
                ErrorV::NotFound(
                    "nid 0x"@ + text::hex(nid as nat) + " is not in the node BTree"@,
                ),
            )
        }
    }

    /// The payload of the block filed under `bid`.
    pub open spec fn block(self, bid: u64) -> Result<Seq<u8>, ErrorV> {
        let e = self.bbt[bid_key_of(bid)];
        if !self.bbt.contains_key(bid_key_of(bid)) {
            Err(
                ErrorV::NotFound(
                    "bid 0x"@ + text::hex(bid as nat) + " is not in the block BTree"@,
                ),
            )
        } else if e.ib + e.cb > u64::MAX {
            Err(ErrorV::Format("block offset overflow"@))
        } else if e.ib + e.cb > self.map.len() {
            Err(ErrorV::Format("block 0x"@ + text::hex(bid as nat) + " is past EOF"@))
        } else {
            Ok(stored_payload(self.map.subrange(e.ib as int, e.ib + e.cb)))
        }
    }

    /// The leaf blocks of the data tree under `bid`, in order. A leaf bid yields
    /// one block; an internal bid is an XBLOCK or XXBLOCK whose children follow
    /// one another.
    pub open spec fn data_tree(self, bid: u64, depth: nat) -> Result<Seq<Seq<u8>>, ErrorV>
        decreases 5 - depth, 1int, 0int,
    {
        match self.block(bid) {
            Err(e) => Err(e),
            Ok(p) => {
                let c_ent = bytes::le16(p, 2);
                if !internal_bid(bid) {
                    Ok(seq![p])
                } else if depth > 4 {
                    Err(ErrorV::Format("data tree deeper than 4 levels"@))
                } else if p.len() < 8 {
                    Err(ErrorV::Format("XBLOCK 0x"@ + text::hex(bid as nat) + " is truncated"@))
                } else if p[0] != 0x01 {
                    Err(
                        ErrorV::Format(
                            "bid 0x"@ + text::hex(bid as nat) + " is internal but btype is 0x"@
                                + text::zero_padded(text::hex(p[0] as nat), 2)
                                + ", expected 0x01"@,
                        ),
                    )
                } else if 8 + c_ent * 8 > p.len() {
                    Err(
                        ErrorV::Format(
                            "XBLOCK 0x"@ + text::hex(bid as nat) + " claims "@ + text::dec(
                                c_ent as nat,
                            ) + " children but holds "@ + text::dec(p.len()) + " bytes"@,
                        ),
                    )
                } else {
                    self.data_children(p, c_ent, depth)
                }
            },
        }
    }

    /// The leaf blocks under the first `k` children of an internal block.
    pub open spec fn data_children(self, p: Seq<u8>, k: int, depth: nat) -> Result<
        Seq<Seq<u8>>,
        ErrorV,
    >
        decreases 5 - depth, 0int, k,
    {
        if k <= 0 || depth > 4 {
            Ok(seq![])
        } else {
            match self.data_children(p, k - 1, depth) {
                Err(e) => Err(e),
                Ok(a) => match self.data_tree(bytes::le64(p, 8 + (k - 1) * 8) as u64, depth + 1) {
                    Err(e) => Err(e),
                    Ok(b) => Ok(a + b),
                },
            }
        }
    }

    /// The entries of the subnode tree under `bid`, in order.
    pub open spec fn subnode_tree(self, bid: u64, depth: nat) -> Result<
        Seq<(u32, (u64, u64))>,
        ErrorV,
    >
        decreases 5 - depth, 1int, 0int,
    {
        if depth > 4 {
            Err(ErrorV::Format("subnode tree deeper than 4 levels"@))
        } else {
            match self.block(bid) {
                Err(e) => Err(e),
                Ok(p) => {
                    let c_ent = bytes::le16(p, 2);
                    let stride = if p[1] == 0 {
                        24int
                    } else {
                        16int
                    };
                    if p.len() < 8 {
                        Err(
                            ErrorV::Format(
                                "SLBLOCK 0x"@ + text::hex(bid as nat) + " is truncated"@,
                            ),
                        )
                    } else if p[0] != 0x02 {
                        Err(
                            ErrorV::Format(
                                "subnode block 0x"@ + text::hex(bid as nat) + " btype is 0x"@
                                    + text::zero_padded(text::hex(p[0] as nat), 2)
                                    + ", expected 0x02"@,
                            ),
                        )
                    } else if 8 + c_ent * stride > p.len() {
                        Err(
                            ErrorV::Format(
                                "subnode block 0x"@ + text::hex(bid as nat) + " claims "@
                                    + text::dec(c_ent as nat) + " entries but holds "@ + text::dec(
                                    p.len(),
                                ) + " bytes"@,
                            ),
                        )
                    } else if p[1] == 0 {
                        Ok(sl_entries(p, c_ent as nat))
                    } else {
                        self.subnode_children(p, c_ent, depth)
                    }
                },
            }
        }
    }

    /// The entries under the first `k` children of an intermediate block.
    pub open spec fn subnode_children(self, p: Seq<u8>, k: int, depth: nat) -> Result<
        Seq<(u32, (u64, u64))>,
        ErrorV,
    >
        decreases 5 - depth, 0int, k,
    {
        if k <= 0 || depth > 4 {
            Ok(seq![])
        } else {
            match self.subnode_children(p, k - 1, depth) {
                Err(e) => Err(e),
                Ok(a) => match self.subnode_tree(
                    bytes::le64(p, 8 + (k - 1) * 16 + 8) as u64,
                    depth + 1,
                ) {
                    Err(e) => Err(e),
                    Ok(b) => Ok(a + b),
                },
            }
        }
    }

    /// A node's data tree.
    pub open spec fn data_blocks(self, bid: u64) -> Result<Seq<Seq<u8>>, ErrorV> {
        self.data_tree(bid, 0)
    }

    /// A node's data as one run of bytes.
    pub open spec fn data_flat(self, bid: u64) -> Result<Seq<u8>, ErrorV> {
        match self.data_tree(bid, 0) {
            Ok(blocks) => Ok(blocks.flatten()),
            Err(e) => Err(e),
        }
    }

    /// A node's subnodes: `nid -> (bid_data, bid_sub)`.
    pub open spec fn subnodes(self, bid_sub: u64) -> Result<Map<u32, (u64, u64)>, ErrorV> {
        if bid_sub == 0 {
            Ok(Map::empty())
        } else {
            match self.subnode_tree(bid_sub, 0) {
                Ok(entries) => Ok(maps::last_wins(entries)),
                Err(e) => Err(e),
            }
        }
    }
}

/// The first `n` entries of an SLBLOCK: nid, bidData and bidSub, 8 bytes each.
pub open spec fn sl_entries(p: Seq<u8>, n: nat) -> Seq<(u32, (u64, u64))> {
    Seq::new(
        n,
        |i: int|
            (
                bytes::le32(p, 8 + i * 24) as u32,
                (bytes::le64(p, 8 + i * 24 + 8) as u64, bytes::le64(p, 8 + i * 24 + 16) as u64),
            ),
    )
}

impl<'a> Pff<'a> {
    /// Read the header and both BTrees of a store.
    pub fn from_map(map: &'a [u8]) -> (r: Result<Pff<'a>, Error>)
        ensures
            match r {
                Ok(pff) => pff.wf() && opened(map@) == Ok::<PffV, ErrorV>(pff@),
                Err(e) => opened(map@) == Err::<PffV, ErrorV>(e@),
            },
    {
        if map.len() < 0x210 {
            return Err(Error::Format("file shorter than a PFF header".to_owned()));
        }
        if !(map[0] == 0x21 && map[1] == 0x42 && map[2] == 0x44 && map[3] == 0x4E) {
            return Err(Error::Format("missing !BDN magic".to_owned()));
        }
        // 'SM' is a PST, 'SO' an OST.
        let client: u16 = u16le(map, 8);
        if client != 0x4D53 && client != 0x4F53 {
            let shown: String = text::zero_pad(text::hex_string(client as u64).as_str(), 4);
            return Err(Error::Format(text::cat2("unexpected wMagicClient 0x", shown.as_str())));
        }
        let ver: u16 = u16le(map, 10);
        if ver == 14 || ver == 15 {
            return Err(
                Error::Unsupported(
                    "32-bit ANSI PFF (wVer 14/15, Outlook 2002 and earlier)".to_owned(),
                ),
            );
        }
        let geom: Geom = if ver == 23 {
            Geom { page: 512, bt_hdr: 488, counts_u16: false, hid_block_shift: 16 }
        } else if ver == 36 {
            Geom { page: 4096, bt_hdr: 4056, counts_u16: true, hid_block_shift: 19 }
        } else {
            return Err(
                Error::Unsupported(
                    text::cat2("unknown PFF wVer ", text::dec_string(ver as u64).as_str()),
                ),
            );
        };
        // NDB_CRYPT_PERMUTE (1) and NDB_CRYPT_CYCLIC (2) need a substitution
        // table. Rejecting here keeps every block read below unconditional.
        let crypt: u8 = map[0x201];
        if crypt != 0 {
            return Err(
                Error::Unsupported(
                    text::cat3(
                        "bCryptMethod ",
                        text::dec_string(crypt as u64).as_str(),
                        "; only NDB_CRYPT_NONE is implemented",
                    ),
                ),
            );
        }
        let nbt_ib: u64 = u64le(map, 0xE0);
        let bbt_ib: u64 = u64le(map, 0xF0);
        proof {
            lemma_leaves_in_file(map@, geom, bbt_ib, 0);
            lemma_leaves_in_file(map@, geom, nbt_ib, 0);
        }
        let mut bbt_pages: Vec<LeafPage> = Vec::new();
        walk_leaves(map, geom, bbt_ib, 0, &mut bbt_pages)?;
        let bbt: HashMap<u64, BlockRef> = read_bbt(map, geom, &bbt_pages);
        let mut nbt_pages: Vec<LeafPage> = Vec::new();
        walk_leaves(map, geom, nbt_ib, 0, &mut nbt_pages)?;
        if let Some(p) = find_nbt_overrun(geom, &nbt_pages) {
            return Err(overfull_error(p.ib, p.c_ent, p.cb_ent));
        }
        let nbt: HashMap<u32, Node> = read_nbt(map, geom, &nbt_pages);
        Ok(Pff { map, ver, geom, nbt, bbt })
    }

    pub fn len(&self) -> (r: usize)
        ensures
            r == self@.map.len(),
    {
        self.map.len()
    }

    pub fn is_empty(&self) -> (r: bool)
        ensures
            r == (self@.map.len() == 0),
    {
        self.map.len() == 0
    }

    pub fn node(&self, nid: u32) -> (r: Result<Node, Error>)
        ensures
            match r {
                Ok(n) => self@.node(nid) == Ok::<Node, ErrorV>(n),
                Err(e) => self@.node(nid) == Err::<Node, ErrorV>(e@),
            },
    {
        match self.nbt.get(&nid) {
            Some(n) => Ok(*n),
            None => Err(
                Error::NotFound(
                    text::cat3(
                        "nid 0x",
                        text::hex_string(nid as u64).as_str(),
                        " is not in the node BTree",
                    ),
                ),
            ),
        }
    }

    /// One block's payload, inflated if the file stored it compressed.
    pub fn block(&self, bid: u64) -> (r: Result<Vec<u8>, Error>)
        ensures
            match r {
                Ok(v) => self@.block(bid) == Ok::<Seq<u8>, ErrorV>(v@),
                Err(e) => self@.block(bid) == Err::<Seq<u8>, ErrorV>(e@),
            },
    {
        let e: BlockRef = match self.bbt.get(&bid_key(bid)) {
            Some(e) => *e,
            None => {
                return Err(
                    Error::NotFound(
                        text::cat3(
                            "bid 0x",
                            text::hex_string(bid).as_str(),
                            " is not in the block BTree",
                        ),
                    ),
                );
            },
        };
        let end: u64 = match e.ib.checked_add(e.cb as u64) {
            Some(end) => end,
            None => {
                return Err(Error::Format("block offset overflow".to_owned()));
            },
        };
        if end > self.map.len() as u64 {
            return Err(
                Error::Format(
                    text::cat3("block 0x", text::hex_string(bid).as_str(), " is past EOF"),
                ),
            );
        }
        let raw: &[u8] = vstd::slice::slice_subrange(self.map, e.ib as usize, end as usize);
        let inflated: Option<Vec<u8>> = if looks_zlib(raw) {
            inflate(raw)
        } else {
            None
        };
        Ok(block_payload(raw, inflated))
    }

    /// Assemble a node's data tree into its constituent blocks, in order.
    pub fn data_blocks(&self, bid: u64) -> (r: Result<Vec<Vec<u8>>, Error>)
        ensures
            match r {
                Ok(v) => self@.data_blocks(bid) == Ok::<Seq<Seq<u8>>, ErrorV>(bytes::each(v@)),
                Err(e) => self@.data_blocks(bid) == Err::<Seq<Seq<u8>>, ErrorV>(e@),
            },
    {
        self.data_blocks_at(bid, 0)
    }

    fn data_blocks_at(&self, bid: u64, depth: usize) -> (r: Result<Vec<Vec<u8>>, Error>)
        requires
            depth <= 5,
        ensures
            match r {
                Ok(v) => self@.data_tree(bid, depth as nat) == Ok::<Seq<Seq<u8>>, ErrorV>(
                    bytes::each(v@),
                ),
                Err(e) => self@.data_tree(bid, depth as nat) == Err::<Seq<Seq<u8>>, ErrorV>(e@),
            },
        decreases 5 - depth,
    {
        let payload: Vec<u8> = self.block(bid)?;
        if !bid_is_internal(bid) {
            let mut one: Vec<Vec<u8>> = Vec::new();
            one.push(payload);
            assert(bytes::each(one@) =~= seq![payload@]);
            return Ok(one);
        }
        if depth > 4 {
            return Err(Error::Format("data tree deeper than 4 levels".to_owned()));
        }
        let shown: String = text::hex_string(bid);
        if payload.len() < 8 {
            return Err(Error::Format(text::cat3("XBLOCK 0x", shown.as_str(), " is truncated")));
        }
        if payload[0] != 0x01 {
            let head: String = text::cat3(
                "bid 0x",
                shown.as_str(),
                " is internal but btype is 0x",
            );
            let btype: String = text::zero_pad(text::hex_string(payload[0] as u64).as_str(), 2);
            return Err(
                Error::Format(text::cat3(head.as_str(), btype.as_str(), ", expected 0x01")),
            );
        }
        let c_ent: usize = u16le(payload.as_slice(), 2) as usize;
        if 8 + c_ent * 8 > payload.len() {
            let head: String = text::cat3("XBLOCK 0x", shown.as_str(), " claims ");
            let mid: String = text::cat3(
                head.as_str(),
                text::dec_string(c_ent as u64).as_str(),
                " children but holds ",
            );
            return Err(
                Error::Format(
                    text::cat3(
                        mid.as_str(),
                        text::dec_string(payload.len() as u64).as_str(),
                        " bytes",
                    ),
                ),
            );
        }
        // An XXBLOCK's children are XBLOCK bids, which carry the internal flag
        // themselves, so one recursion handles both levels.
        let mut out: Vec<Vec<u8>> = Vec::new();
        let mut i: usize = 0;
        assert(bytes::each(out@) =~= seq![]);
        while i < c_ent
            invariant
                depth <= 4,
                i <= c_ent,
                8 + c_ent * 8 <= payload@.len() <= usize::MAX,
                self@.data_tree(bid, depth as nat) == self@.data_children(
                    payload@,
                    c_ent as int,
                    depth as nat,
                ),
                self@.data_children(payload@, i as int, depth as nat) == Ok::<
                    Seq<Seq<u8>>,
                    ErrorV,
                >(bytes::each(out@)),
            decreases c_ent - i,
        {
            let child: u64 = u64le(payload.as_slice(), 8 + i * 8);
            match self.data_blocks_at(child, depth + 1) {
                Ok(mut more) => {
                    let ghost joined = bytes::each(out@) + bytes::each(more@);
                    out.append(&mut more);
                    assert(bytes::each(out@) =~= joined);
                },
                Err(e) => {
                    proof {
                        self@.lemma_data_children_fail(
                            payload@,
                            i + 1,
                            c_ent as int,
                            depth as nat,
                        );
                    }
                    return Err(e);
                },
            }
            i = i + 1;
        }
        Ok(out)
    }

    pub fn data_flat(&self, bid: u64) -> (r: Result<Vec<u8>, Error>)
        ensures
            match r {
                Ok(v) => self@.data_flat(bid) == Ok::<Seq<u8>, ErrorV>(v@),
                Err(e) => self@.data_flat(bid) == Err::<Seq<u8>, ErrorV>(e@),
            },
    {
        let blocks: Vec<Vec<u8>> = self.data_blocks(bid)?;
        Ok(bytes::concat(&blocks))
    }

    /// A node's subnode BTree, flattened to `nid -> (bid_data, bid_sub)`.
    pub fn subnodes(&self, bid_sub: u64) -> (r: Result<HashMap<u32, (u64, u64)>, Error>)
        ensures
            match r {
                Ok(m) => self@.subnodes(bid_sub) == Ok::<Map<u32, (u64, u64)>, ErrorV>(m@),
                Err(e) => self@.subnodes(bid_sub) == Err::<Map<u32, (u64, u64)>, ErrorV>(e@),
            },
    {
        let mut out: HashMap<u32, (u64, u64)> = HashMap::new();
        if bid_sub != 0 {
            let ghost none: Seq<(u32, (u64, u64))> = seq![];
            self.subnodes_into(bid_sub, &mut out, 0, Ghost(none))?;
            assert(none + self@.subnode_tree(bid_sub, 0)->Ok_0 =~= self@.subnode_tree(
                bid_sub,
                0,
            )->Ok_0);
        }
        Ok(out)
    }

    fn subnodes_into(
        &self,
        bid: u64,
        out: &mut HashMap<u32, (u64, u64)>,
        depth: usize,
        Ghost(before): Ghost<Seq<(u32, (u64, u64))>>,
    ) -> (r: Result<(), Error>)
        requires
            depth <= 5,
            old(out)@ == maps::last_wins(before),
        ensures
            match r {
                Ok(_) => self@.subnode_tree(bid, depth as nat) matches Ok(entries) && final(out)@
                    == maps::last_wins(before + entries),
                Err(e) => self@.subnode_tree(bid, depth as nat) == Err::<
                    Seq<(u32, (u64, u64))>,
                    ErrorV,
                >(e@),
            },
        decreases 5 - depth,
    {
        if depth > 4 {
            return Err(Error::Format("subnode tree deeper than 4 levels".to_owned()));
        }
        let payload: Vec<u8> = self.block(bid)?;
        let shown: String = text::hex_string(bid);
        if payload.len() < 8 {
            return Err(Error::Format(text::cat3("SLBLOCK 0x", shown.as_str(), " is truncated")));
        }
        if payload[0] != 0x02 {
            let head: String = text::cat3("subnode block 0x", shown.as_str(), " btype is 0x");
            let btype: String = text::zero_pad(text::hex_string(payload[0] as u64).as_str(), 2);
            return Err(
                Error::Format(text::cat3(head.as_str(), btype.as_str(), ", expected 0x02")),
            );
        }
        let c_level: u8 = payload[1];
        let c_ent: usize = u16le(payload.as_slice(), 2) as usize;
        let stride: usize = if c_level == 0 {
            24
        } else {
            16
        };
        assert(c_ent * stride <= 0xFFFF * 24) by (nonlinear_arith)
            requires
                c_ent <= 0xFFFF,
                stride <= 24,
        ;
        if 8 + c_ent * stride > payload.len() {
            let head: String = text::cat3("subnode block 0x", shown.as_str(), " claims ");
            let mid: String = text::cat3(
                head.as_str(),
                text::dec_string(c_ent as u64).as_str(),
                " entries but holds ",
            );
            return Err(
                Error::Format(
                    text::cat3(
                        mid.as_str(),
                        text::dec_string(payload.len() as u64).as_str(),
                        " bytes",
                    ),
                ),
            );
        }
        let mut i: usize = 0;
        if c_level == 0 {
            assert(before + sl_entries(payload@, 0) =~= before);
            while i < c_ent
                invariant
                    i <= c_ent,
                    8 + c_ent * 24 <= payload@.len() <= usize::MAX,
                    out@ == maps::last_wins(before + sl_entries(payload@, i as nat)),
                decreases c_ent - i,
            {
                let o: usize = 8 + i * 24;
                let p: &[u8] = payload.as_slice();
                out.insert(u32le(p, o), (u64le(p, o + 8), u64le(p, o + 16)));
                proof {
                    let so_far = before + sl_entries(payload@, i as nat);
                    let next = before + sl_entries(payload@, (i + 1) as nat);
                    assert(next =~= so_far.push(next.last()));
                    maps::lemma_last_wins_push(so_far, next.last());
                }
                i = i + 1;
            }
        } else {
            let ghost mut seen: Seq<(u32, (u64, u64))> = seq![];
            assert(before + seen =~= before);
            while i < c_ent
                invariant
                    depth <= 4,
                    i <= c_ent,
                    8 + c_ent * 16 <= payload@.len() <= usize::MAX,
                    self@.subnode_tree(bid, depth as nat) == self@.subnode_children(
                        payload@,
                        c_ent as int,
                        depth as nat,
                    ),
                    self@.subnode_children(payload@, i as int, depth as nat) == Ok::<
                        Seq<(u32, (u64, u64))>,
                        ErrorV,
                    >(seen),
                    out@ == maps::last_wins(before + seen),
                decreases c_ent - i,
            {
                let child: u64 = u64le(payload.as_slice(), 8 + i * 16 + 8);
                match self.subnodes_into(child, out, depth + 1, Ghost(before + seen)) {
                    Ok(_) => {
                        proof {
                            let more = self@.subnode_tree(child, (depth + 1) as nat)->Ok_0;
                            assert((before + seen) + more =~= before + (seen + more));
                            seen = seen + more;
                        }
                    },
                    Err(e) => {
                        proof {
                            self@.lemma_subnode_children_fail(
                                payload@,
                                i + 1,
                                c_ent as int,
                                depth as nat,
                            );
                        }
                        return Err(e);
                    },
                }
                i = i + 1;
            }
        }
        Ok(())
    }
}

impl PffV {
    proof fn lemma_data_children_fail(self, p: Seq<u8>, k: int, n: int, depth: nat)
        requires
            k <= n,
            depth <= 4,
            self.data_children(p, k, depth) is Err,
        ensures
            self.data_children(p, n, depth) == self.data_children(p, k, depth),
        decreases n,
    {
        if k < n && n > 0 {
            self.lemma_data_children_fail(p, k, n - 1, depth);
        }
    }

    proof fn lemma_subnode_children_fail(self, p: Seq<u8>, k: int, n: int, depth: nat)
        requires
            k <= n,
            depth <= 4,
            self.subnode_children(p, k, depth) is Err,
        ensures
            self.subnode_children(p, n, depth) == self.subnode_children(p, k, depth),
        decreases n,
    {
        if k < n && n > 0 {
            self.lemma_subnode_children_fail(p, k, n - 1, depth);
        }
    }
}

/// Bit 0 of a bid is ignored: two bids that differ in nothing else lead to the same
/// payload, to the same data tree and to the same subnodes. Only the error of a
/// bid that leads nowhere tells them apart, for it names the bid.
pub proof fn lemma_reserved_bit_is_ignored(pff: PffV, bid: u64, depth: nat)
    requires
        bid % 2 == 0,
    ensures
        pff.block(bid) is Ok <==> pff.block((bid + 1) as u64) is Ok,
        pff.block(bid) is Ok ==> pff.block((bid + 1) as u64) == pff.block(bid),
        pff.data_tree(bid, depth) is Ok <==> pff.data_tree((bid + 1) as u64, depth) is Ok,
        pff.data_tree(bid, depth) is Ok ==> pff.data_tree((bid + 1) as u64, depth)
            == pff.data_tree(bid, depth),
        pff.subnode_tree(bid, depth) is Ok <==> pff.subnode_tree((bid + 1) as u64, depth) is Ok,
        pff.subnode_tree(bid, depth) is Ok ==> pff.subnode_tree((bid + 1) as u64, depth)
            == pff.subnode_tree(bid, depth),
{
    assert(internal_bid((bid + 1) as u64) == internal_bid(bid));
}

/// Only a store of a supported version without encryption opens.
pub proof fn lemma_opened_is_plain(map: Seq<u8>)
    requires
        opened(map) is Ok,
    ensures
        bytes::le16(map, 10) == 23 || bytes::le16(map, 10) == 36,
        map[0x201] == 0,
        opened(map)->Ok_0.map == map,
{
}

} // verus!
