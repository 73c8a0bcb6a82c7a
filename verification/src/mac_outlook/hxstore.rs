//! `HxStore.hxd` file and block container.
//!
//! ```text
//! file header (48+ bytes): magic "Nostromo", version byte, page size
//! block (40-byte header + LZ4 payload), repeated, found by magic scan:
//!   +0x00  u32  crc32(block[0x04..0x20])            header checksum
//!   +0x04  u32  crc32(block[0x08..0x28+payload_len]) payload checksum
//!   +0x08  u64  magic 0x5d0245643b706a05
//!   +0x10  u32  kind
//!   +0x14  u32  payload_len   compressed bytes, starting at +0x28
//!   +0x18  u32  inflated_len  exact decompressed size
//!   +0x1c  u32  4
//!   +0x28  ..   LZ4-compressed payload
//! ```
//!
//! There is no usable block directory. Blocks are found by scanning for the magic
//! and validating both checksums plus the declared inflated length; a false
//! positive cannot survive all three, which is what makes a magic scan safe here.

use vstd::prelude::*;
use crate::bytes;
use crate::bytes::u32le;
use crate::errors::ErrorV;
use crate::mac_outlook::hxlz4;
use crate::mailbox;
use crate::views;

verus! {

/// `Nostromo`.
pub const FILE_MAGIC: [u8; 8] = [0x4E, 0x6F, 0x73, 0x74, 0x72, 0x6F, 0x6D, 0x6F];

/// The versions this reader was tried on: `i` and `h`.
pub const KNOWN_VERSIONS: [u8; 2] = [0x69, 0x68];

pub const BLOCK_HEADER_LEN: usize = 0x28;

/// A block larger than this is treated as corrupt rather than allocated: a
/// garbage `inflated_len` must not cause a huge allocation before the checksum
/// that would have rejected it is even reached.
pub const MAX_INFLATED_LEN: usize = 33_554_432;

/// The magic of a block, as it stands in the file.
pub open spec fn block_magic() -> Seq<u8> {
    seq![0x05u8, 0x6A, 0x70, 0x3B, 0x64, 0x45, 0x02, 0x5D]
}

pub struct FileHeader {
    pub version: u8,
    pub known_version: bool,
    pub page_size: u64,
}

/// The header of a file, if it is an HxStore. An unrecognised version still has
/// one.
pub open spec fn header_of(data: Seq<u8>) -> Result<FileHeader, ErrorV> {
    if data.len() < 0x40 {
        Err(ErrorV::Format("HxStore.hxd: file too small for a header"@))
    } else if data.take(8) != FILE_MAGIC@ {
        Err(ErrorV::Format("HxStore.hxd: missing Nostromo magic"@))
    } else {
        Ok(
            FileHeader {
                version: data[8],
                known_version: data[8] == 0x69 || data[8] == 0x68,
                page_size: bytes::le64(data, 0x38) as u64,
            },
        )
    }
}

/// Validate the file header. `Err` only when this is not an HxStore at all; an
/// unrecognised version still parses, since the per-block checksums (not the
/// version byte) are what actually guards correctness.
pub fn check_header(data: &[u8]) -> (r: Result<FileHeader, mailbox::Error>)
    ensures
        match r {
            Ok(h) => header_of(data@) == Ok::<FileHeader, ErrorV>(h),
            Err(e) => header_of(data@) == Err::<FileHeader, ErrorV>(e@),
        },
{
    if data.len() < 0x40 {
        return Err(
            mailbox::Error::Format("HxStore.hxd: file too small for a header".to_owned()),
        );
    }
    let same: bool = data[0] == 0x4E && data[1] == 0x6F && data[2] == 0x73 && data[3] == 0x74
        && data[4] == 0x72 && data[5] == 0x6F && data[6] == 0x6D && data[7] == 0x6F;
    proof {
        let s = data@.take(8);
        let m = FILE_MAGIC@;
        if same {
            assert(s =~= m);
        } else {
            assert(s[0] != m[0] || s[1] != m[1] || s[2] != m[2] || s[3] != m[3] || s[4] != m[4]
                || s[5] != m[5] || s[6] != m[6] || s[7] != m[7]);
        }
    }
    if !same {
        return Err(mailbox::Error::Format("HxStore.hxd: missing Nostromo magic".to_owned()));
    }
    let version: u8 = data[8];
    Ok(
        FileHeader {
            version,
            known_version: version == 0x69 || version == 0x68,
            page_size: bytes::u64le(data, 0x38),
        },
    )
}

pub struct Block {
    pub kind: u32,
    pub data: Vec<u8>,
}

/// A block with its data as a sequence of bytes.
pub struct BlockV {
    pub kind: u32,
    pub data: Seq<u8>,
}

impl View for Block {
    type V = BlockV;

    open spec fn view(&self) -> BlockV {
        BlockV { kind: self.kind, data: self.data@ }
    }
}

/// One bit of a CRC-32 with the IEEE polynomial.
pub open spec fn crc_bit(c: u32) -> u32 {
    if c & 1 != 0 {
        0xEDB8_8320u32 ^ (c >> 1)
    } else {
        c >> 1
    }
}

/// Eight bits of a CRC-32.
pub open spec fn crc_byte(c: u32) -> u32 {
    crc_bit(crc_bit(crc_bit(crc_bit(crc_bit(crc_bit(crc_bit(crc_bit(c))))))))
}

/// A CRC-32 register once these bytes have gone through it.
pub open spec fn crc_register(data: Seq<u8>) -> u32
    decreases data.len(),
{
    if data.len() == 0 {
        0xFFFF_FFFFu32
    } else {
        crc_byte(crc_register(data.drop_last()) ^ (data.last() as u32))
    }
}

/// The CRC-32 of these bytes, as gzip and zlib compute it.
pub open spec fn crc_of(data: Seq<u8>) -> u32 {
    !crc_register(data)
}

fn crc_step(c: u32) -> (r: u32)
    ensures
        r == crc_bit(c),
{
    if c & 1 != 0 {
        0xEDB8_8320u32 ^ (c >> 1)
    } else {
        c >> 1
    }
}

/// The CRC-32 of each single byte.
pub struct CrcTable {
    entries: Vec<u32>,
}

impl CrcTable {
    pub closed spec fn wf(&self) -> bool {
        &&& self.entries@.len() == 256
        &&& forall|i: int| 0 <= i < 256 ==> #[trigger] self.entries@[i] == crc_byte(i as u32)
    }

    pub fn new() -> (r: CrcTable)
        ensures
            r.wf(),
    {
        let mut entries: Vec<u32> = Vec::new();
        let mut i: u32 = 0;
        while i < 256
            invariant
                i <= 256,
                entries@.len() == i,
                forall|k: int| 0 <= k < i ==> #[trigger] entries@[k] == crc_byte(k as u32),
            decreases 256 - i,
        {
            let a: u32 = crc_step(crc_step(crc_step(crc_step(i))));
            entries.push(crc_step(crc_step(crc_step(crc_step(a)))));
            i = i + 1;
        }
        CrcTable { entries }
    }

    /// The CRC-32 of `data[from..to]`.
    pub fn crc(&self, data: &[u8], from: usize, to: usize) -> (r: u32)
        requires
            self.wf(),
            from <= to <= data@.len(),
        ensures
            r == crc_of(data@.subrange(from as int, to as int)),
    {
        let mut crc: u32 = 0xFFFF_FFFF;
        let mut i: usize = from;
        while i < to
            invariant
                self.wf(),
                from <= i <= to <= data@.len(),
                crc == crc_register(data@.subrange(from as int, i as int)),
            decreases to - i,
        {
            let b: u32 = data[i] as u32;
            proof {
                let next = data@.subrange(from as int, i + 1);
                assert(next.drop_last() =~= data@.subrange(from as int, i as int));
                assert(next.last() == data@[i as int]);
                lemma_crc_byte_by_table(crc, b);
                assert((crc ^ b) & 0xFF < 256) by (bit_vector);
            }
            crc = self.entries[((crc ^ b) & 0xFF) as usize] ^ (crc >> 8);
            i = i + 1;
        }
        !crc
    }
}

proof fn lemma_crc_byte_by_table(crc: u32, b: u32)
    requires
        b < 256,
    ensures
        crc_byte(crc ^ b) == crc_byte((crc ^ b) & 0xFF) ^ (crc >> 8),
{
    assert(crc_byte(crc ^ b) == crc_byte((crc ^ b) & 0xFF) ^ (crc >> 8)) by (bit_vector)
        requires
            b < 256,
    ;
}

/// CRC-32 (IEEE / zlib polynomial `0xEDB88320`), the same algorithm gzip and
/// zlib use.
pub fn crc32(data: &[u8]) -> (r: u32)
    ensures
        r == crc_of(data@),
{
    let table: CrcTable = CrcTable::new();
    assert(data@.subrange(0, data@.len() as int) =~= data@);
    table.crc(data, 0, data.len())
}

/// The block whose header starts at `off`, if the header checksum, the payload
/// checksum and the declared inflated length all agree.
pub open spec fn block_at(data: Seq<u8>, off: int) -> Option<BlockV> {
    let payload_len = bytes::le32(data, off + 0x14);
    let inflated_len = bytes::le32(data, off + 0x18);
    let end = off + BLOCK_HEADER_LEN + payload_len;
    if off + BLOCK_HEADER_LEN > data.len() {
        None
    } else if inflated_len == 0 || inflated_len > MAX_INFLATED_LEN || end > data.len() {
        None
    } else if crc_of(data.subrange(off + 4, off + 0x20)) != bytes::le32(data, off) {
        None
    } else if crc_of(data.subrange(off + 8, end)) != bytes::le32(data, off + 4) {
        None
    } else {
        match hxlz4::lz4_block(data.subrange(off + BLOCK_HEADER_LEN, end), inflated_len) {
            Some(d) => Some(BlockV { kind: bytes::le32(data, off + 0x10) as u32, data: d }),
            None => None,
        }
    }
}

/// Parse and fully verify the block whose magic was found at `off + 8`.
/// Returns `None` unless the header checksum, the payload checksum and the
/// declared inflated length all agree.
fn parse_block(data: &[u8], off: usize, table: &CrcTable) -> (r: Option<Block>)
    requires
        table.wf(),
        off <= data@.len(),
    ensures
        match r {
            Some(b) => block_at(data@, off as int) == Some(b@) && b.data@.len()
                <= MAX_INFLATED_LEN,
            None => block_at(data@, off as int) is None,
        },
{
    if data.len() - off < BLOCK_HEADER_LEN {
        return None;
    }
    let crc_header: u32 = u32le(data, off);
    let crc_body: u32 = u32le(data, off + 0x04);
    let kind: u32 = u32le(data, off + 0x10);
    let payload_len: u32 = u32le(data, off + 0x14);
    let inflated_len: u32 = u32le(data, off + 0x18);
    if inflated_len == 0 || inflated_len as usize > MAX_INFLATED_LEN {
        return None;
    }
    if payload_len as usize > data.len() - off - BLOCK_HEADER_LEN {
        return None;
    }
    let end: usize = off + BLOCK_HEADER_LEN + payload_len as usize;
    if table.crc(data, off + 4, off + 0x20) != crc_header {
        return None;
    }
    if table.crc(data, off + 8, end) != crc_body {
        return None;
    }
    let payload: &[u8] = vstd::slice::slice_subrange(data, off + BLOCK_HEADER_LEN, end);
    match hxlz4::decode_exact(payload, inflated_len as usize) {
        Some(d) => Some(Block { kind, data: d }),
        None => None,
    }
}

/// Whether the block magic stands at `m`.
pub open spec fn magic_at(data: Seq<u8>, m: int) -> bool {
    0 <= m && m + 8 <= data.len() && data.subrange(m, m + 8) == block_magic()
}

fn is_magic_at(data: &[u8], m: usize) -> (r: bool)
    requires
        m + 8 <= data@.len() <= usize::MAX,
    ensures
        r == magic_at(data@, m as int),
{
    let same: bool = data[m] == 0x05 && data[m + 1] == 0x6A && data[m + 2] == 0x70 && data[m + 3]
        == 0x3B && data[m + 4] == 0x64 && data[m + 5] == 0x45 && data[m + 6] == 0x02 && data[m + 7]
        == 0x5D;
    proof {
        let s = data@.subrange(m as int, m + 8);
        let w = block_magic();
        if same {
            assert(s =~= w);
        } else {
            assert(s[0] != w[0] || s[1] != w[1] || s[2] != w[2] || s[3] != w[3] || s[4] != w[4]
                || s[5] != w[5] || s[6] != w[6] || s[7] != w[7]);
        }
    }
    same
}

/// The verified blocks whose magic stands before `m`, in file order.
pub open spec fn blocks_before(data: Seq<u8>, m: int) -> Seq<BlockV>
    decreases m,
{
    if m <= 0 {
        seq![]
    } else {
        let front = blocks_before(data, m - 1);
        if magic_at(data, m - 1) && m - 1 >= 8 && block_at(data, m - 1 - 8) is Some {
            front.push(block_at(data, m - 1 - 8)->Some_0)
        } else {
            front
        }
    }
}

/// Every verified block of the file: each occurrence of the magic, overlapping
/// ones too, whose block checks out.
pub open spec fn blocks_of(data: Seq<u8>) -> Seq<BlockV> {
    blocks_before(data, data.len() as int)
}

/// Every verified block in the file, found by scanning for the block magic rather
/// than by walking a directory (see the module doc for why).
pub fn scan_blocks(data: &[u8]) -> (r: Vec<Block>)
    ensures
        views::views(r@) == blocks_of(data@),
        forall|i: int| 0 <= i < r@.len() ==> (#[trigger] r@[i]).data@.len() <= MAX_INFLATED_LEN,
{
    broadcast use views::lemma_views_push;

    let table: CrcTable = CrcTable::new();
    let mut out: Vec<Block> = Vec::new();
    let n: usize = data.len();
    let mut m: usize = 0;
    assert(views::views(out@) =~= seq![]);
    while m < n
        invariant
            table.wf(),
            n == data@.len(),
            m <= n,
            views::views(out@) == blocks_before(data@, m as int),
            forall|i: int|
                0 <= i < out@.len() ==> (#[trigger] out@[i]).data@.len() <= MAX_INFLATED_LEN,
        decreases n - m,
    {
        if m >= 8 && n - m >= 8 && is_magic_at(data, m) {
            if let Some(b) = parse_block(data, m - 8, &table) {
                out.push(b);
            }
        }
        m = m + 1;
    }
    out
}

/// Nothing unverified is ever yielded: each scanned block has the magic, both of
/// its checksums and its declared length, which is not zero and within the limit.
pub proof fn lemma_scanned_blocks_are_verified(data: Seq<u8>, i: int)
    requires
        0 <= i < blocks_of(data).len(),
    ensures
        exists|off: int|
            0 <= off && magic_at(data, off + 8) && #[trigger] block_at(data, off) == Some(
                blocks_of(data)[i],
            ) && crc_of(data.subrange(off + 4, off + 0x20)) == bytes::le32(data, off) && crc_of(
                data.subrange(off + 8, off + 0x28 + bytes::le32(data, off + 0x14)),
            ) == bytes::le32(data, off + 4) && 0 < bytes::le32(data, off + 0x18)
                <= MAX_INFLATED_LEN,
{
    lemma_before_are_verified(data, data.len() as int, i);
}

proof fn lemma_before_are_verified(data: Seq<u8>, m: int, i: int)
    requires
        0 <= i < blocks_before(data, m).len(),
    ensures
        exists|off: int|
            0 <= off && magic_at(data, off + 8) && #[trigger] block_at(data, off) == Some(
                blocks_before(data, m)[i],
            ) && crc_of(data.subrange(off + 4, off + 0x20)) == bytes::le32(data, off) && crc_of(
                data.subrange(off + 8, off + 0x28 + bytes::le32(data, off + 0x14)),
            ) == bytes::le32(data, off + 4) && 0 < bytes::le32(data, off + 0x18)
                <= MAX_INFLATED_LEN,
    decreases m,
{
    let front = blocks_before(data, m - 1);
    if i < front.len() {
        lemma_before_are_verified(data, m - 1, i);
        assert(blocks_before(data, m)[i] == front[i]);
    } else {
        assert(block_at(data, m - 1 - 8) == Some(blocks_before(data, m)[i]));
    }
}

} // verus!
