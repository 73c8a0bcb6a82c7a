//! Laws of the cache of Outlook for Mac: its compression, its checksums and its
//! blocks.

use vstd::prelude::*;
use crate::bytes;
use crate::laws::heap::{lemma_widths, number_at};
use crate::mac_outlook::hxlz4;
use crate::mac_outlook::hxstore;
use crate::mac_outlook::hxstore::{Block, BlockV, FileHeader};
use crate::mailbox;
use crate::views;

verus! {

/// A step of a compressed stream: bytes as they are, and then a copy of `len` bytes
/// from `dist` bytes back.
pub struct Copying {
    pub plain: Seq<u8>,
    pub dist: int,
    pub len: int,
}

/// What is left of a count beyond fifteen: as many times 255 as it holds, and the
/// rest.
pub open spec fn spilled(n: int) -> Seq<u8>
    decreases n,
{
    if n < 255 {
        seq![n as u8]
    } else {
        seq![255u8] + spilled(n - 255)
    }
}

/// The four bits of a count.
pub open spec fn nibble(n: int) -> int {
    if n < 15 {
        n
    } else {
        15
    }
}

/// The bytes of a count behind its four bits.
pub open spec fn spill(n: int) -> Seq<u8> {
    if n < 15 {
        seq![]
    } else {
        spilled(n - 15)
    }
}

/// How a step is written: the two counts, the plain bytes, how far back and what is
/// left of the second count. A copy is of four bytes at least.
pub open spec fn step_written(s: Copying) -> Seq<u8> {
    seq![(16 * nibble(s.plain.len() as int) + nibble(s.len - 4)) as u8] + spill(
        s.plain.len() as int,
    ) + s.plain + seq![(s.dist % 256) as u8, (s.dist / 256) as u8] + spill(s.len - 4)
}

/// How a stream is written: its steps, and plain bytes behind the last of them.
pub open spec fn stream_written(steps: Seq<Copying>, rest: Seq<u8>) -> Seq<u8>
    decreases steps.len(),
{
    if steps.len() == 0 {
        seq![(16 * nibble(rest.len() as int)) as u8] + spill(rest.len() as int) + rest
    } else {
        step_written(steps[0]) + stream_written(steps.skip(1), rest)
    }
}

/// `after` is `before` with `n` bytes more, each the same as the one `dist` before it.
pub open spec fn copied(before: Seq<u8>, dist: int, n: int, after: Seq<u8>) -> bool {
    &&& 0 < dist <= before.len()
    &&& after.len() == before.len() + n
    &&& after.take(before.len() as int) == before
    &&& forall|k: int| before.len() <= k < after.len() ==> #[trigger] after[k] == after[k - dist]
}

/// `outs` is what there is before each step and behind the last.
pub open spec fn unfolds(steps: Seq<Copying>, outs: Seq<Seq<u8>>) -> bool {
    &&& outs.len() == steps.len() + 1
    &&& forall|k: int|
        0 <= k < steps.len() ==> {
            let s = #[trigger] steps[k];
            4 <= s.len && s.dist < 0x1_0000 && copied(outs[k] + s.plain, s.dist, s.len, outs[k + 1])
        }
}

proof fn lemma_spilled(before: Seq<u8>, n: int, behind: Seq<u8>, base: int)
    requires
        n >= 0,
    ensures
        hxlz4::varint(before + spilled(n) + behind, before.len() as int, base) == Some(
            (base + n, (before.len() + spilled(n).len()) as int),
        ),
    decreases n,
{
    let all = before + spilled(n) + behind;
    assert(all[before.len() as int] == spilled(n)[0]);
    if n >= 255 {
        lemma_spilled(before.push(255u8), n - 255, behind, base + 255);
        assert(before.push(255u8) + spilled(n - 255) + behind =~= all);
        assert(spilled(n).len() == 1 + spilled(n - 255).len());
    }
}

proof fn lemma_count(before: Seq<u8>, n: int, behind: Seq<u8>, bias: int)
    requires
        n >= 0,
    ensures
        hxlz4::count(before + spill(n) + behind, before.len() as int, nibble(n), bias) == Some(
            (n + bias, (before.len() + spill(n).len()) as int),
        ),
{
    if n >= 15 {
        lemma_spilled(before, n - 15, behind, 15 + bias);
    }
}

proof fn lemma_copied_is_repeated(before: Seq<u8>, dist: int, n: int, after: Seq<u8>)
    requires
        n >= 0,
        copied(before, dist, n, after),
    ensures
        hxlz4::repeated(before, dist, n as nat) == after,
    decreases n,
{
    if n == 0 {
        assert(after =~= before);
    } else {
        let less = after.drop_last();
        assert(less.take(before.len() as int) =~= after.take(before.len() as int));
        assert forall|k: int| before.len() <= k < less.len() implies #[trigger] less[k] == less[k
            - dist] by {
            assert(after[k] == after[k - dist]);
        }
        lemma_copied_is_repeated(before, dist, n - 1, less);
        let last = after.len() - 1;
        assert(after[last] == after[last - dist]);
        assert(less.push(less[less.len() - dist]) =~= after);
    }
}

/// The offset behind a count and the bytes that it counts.
proof fn lemma_plain(before: Seq<u8>, low: int, plain: Seq<u8>, behind: Seq<u8>)
    requires
        0 <= low <= 15,
    ensures
        ({
            let n = plain.len() as int;
            let head = seq![(16 * nibble(n) + low) as u8] + spill(n) + plain;
            let src = before + head + behind;
            let at = before.len() as int;
            let from = at + 1 + spill(n).len();
            &&& src[at] as int / 16 == nibble(n)
            &&& src[at] as int % 16 == low
            &&& hxlz4::count(src, at + 1, nibble(n), 0) == Some((n, from))
            &&& head.len() == 1 + spill(n).len() + n
            &&& src.subrange(from, from + n) == plain
        }),
{
    let n = plain.len() as int;
    let token = (16 * nibble(n) + low) as u8;
    let head = seq![token] + spill(n) + plain;
    let src = before + head + behind;
    let upto = before.push(token);
    let from = upto.len() + spill(n).len();
    assert(src =~= upto + spill(n) + (plain + behind));
    lemma_count(upto, n, plain + behind, 0);
    assert(src[before.len() as int] == token);
    assert(src.subrange(from as int, from + n) =~= plain);
}

#[verifier::spinoff_prover]
proof fn lemma_last_step(before: Seq<u8>, rest: Seq<u8>, out: Seq<u8>)
    ensures
        hxlz4::inflated(
            before + stream_written(seq![], rest),
            before.len() as int,
            out,
        ) == Some(out + rest),
{
    let n = rest.len() as int;
    lemma_plain(before, 0, rest, seq![]);
    let head = seq![(16 * nibble(n) + 0) as u8] + spill(n) + rest;
    assert(stream_written(seq![], rest) =~= head);
    assert(before + head + Seq::<u8>::empty() =~= before + stream_written(seq![], rest));
    hxlz4::lemma_varint_moves_on(before + head, before.len() as int + 1, 15);
}

#[verifier::spinoff_prover]
proof fn lemma_one_step(
    before: Seq<u8>,
    s: Copying,
    behind: Seq<u8>,
    out: Seq<u8>,
    next: Seq<u8>,
)
    requires
        4 <= s.len,
        s.dist < 0x1_0000,
        copied(out + s.plain, s.dist, s.len, next),
    ensures
        hxlz4::inflated(before + step_written(s) + behind, before.len() as int, out)
            == hxlz4::inflated(
            before + step_written(s) + behind,
            (before.len() + step_written(s).len()) as int,
            next,
        ),
{
    let n = s.plain.len() as int;
    let m = s.len - 4;
    let far = seq![(s.dist % 256) as u8, (s.dist / 256) as u8];
    let head = seq![(16 * nibble(n) + nibble(m)) as u8] + spill(n) + s.plain;
    let src = before + step_written(s) + behind;
    let at = before.len() as int;
    let tail = far + spill(m) + behind;
    assert(src =~= before + head + tail);
    lemma_plain(before, nibble(m), s.plain, tail);
    let i1 = at + head.len();
    let mid = before + head + far;
    assert(src =~= mid + spill(m) + behind);
    lemma_count(mid, m, behind, 4);
    assert(src[i1] == far[0] && src[i1 + 1] == far[1]);
    assert(bytes::le16(src, i1) == s.dist);
    assert(mid.len() == i1 + 2);
    assert(mid.len() + spill(m).len() == before.len() + step_written(s).len());
    lemma_copied_is_repeated(out + s.plain, s.dist, s.len, next);
    hxlz4::lemma_varint_moves_on(src, at + 1, 15);
    hxlz4::lemma_varint_moves_on(src, i1 + 2, 19);
}

proof fn lemma_stream(
    before: Seq<u8>,
    steps: Seq<Copying>,
    rest: Seq<u8>,
    outs: Seq<Seq<u8>>,
)
    requires
        unfolds(steps, outs),
    ensures
        hxlz4::inflated(before + stream_written(steps, rest), before.len() as int, outs[0]) == Some(
            outs.last() + rest,
        ),
    decreases steps.len(),
{
    if steps.len() == 0 {
        assert(steps =~= seq![]);
        lemma_last_step(before, rest, outs[0]);
    } else {
        let s = steps[0];
        let more = steps.skip(1);
        let tail = stream_written(more, rest);
        let rest_outs = outs.skip(1);
        assert(copied(outs[0] + s.plain, s.dist, s.len, outs[0int + 1]));
        lemma_one_step(before, s, tail, outs[0], outs[1]);
        assert forall|k: int| 0 <= k < more.len() implies {
            let t = #[trigger] more[k];
            4 <= t.len && t.dist < 0x1_0000 && copied(
                rest_outs[k] + t.plain,
                t.dist,
                t.len,
                rest_outs[k + 1],
            )
        } by {
            assert(more[k] == steps[k + 1]);
            assert(rest_outs[k] == outs[k + 1] && rest_outs[k + 1] == outs[k + 1 + 1]);
        }
        let done = before + step_written(s);
        lemma_stream(done, more, rest, rest_outs);
        assert(done + tail =~= before + stream_written(steps, rest));
        assert(rest_outs.last() == outs.last());
        assert(rest_outs[0] == outs[1]);
    }
}

/// A compressed stream is unpacked to what its steps make of nothing, with the plain
/// bytes at its end behind it; where another length is expected, to nothing.
pub proof fn lemma_stream_unpacks(
    steps: Seq<Copying>,
    rest: Seq<u8>,
    outs: Seq<Seq<u8>>,
    src: &[u8],
    expected: usize,
    r: Option<Vec<u8>>,
)
    requires
        unfolds(steps, outs),
        outs[0].len() == 0,
        src@ == stream_written(steps, rest),
        call_ensures(hxlz4::decode_exact, (src, expected), r),
    ensures
        outs.last().len() + rest.len() == expected ==> (r matches Some(v) && v@ == outs.last() + rest),
        outs.last().len() + rest.len() != expected ==> r is None,
{
    lemma_stream(seq![], steps, rest, outs);
    assert(Seq::<u8>::empty() + stream_written(steps, rest) =~= src@);
    assert(outs[0] =~= Seq::<u8>::empty());
}

/// One turn of the checksum: the lowest bit goes out, and leaves its mark where it was
/// set.
pub open spec fn turned(c: u32) -> u32 {
    if c % 2 == 1 {
        (c / 2) ^ 0xEDB8_8320u32
    } else {
        c / 2
    }
}

/// A checksum grows byte by byte: each byte is mixed into the lowest bits of the
/// complement, which then turns eight times.
pub proof fn lemma_checksum_by_bytes(data: &[u8], longer: &[u8], x: u8, c: u32, d: u32)
    requires
        longer@ == data@.push(x),
        call_ensures(hxstore::crc32, (data,), c),
        call_ensures(hxstore::crc32, (longer,), d),
    ensures
        data@.len() == 0 ==> c == 0,
        d == !turned(
            turned(turned(turned(turned(turned(turned(turned((!c) ^ (x as u32)))))))),
        ),
{
    assert(longer@.drop_last() =~= data@);
    let g = hxstore::crc_register(data@);
    assert(!(!g) == g) by (bit_vector);
    assert(!0xFFFF_FFFFu32 == 0u32) by (bit_vector);
    assert forall|k: u32| #[trigger] turned(k) == hxstore::crc_bit(k) by {
        assert((k & 1 != 0) == (k % 2 == 1)) by (bit_vector);
        assert(k >> 1 == k / 2) by (bit_vector);
        let h = k / 2;
        assert(h ^ 0xEDB8_8320u32 == 0xEDB8_8320u32 ^ h) by (bit_vector);
    }
    let start = (!c) ^ (x as u32);
    let t1 = turned(start);
    let t2 = turned(t1);
    let t3 = turned(t2);
    let t4 = turned(t3);
    let t5 = turned(t4);
    let t6 = turned(t5);
    let t7 = turned(t6);
    assert(turned(t7) == hxstore::crc_byte(start));
}

/// A block of kind `kind` that holds `d` stands at `off` in the file: behind eight
/// bytes its mark, then its kind and its lengths, all under two checksums.
pub open spec fn block_stands(data: Seq<u8>, off: int, kind: u32, d: Seq<u8>) -> bool {
    let packed = number_at(data, off + 0x14, 4);
    let unpacked = number_at(data, off + 0x18, 4);
    &&& 0 <= off && off + 0x28 + packed <= data.len()
    &&& data.subrange(off + 8, off + 16) == seq![0x05u8, 0x6A, 0x70, 0x3B, 0x64, 0x45, 0x02, 0x5D]
    &&& number_at(data, off + 0x10, 4) == kind
    &&& 0 < unpacked <= 33_554_432
    &&& hxstore::crc_of(data.subrange(off + 4, off + 0x20)) == number_at(data, off, 4)
    &&& hxstore::crc_of(data.subrange(off + 8, off + 0x28 + packed)) == number_at(data, off + 4, 4)
    &&& hxlz4::lz4_block(data.subrange(off + 0x28, off + 0x28 + packed), unpacked) == Some(d)
}

/// The offsets rise.
pub open spec fn rising(offs: Seq<int>) -> bool {
    forall|i: int, j: int| 0 <= i < j < offs.len() ==> #[trigger] offs[i] < #[trigger] offs[j]
}

proof fn lemma_block_stands(data: Seq<u8>, off: int)
    requires
        0 <= off,
    ensures
        forall|kind: u32, d: Seq<u8>|
            (#[trigger] block_stands(data, off, kind, d)) == (hxstore::magic_at(data, off + 8)
                && hxstore::block_at(data, off) == Some(BlockV { kind, data: d })),
{
    lemma_widths(data, off);
    lemma_widths(data, off + 4);
    lemma_widths(data, off + 0x10);
    lemma_widths(data, off + 0x14);
    lemma_widths(data, off + 0x18);
    assert(number_at(data, off + 0x14, 4) >= 0);
}

proof fn lemma_blocks_before(data: Seq<u8>, m: int) -> (offs: Seq<int>)
    requires
        0 <= m <= data.len(),
    ensures
        rising(offs),
        offs.len() == hxstore::blocks_before(data, m).len(),
        forall|i: int|
            0 <= i < offs.len() ==> #[trigger] offs[i] + 8 < m && block_stands(
                data,
                offs[i],
                hxstore::blocks_before(data, m)[i].kind,
                hxstore::blocks_before(data, m)[i].data,
            ),
        forall|off: int, kind: u32, d: Seq<u8>| #[trigger]
            block_stands(data, off, kind, d) && off + 8 < m ==> offs.contains(off),
    decreases m,
{
    let found = hxstore::blocks_before(data, m);
    if m == 0 {
        seq![]
    } else {
        let less = lemma_blocks_before(data, m - 1);
        let front = hxstore::blocks_before(data, m - 1);
        let here = m - 1 - 8;
        if here >= 0 {
            lemma_block_stands(data, here);
        }
        let taken = here >= 0 && hxstore::magic_at(data, m - 1) && hxstore::block_at(data, here)
            is Some;
        if taken {
            let b = hxstore::block_at(data, here)->Some_0;
            let offs = less.push(here);
            assert(found == front.push(b));
            assert(block_stands(data, here, b.kind, b.data));
            assert forall|i: int| 0 <= i < offs.len() implies #[trigger] offs[i] + 8 < m
                && block_stands(data, offs[i], found[i].kind, found[i].data) by {
                if i < less.len() {
                    assert(offs[i] == less[i]);
                    assert(found[i] == front[i]);
                }
            }
            assert forall|off: int, kind: u32, d: Seq<u8>| #[trigger]
                block_stands(data, off, kind, d) && off + 8 < m implies offs.contains(off) by {
                if off + 8 < m - 1 {
                    let i = choose|i: int| 0 <= i < less.len() && less[i] == off;
                    assert(offs[i] == off);
                } else {
                    assert(offs[less.len() as int] == off);
                }
            }
            assert forall|i: int, j: int| 0 <= i < j < offs.len() implies #[trigger] offs[i]
                < #[trigger] offs[j] by {
                assert(offs[i] == less[i]);
                if j < less.len() {
                    assert(offs[j] == less[j]);
                }
            }
            offs
        } else {
            assert(found == front);
            less
        }
    }
}

/// A scan yields every block that stands in the file, in the order of the file, and
/// nothing else.
pub proof fn lemma_scan_yields_every_block(data: &[u8], r: Vec<Block>) -> (offs: Seq<int>)
    requires
        call_ensures(hxstore::scan_blocks, (data,), r),
    ensures
        rising(offs),
        offs.len() == r@.len(),
        forall|i: int|
            0 <= i < r@.len() ==> block_stands(
                data@,
                offs[i],
                (#[trigger] r@[i]).kind,
                r@[i].data@,
            ),
        forall|off: int, kind: u32, d: Seq<u8>| #[trigger]
            block_stands(data@, off, kind, d) ==> offs.contains(off),
{
    let n = data@.len() as int;
    let offs = lemma_blocks_before(data@, n);
    let vs = views::views(r@);
    assert(vs.len() == r@.len());
    assert forall|i: int| 0 <= i < r@.len() implies block_stands(
        data@,
        offs[i],
        (#[trigger] r@[i]).kind,
        r@[i].data@,
    ) by {
        assert(vs[i] == r@[i]@);
        assert(offs[i] + 8 < n);
    }
    assert forall|off: int, kind: u32, d: Seq<u8>| #[trigger]
        block_stands(data@, off, kind, d) implies offs.contains(off) by {
        lemma_widths(data@, off + 0x14);
        assert(number_at(data@, off + 0x14, 4) >= 0);
    }
    offs
}

/// A cache says what it is in its first 64 bytes: its mark, its version and its page
/// size.
pub proof fn lemma_cache_header(data: &[u8], r: Result<FileHeader, mailbox::Error>)
    requires
        call_ensures(hxstore::check_header, (data,), r),
    ensures
        r is Ok <==> data@.len() >= 0x40 && data@.take(8) == seq![
            0x4Eu8,
            0x6F,
            0x73,
            0x74,
            0x72,
            0x6F,
            0x6D,
            0x6F,
        ],
        r matches Ok(h) ==> h.version == data@[8] && h.page_size == number_at(data@, 0x38, 8)
            && h.known_version == (h.version == 0x68 || h.version == 0x69),
{
    lemma_widths(data@, 0x38);
    assert(hxstore::FILE_MAGIC@ =~= seq![0x4Eu8, 0x6F, 0x73, 0x74, 0x72, 0x6F, 0x6D, 0x6F]);
}

} // verus!
