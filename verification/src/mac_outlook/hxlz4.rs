//! LZ4 block decoder for `HxStore.hxd` payloads.
//!
//! A sequence is `[token][literal varint][literals][2-byte little-endian
//! distance][match-length varint]`, with the high nibble of `token` giving the
//! literal count and the low nibble the match length minus 4, either extended by
//! a 255-continuation varint when it hits 15.

use vstd::prelude::*;
use crate::bytes;

verus! {

/// The value that a 255-continuation varint at `i` adds up to from `base`, and
/// the offset just past it.
pub open spec fn varint(src: Seq<u8>, i: int, base: int) -> Option<(int, int)>
    decreases src.len() - i,
{
    if i < 0 || i >= src.len() {
        None
    } else if src[i] != 0xFF {
        Some((base + src[i], i + 1))
    } else {
        varint(src, i + 1, base + 0xFF)
    }
}

/// A count given by a nibble: itself, or a varint at `i` when it is 15.
pub open spec fn count(src: Seq<u8>, i: int, nibble: int, bias: int) -> Option<(int, int)> {
    if nibble == 15 {
        varint(src, i, nibble + bias)
    } else {
        Some((nibble + bias, i))
    }
}

/// `out` with `n` more bytes, each the one `dist` before it. A distance smaller
/// than `n` repeats what the copy itself has written.
pub open spec fn repeated(out: Seq<u8>, dist: int, n: nat) -> Seq<u8>
    decreases n,
{
    if n == 0 {
        out
    } else {
        let so_far = repeated(out, dist, (n - 1) as nat);
        so_far.push(so_far[so_far.len() - dist])
    }
}

/// What the sequences from offset `i` on make of the output so far. A block's
/// final sequence may be literals only: there is nothing left to read a match from.
pub open spec fn inflated(src: Seq<u8>, i: int, out: Seq<u8>) -> Option<Seq<u8>>
    decreases src.len() - i,
{
    if i < 0 || i >= src.len() {
        Some(out)
    } else {
        proof {
            lemma_varint_moves_on(src, i + 1, 15);
        }
        match count(src, i + 1, src[i] as int / 16, 0) {
            None => None,
            Some((lit, at)) => if at + lit > src.len() {
                None
            } else {
                let out1 = out + src.subrange(at, at + lit);
                let i1 = at + lit;
                if i1 >= src.len() {
                    Some(out1)
                } else if i1 + 2 > src.len() {
                    None
                } else {
                    let dist = bytes::le16(src, i1);
                    if dist == 0 || dist > out1.len() {
                        None
                    } else {
                        proof {
                            lemma_varint_moves_on(src, i1 + 2, 19);
                        }
                        match count(src, i1 + 2, src[i] as int % 16, 4) {
                            None => None,
                            Some((len, i2)) => inflated(
                                src,
                                i2,
                                repeated(out1, dist, len as nat),
                            ),
                        }
                    }
                }
            },
        }
    }
}

/// What a block payload inflates to, if that has exactly `expected` bytes.
pub open spec fn lz4_block(src: Seq<u8>, expected: int) -> Option<Seq<u8>> {
    match inflated(src, 0, seq![]) {
        Some(out) => if out.len() == expected {
            Some(out)
        } else {
            None
        },
        None => None,
    }
}

/// Output is only ever added to.
proof fn lemma_inflated_grows(src: Seq<u8>, i: int, out: Seq<u8>)
    ensures
        inflated(src, i, out) matches Some(v) ==> v.len() >= out.len(),
    decreases src.len() - i,
{
    if 0 <= i < src.len() {
        lemma_varint_moves_on(src, i + 1, 15);
        if let Some((lit, at)) = count(src, i + 1, src[i] as int / 16, 0) {
            if at + lit <= src.len() {
                let out1 = out + src.subrange(at, at + lit);
                let i1 = at + lit;
                if i1 + 2 <= src.len() {
                    let dist = bytes::le16(src, i1);
                    lemma_varint_moves_on(src, i1 + 2, 19);
                    if let Some((len, i2)) = count(src, i1 + 2, src[i] as int % 16, 4) {
                        lemma_repeated_len(out1, dist, len as nat);
                        lemma_inflated_grows(src, i2, repeated(out1, dist, len as nat));
                    }
                }
            }
        }
    }
}

/// What one sequence adds stays in the output.
proof fn lemma_sequence_grows(src: Seq<u8>, i: int, out: Seq<u8>)
    requires
        0 <= i < src.len(),
    ensures
        inflated(src, i, out) matches Some(v) ==> (count(src, i + 1, src[i] as int / 16, 0) matches Some(
            (lit, at),
        ) && v.len() >= out.len() + lit && (at + lit < src.len() ==> (count(
            src,
            at + lit + 2,
            src[i] as int % 16,
            4,
        ) matches Some((len, i2)) && v.len() >= out.len() + lit + len))),
{
    lemma_varint_moves_on(src, i + 1, 15);
    if let Some((lit, at)) = count(src, i + 1, src[i] as int / 16, 0) {
        if at + lit + 2 <= src.len() {
            let out1 = out + src.subrange(at, at + lit);
            let dist = bytes::le16(src, at + lit);
            lemma_varint_moves_on(src, at + lit + 2, 19);
            if let Some((len, i2)) = count(src, at + lit + 2, src[i] as int % 16, 4) {
                lemma_repeated_len(out1, dist, len as nat);
                lemma_inflated_grows(src, i2, repeated(out1, dist, len as nat));
            }
        }
    }
}

/// A varint lies inside the buffer, and does not make less of what it extends.
pub proof fn lemma_varint_moves_on(src: Seq<u8>, i: int, base: int)
    requires
        0 <= i,
    ensures
        varint(src, i, base) matches Some((n, j)) ==> n >= base && i < j <= src.len(),
    decreases src.len() - i,
{
    if i < src.len() && src[i] == 0xFF {
        lemma_varint_moves_on(src, i + 1, base + 0xFF);
    }
}

proof fn lemma_repeated_len(out: Seq<u8>, dist: int, n: nat)
    ensures
        repeated(out, dist, n).len() == out.len() + n,
    decreases n,
{
    if n > 0 {
        lemma_repeated_len(out, dist, (n - 1) as nat);
    }
}

/// `n`, or the greatest `usize` where it is greater still.
spec fn saturated(n: int) -> int {
    if n <= usize::MAX {
        n
    } else {
        usize::MAX as int
    }
}

fn read_varint(src: &[u8], i: usize, base: usize) -> (r: Option<(usize, usize)>)
    ensures
        match varint(src@, i as int, base as int) {
            Some((n, j)) => r matches Some((rn, rj)) && rn == saturated(n) && rj == j && i < rj
                <= src@.len() && n >= base,
            None => r is None,
        },
{
    proof {
        lemma_varint_moves_on(src@, i as int, base as int);
    }
    let mut n: usize = base;
    let mut k: usize = i;
    let ghost mut exact: int = base as int;
    while k < src.len()
        invariant
            i <= k,
            exact >= base,
            n == saturated(exact),
            varint(src@, k as int, exact) == varint(src@, i as int, base as int),
        decreases src@.len() - k,
    {
        let b: u8 = src[k];
        n = n.saturating_add(b as usize);
        proof {
            exact = exact + b;
        }
        k = k + 1;
        if b != 0xFF {
            return Some((n, k));
        }
    }
    None
}

/// Decode one block payload, requiring it to inflate to exactly `expected`
/// bytes.
///
/// The block container states the inflated size, so a correct decode lands on it
/// precisely. LZ4 has no checksum of its own, so a wrong start still "decodes"
/// into something: anything but an exact length match, or a back-reference
/// pointing outside the window, means this was not really an LZ4 stream at this
/// offset, and returning `None` beats returning plausible garbage.
pub fn decode_exact(src: &[u8], expected: usize) -> (r: Option<Vec<u8>>)
    ensures
        bytes::opt_bytes(r) == lz4_block(src@, expected as int),
        r matches Some(v) ==> v@.len() == expected,
{
    let mut out: Vec<u8> = Vec::new();
    let mut i: usize = 0;
    let total: usize = src.len();
    while i < total
        invariant
            total == src@.len(),
            i <= total,
            out@.len() <= expected,
            inflated(src@, i as int, out@) == inflated(src@, 0, seq![]),
        ensures
            i == total,
        decreases total - i,
    {
        let ghost i0 = i as int;
        let ghost out0 = out@;
        proof {
            lemma_varint_moves_on(src@, i0 + 1, 15);
        }
        let token: u8 = src[i];
        i = i + 1;
        let mut lit: usize = (token / 16) as usize;
        if lit == 15 {
            match read_varint(src, i, lit) {
                Some((n, at)) => {
                    lit = n;
                    i = at;
                },
                None => {
                    return None;
                },
            }
        }
        if lit > total - i {
            return None;
        }
        assert(count(src@, i0 + 1, token as int / 16, 0) == Some((lit as int, i as int)));
        let end: usize = i + lit;
        let ghost out1 = out0 + src@.subrange(i as int, end as int);
        if lit > expected - out.len() {
            proof {
                lemma_sequence_grows(src@, i0, out0);
            }
            return None;
        }
        out.extend_from_slice(vstd::slice::slice_subrange(src, i, end));
        assert(out@ =~= out1);
        i = end;
        if i >= total {
            break;
        }
        if total - i < 2 {
            return None;
        }
        let dist: usize = bytes::u16le(src, i) as usize;
        i = i + 2;
        if dist == 0 || dist > out.len() {
            return None;
        }
        let mut len: usize = (token % 16) as usize + 4;
        if token % 16 == 15 {
            match read_varint(src, i, len) {
                Some((n, at)) => {
                    len = n;
                    i = at;
                },
                None => {
                    return None;
                },
            }
        }
        let ghost counted = count(src@, end + 2, token as int % 16, 4);
        assert(counted matches Some((exact, at)) && at == i && len == saturated(exact));
        if len > expected - out.len() {
            proof {
                lemma_sequence_grows(src@, i0, out0);
            }
            return None;
        }
        // A distance smaller than the match length means the copy overlaps its
        // own output (run-length expansion) and must proceed one byte at a time
        // rather than as a slice copy.
        let mut k: usize = 0;
        while k < len
            invariant
                k <= len,
                0 < dist <= out1.len(),
                out1.len() + len <= expected,
                out@.len() == out1.len() + k,
                out@ == repeated(out1, dist as int, k as nat),
            decreases len - k,
        {
            let b: u8 = out[out.len() - dist];
            out.push(b);
            k = k + 1;
        }
        assert(inflated(src@, i0, out0) == inflated(src@, i as int, out@));
    }
    if out.len() == expected {
        Some(out)
    } else {
        None
    }
}

/// The match copies of a block are periodic: byte `k` behind the start repeats
/// the one `dist` before it.
pub proof fn lemma_repeated_is_periodic(out: Seq<u8>, dist: int, n: nat, k: int)
    requires
        0 < dist <= out.len(),
        out.len() <= k < out.len() + n,
    ensures
        repeated(out, dist, n).len() == out.len() + n,
        repeated(out, dist, n)[k] == repeated(out, dist, n)[k - dist],
        repeated(out, dist, n).take(out.len() as int) == out,
    decreases n,
{
    lemma_repeated_len(out, dist, n);
    lemma_repeated_len(out, dist, (n - 1) as nat);
    let before = repeated(out, dist, (n - 1) as nat);
    if n > 1 {
        lemma_repeated_is_periodic(
            out,
            dist,
            (n - 1) as nat,
            if k < out.len() + n - 1 {
                k
            } else {
                out.len() as int
            },
        );
        assert(repeated(out, dist, n).take(out.len() as int) =~= before.take(out.len() as int));
    } else {
        assert(repeated(out, dist, n).take(out.len() as int) =~= out);
    }
}

} // verus!
