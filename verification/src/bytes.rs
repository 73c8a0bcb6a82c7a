//! Little-endian integers at an offset of a byte buffer.

use vstd::prelude::*;

verus! {

/// The two bytes of `b` at `o`, least significant first.
pub open spec fn le16(b: Seq<u8>, o: int) -> int {
    b[o] + 0x100 * b[o + 1]
}

/// The four bytes of `b` at `o`, least significant first.
pub open spec fn le32(b: Seq<u8>, o: int) -> int {
    le16(b, o) + 0x1_0000 * le16(b, o + 2)
}

/// The eight bytes of `b` at `o`, least significant first.
pub open spec fn le64(b: Seq<u8>, o: int) -> int {
    le32(b, o) + 0x1_0000_0000 * le32(b, o + 4)
}

pub fn u16le(b: &[u8], o: usize) -> (r: u16)
    requires
        o + 2 <= b@.len(),
    ensures
        r == le16(b@, o as int),
{
    b[o] as u16 + 0x100 * (b[o + 1] as u16)
}

pub fn u32le(b: &[u8], o: usize) -> (r: u32)
    requires
        o + 4 <= b@.len(),
    ensures
        r == le32(b@, o as int),
{
    assert(o + 4 <= b.len());
    u16le(b, o) as u32 + 0x1_0000 * (u16le(b, o + 2) as u32)
}

pub fn u64le(b: &[u8], o: usize) -> (r: u64)
    requires
        o + 8 <= b@.len(),
    ensures
        r == le64(b@, o as int),
{
    assert(o + 8 <= b.len());
    u32le(b, o) as u64 + 0x1_0000_0000 * (u32le(b, o + 4) as u64)
}

/// A copy of `b[from..to]`.
pub fn copy_range(b: &[u8], from: usize, to: usize) -> (r: Vec<u8>)
    requires
        from <= to <= b@.len(),
    ensures
        r@ == b@.subrange(from as int, to as int),
{
    let mut out: Vec<u8> = Vec::with_capacity(to - from);
    let mut i: usize = from;
    while i < to
        invariant
            from <= i <= to <= b@.len(),
            out@ == b@.subrange(from as int, i as int),
        decreases to - i,
    {
        out.push(b[i]);
        i = i + 1;
    }
    out
}

/// The contents of an optional buffer.
pub open spec fn opt_bytes(o: Option<Vec<u8>>) -> Option<Seq<u8>> {
    match o {
        Some(v) => Some(v@),
        None => None,
    }
}

/// The contents of each buffer of a list.
pub open spec fn each(v: Seq<Vec<u8>>) -> Seq<Seq<u8>> {
    Seq::new(v.len(), |i: int| v[i]@)
}

/// Putting all buffers of a list in a row.
pub fn concat(v: &Vec<Vec<u8>>) -> (r: Vec<u8>)
    ensures
        r@ == each(v@).flatten(),
{
    let mut out: Vec<u8> = Vec::new();
    let mut i: usize = 0;
    assert(each(v@).take(0) =~= Seq::<Seq<u8>>::empty());
    while i < v.len()
        invariant
            i <= v@.len(),
            out@ == each(v@).take(i as int).flatten_alt(),
        decreases v@.len() - i,
    {
        out.extend_from_slice(v[i].as_slice());
        assert(each(v@).take(i + 1).drop_last() =~= each(v@).take(i as int));
        i = i + 1;
    }
    proof {
        assert(each(v@).take(i as int) =~= each(v@));
        each(v@).lemma_flatten_and_flatten_alt_are_equivalent();
    }
    out
}

} // verus!
