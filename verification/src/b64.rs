//! Base64 in the standard alphabet.

use vstd::prelude::*;

verus! {

/// The symbol of a 6-bit value.
pub open spec fn symbol(v: int) -> char {
    if v < 26 {
        (0x41 + v) as char
    } else if v < 52 {
        (0x61 + v - 26) as char
    } else if v < 62 {
        (0x30 + v - 52) as char
    } else if v == 62 {
        '+'
    } else {
        '/'
    }
}

/// Byte `j`, 0 behind the end.
pub open spec fn byte_or_zero(b: Seq<u8>, j: int) -> int {
    if j < b.len() {
        b[j] as int
    } else {
        0
    }
}

/// The `i`-th 6 bits of the bytes: four of them in three bytes.
pub open spec fn six_bits(b: Seq<u8>, i: int) -> int {
    let g = i / 4 * 3;
    let x = byte_or_zero(b, g);
    let y = byte_or_zero(b, g + 1);
    let z = byte_or_zero(b, g + 2);
    if i % 4 == 0 {
        x / 4
    } else if i % 4 == 1 {
        x % 4 * 16 + y / 16
    } else if i % 4 == 2 {
        y % 16 * 4 + z / 64
    } else {
        z % 64
    }
}

/// How many symbols hold `n` bytes.
pub open spec fn symbols_for(n: nat) -> nat {
    ((4 * n + 2) / 3) as nat
}

/// How many `=` fill up the last four symbols.
pub open spec fn padding_for(n: nat) -> nat {
    ((3 - n % 3) % 3) as nat
}

/// The bytes as symbols, with `pad` padding characters behind them.
pub open spec fn encoded(b: Seq<u8>, pad: nat) -> Seq<char> {
    Seq::new(
        symbols_for(b.len()) + pad,
        |i: int|
            if i < symbols_for(b.len()) {
                symbol(six_bits(b, i))
            } else {
                '='
            },
    )
}

/// Whether `s` stands for these bytes: their symbols, with no more padding behind
/// them than fills up the last four.
pub open spec fn stands_for(s: Seq<char>, b: Seq<u8>) -> bool {
    s.len() >= symbols_for(b.len()) && s.len() - symbols_for(b.len()) <= padding_for(b.len()) && s
        == encoded(b, (s.len() - symbols_for(b.len())) as nat)
}

/// Calls `base64::Engine::encode` of the crate's `STANDARD` engine: the symbols of
/// the bytes, padded to a multiple of four.
#[verifier::external_body]
pub(crate) fn encode(b: &[u8]) -> (r: String)
    ensures
        r@ == encoded(b@, padding_for(b@.len())),
{
    base64::Engine::encode(&base64::engine::general_purpose::STANDARD, b)
}

/// Calls `base64::Engine::decode` of an engine over the standard alphabet that is
/// indifferent to padding. It accepts exactly the texts that stand for some bytes:
/// the symbols of the bytes, no bits set in what the last symbol has left over,
/// and at most the canonical padding.
#[verifier::external_body]
pub(crate) fn decode(s: &str) -> (r: Option<Vec<u8>>)
    ensures
        match r {
            Some(b) => stands_for(s@, b@),
            None => forall|b: Seq<u8>| !#[trigger] stands_for(s@, b),
        },
{
    let config = base64::engine::GeneralPurposeConfig::new()
        .with_decode_padding_mode(base64::engine::DecodePaddingMode::Indifferent)
        .with_encode_padding(false);
    let engine = base64::engine::GeneralPurpose::new(&base64::alphabet::STANDARD, config);
    base64::Engine::decode(&engine, s).ok()
}

proof fn lemma_symbol_injective(v: int, w: int)
    requires
        0 <= v < 64,
        0 <= w < 64,
        symbol(v) == symbol(w),
    ensures
        v == w,
{
    assert(symbol(v) as int == symbol(w) as int);
}

proof fn lemma_six_bits_range(b: Seq<u8>, i: int)
    ensures
        0 <= six_bits(b, i) < 64,
{
}

proof fn lemma_bytes_from_six_bits(b: Seq<u8>, j: int)
    requires
        0 <= j < b.len(),
    ensures
        j % 3 == 0 ==> b[j] == six_bits(b, j / 3 * 4) * 4 + six_bits(b, j / 3 * 4 + 1) / 16,
        j % 3 == 1 ==> b[j] == six_bits(b, j / 3 * 4 + 1) % 16 * 16 + six_bits(b, j / 3 * 4 + 2) / 4,
        j % 3 == 2 ==> b[j] == six_bits(b, j / 3 * 4 + 2) % 4 * 64 + six_bits(b, j / 3 * 4 + 3),
{
    let q = j / 3;
    assert((q * 4) / 4 == q && (q * 4 + 1) / 4 == q && (q * 4 + 2) / 4 == q && (q * 4 + 3) / 4
        == q);
    assert((q * 4) % 4 == 0 && (q * 4 + 1) % 4 == 1 && (q * 4 + 2) % 4 == 2 && (q * 4 + 3) % 4
        == 3);
    let x = byte_or_zero(b, q * 3);
    let y = byte_or_zero(b, q * 3 + 1);
    let z = byte_or_zero(b, q * 3 + 2);
    assert((x % 4 * 16 + y / 16) / 16 == x % 4);
    assert((x % 4 * 16 + y / 16) % 16 == y / 16);
    assert((y % 16 * 4 + z / 64) / 4 == y % 16);
    assert((y % 16 * 4 + z / 64) % 4 == z / 64);
}

proof fn lemma_no_padding_symbol(v: int)
    requires
        0 <= v < 64,
    ensures
        symbol(v) != '=',
{
}

/// How many symbols the first `=` is behind.
proof fn lemma_same_symbol_count(s: Seq<char>, a: Seq<u8>, b: Seq<u8>)
    requires
        stands_for(s, a),
        stands_for(s, b),
    ensures
        symbols_for(a.len()) <= symbols_for(b.len()),
{
    let na = symbols_for(a.len());
    let nb = symbols_for(b.len());
    if na > nb {
        let i = nb as int;
        lemma_six_bits_range(a, i);
        lemma_no_padding_symbol(six_bits(a, i));
        assert(s[i] == encoded(a, (s.len() - na) as nat)[i]);
        assert(s[i] == encoded(b, (s.len() - nb) as nat)[i]);
    }
}

/// A text stands for at most one run of bytes, so decoding undoes encoding.
pub proof fn lemma_base64_unique(s: Seq<char>, a: Seq<u8>, b: Seq<u8>)
    requires
        stands_for(s, a),
        stands_for(s, b),
    ensures
        a == b,
{
    lemma_same_symbol_count(s, a, b);
    lemma_same_symbol_count(s, b, a);
    let n = symbols_for(a.len());
    assert(a.len() == b.len());
    let pad = (s.len() - n) as nat;
    assert forall|i: int| 0 <= i < n implies #[trigger] six_bits(a, i) == six_bits(b, i) by {
        lemma_six_bits_range(a, i);
        lemma_six_bits_range(b, i);
        assert(encoded(a, pad)[i] == symbol(six_bits(a, i)));
        assert(encoded(b, pad)[i] == symbol(six_bits(b, i)));
        lemma_symbol_injective(six_bits(a, i), six_bits(b, i));
    }
    assert forall|j: int| 0 <= j < a.len() implies a[j] == b[j] by {
        lemma_bytes_from_six_bits(a, j);
        lemma_bytes_from_six_bits(b, j);
        let q = j / 3 * 4;
        assert(six_bits(a, q + 1) == six_bits(b, q + 1));
        if j % 3 == 0 {
            assert(six_bits(a, q) == six_bits(b, q));
        } else {
            assert(six_bits(a, q + 2) == six_bits(b, q + 2));
            if j % 3 == 2 {
                assert(six_bits(a, q + 3) == six_bits(b, q + 3));
            }
        }
    }
    assert(a =~= b);
}

/// What the encoder writes stands for the bytes it was given.
pub proof fn lemma_base64_round_trip(b: Seq<u8>)
    ensures
        stands_for(encoded(b, padding_for(b.len())), b),
{
}

} // verus!
