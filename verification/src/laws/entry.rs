//! Laws of entry identifiers: the sender that one spells is the sender that is read.

use vstd::prelude::*;
use crate::bytes;
use crate::laws::encoding;
use crate::laws::texts::{alike, lemma_alike};
use crate::ost;
use crate::ost::ltp::{Pc, Tc};
use crate::ost::ndb::{Node, Pff};
use crate::ost::props;
use crate::text;

verus! {

/// A text stands at `at` with a zero behind it, which `next` follows: in UTF-16, or in
/// single bytes.
pub open spec fn zero_ended(b: Seq<u8>, at: int, s: Seq<char>, next: int, wide: bool) -> bool {
    if wide {
        let n = encoding::utf16_bytes(s).len();
        &&& next == at + n + 2
        &&& 0 <= at && next <= b.len()
        &&& b.subrange(at, at + n) == encoding::utf16_bytes(s)
        &&& b[at + n] == 0 && b[at + n + 1] == 0
        &&& forall|k: int| 0 <= k < s.len() ==> (#[trigger] s[k]) as int != 0
    } else {
        &&& 0 <= at < next <= b.len()
        &&& b[next - 1] == 0
        &&& forall|k: int| at <= k < next - 1 ==> #[trigger] b[k] != 0
        &&& s == text::lossy_text(b.subrange(at, next - 1))
    }
}

proof fn lemma_units_of(c: char)
    requires
        c as int != 0,
    ensures
        forall|i: int|
            0 <= i < encoding::units_of(c).len() ==> #[trigger] encoding::units_of(c)[i] != 0,
{
    let n = c as int;
    if n >= 0x1_0000 {
        let high = (n - 0x1_0000) / 0x400;
        let low = (n - 0x1_0000) % 0x400;
        assert(0 <= high < 0x400 && 0 <= low < 0x400);
    }
}

proof fn lemma_no_zero_unit(s: Seq<char>)
    requires
        forall|k: int| 0 <= k < s.len() ==> (#[trigger] s[k]) as int != 0,
    ensures
        forall|i: int| 0 <= i < encoding::utf16(s).len() ==> #[trigger] encoding::utf16(s)[i] != 0,
    decreases s.len(),
{
    if s.len() > 0 {
        let rest = s.skip(1);
        assert(s[0] as int != 0);
        assert forall|k: int| 0 <= k < rest.len() implies (#[trigger] rest[k]) as int != 0 by {
            assert(rest[k] == s[k + 1]);
        }
        lemma_no_zero_unit(rest);
        let head = encoding::units_of(s[0]);
        lemma_units_of(s[0]);
        let all = encoding::utf16(s);
        assert forall|i: int| 0 <= i < all.len() implies #[trigger] all[i] != 0 by {
            if i < head.len() {
                assert(all[i] == head[i]);
            } else {
                assert(all[i] == encoding::utf16(rest)[i - head.len()]);
            }
        }
    }
}

proof fn lemma_units(b: Seq<u8>, at: int, u: Seq<u16>)
    requires
        0 <= at,
        at + 2 * u.len() + 2 <= b.len(),
        b.subrange(at, at + 2 * u.len()) == encoding::low_first(u),
        forall|i: int| 0 <= i < u.len() ==> #[trigger] u[i] != 0,
        b[at + 2 * u.len()] == 0,
        b[at + 2 * u.len() + 1] == 0,
    ensures
        props::units_before_zero(b, at) == u,
    decreases u.len(),
{
    if u.len() > 0 {
        let part = b.subrange(at, at + 2 * u.len());
        let low = encoding::low_first(u);
        assert(part[0] == low[0] && part[1] == low[1]);
        assert(u[0] != 0);
        assert(bytes::le16(b, at) == u[0]);
        let rest = u.skip(1);
        assert(b.subrange(at + 2, at + 2 + 2 * rest.len()) =~= encoding::low_first(rest)) by {
            let mine = b.subrange(at + 2, at + 2 + 2 * rest.len());
            let want = encoding::low_first(rest);
            assert forall|i: int| 0 <= i < want.len() implies mine[i] == want[i] by {
                assert(part[i + 2] == low[i + 2]);
                assert((i + 2) / 2 == i / 2 + 1 && (i + 2) % 2 == i % 2);
            }
        }
        assert forall|i: int| 0 <= i < rest.len() implies #[trigger] rest[i] != 0 by {
            assert(rest[i] == u[i + 1]);
        }
        lemma_units(b, at + 2, rest);
        assert(seq![u[0]] + rest =~= u);
    }
}

proof fn lemma_zero_byte(b: Seq<u8>, at: int, z: int)
    requires
        0 <= at <= z < b.len(),
        b[z] == 0,
        forall|k: int| at <= k < z ==> #[trigger] b[k] != 0,
    ensures
        props::zero_byte_from(b, at) == z,
    decreases z - at,
{
    if at < z {
        assert(b[at] != 0);
        lemma_zero_byte(b, at + 1, z);
    }
}

proof fn lemma_string_at(b: Seq<u8>, at: int, s: Seq<char>, next: int, wide: bool)
    requires
        zero_ended(b, at, s, next, wide),
    ensures
        props::string_at(b, at, wide) == Some((s, next)),
{
    if wide {
        let u = encoding::utf16(s);
        lemma_no_zero_unit(s);
        lemma_units(b, at, u);
        encoding::lemma_utf16_text(s);
    } else {
        lemma_zero_byte(b, at, next - 1);
    }
}

/// The sender that an entry identifier spells is read back: the name, where it is not
/// empty, and the address, where it is said to be of the internet and holds an at sign.
/// The highest bit of the flags says whether the three texts are in UTF-16.
pub proof fn lemma_sender_is_read_back(
    b: &[u8],
    name: Seq<char>,
    kind: Seq<char>,
    addr: Seq<char>,
    kind_at: int,
    addr_at: int,
    end: int,
    r: Option<(Option<String>, Option<String>)>,
)
    requires
        b@.len() >= 24,
        b@.subrange(4, 20) == seq![
            0x81u8, 0x2B, 0x1F, 0xA4, 0xBE, 0xA3, 0x10, 0x19, 0x9D, 0x6E, 0x00, 0xDD, 0x01, 0x0F,
            0x54, 0x02,
        ],
        zero_ended(b@, 24, name, kind_at, b@[23] >= 0x80),
        zero_ended(b@, kind_at, kind, addr_at, b@[23] >= 0x80),
        zero_ended(b@, addr_at, addr, end, b@[23] >= 0x80),
        call_ensures(props::entryid_address, (b,), r),
    ensures
        r matches Some((shown, email)) && (if name.len() > 0 {
            shown matches Some(n) && n@ == name
        } else {
            shown is None
        }) && (if alike(kind, seq!['S', 'M', 'T', 'P']) && addr.contains('@') {
            email matches Some(e) && e@ == addr
        } else {
            email is None
        }),
{
    let wide = b@[23] >= 0x80;
    assert((bytes::le16(b@, 22) >= 0x8000) == wide);
    lemma_string_at(b@, 24, name, kind_at, wide);
    lemma_string_at(b@, kind_at, kind, addr_at, wide);
    lemma_string_at(b@, addr_at, addr, end, wide);
    reveal_strlit("SMTP");
    assert("SMTP"@ =~= seq!['S', 'M', 'T', 'P']);
    lemma_alike(kind, "SMTP"@);
    assert(props::muid_oop() =~= seq![
        0x81u8, 0x2B, 0x1F, 0xA4, 0xBE, 0xA3, 0x10, 0x19, 0x9D, 0x6E, 0x00, 0xDD, 0x01, 0x0F, 0x54,
        0x02,
    ]);
}

/// An entry identifier of another provider spells no sender.
pub proof fn lemma_other_entries(b: &[u8], r: Option<(Option<String>, Option<String>)>)
    requires
        b@.len() < 24 || b@[4] != 0x81 || b@[5] != 0x2B || b@[6] != 0x1F || b@[7] != 0xA4,
        call_ensures(props::entryid_address, (b,), r),
    ensures
        r is None,
{
    if b@.len() >= 24 {
        let s = b@.subrange(4, 20);
        assert(s[0] == b@[4] && s[1] == b@[5] && s[2] == b@[6] && s[3] == b@[7]);
        let m = props::muid_oop();
        assert(m[0] == 0x81 && m[1] == 0x2B && m[2] == 0x1F && m[3] == 0xA4);
    }
}

/// A context is opened by its node's number as it is by its node's two blocks.
pub proof fn lemma_context_of_a_node<'a>(
    pff: &'a Pff<'a>,
    nid: u32,
    n: Node,
    pc: Result<Pc<'a>, ost::Error>,
    pc_at: Result<Pc<'a>, ost::Error>,
    tc: Result<Tc<'a>, ost::Error>,
    tc_at: Result<Tc<'a>, ost::Error>,
)
    requires
        pff.wf(),
        call_ensures(Pff::node, (pff, nid), Ok::<Node, ost::Error>(n)),
        call_ensures(Pc::open, (pff, nid), pc),
        call_ensures(Pc::open_at, (pff, n.bid_data, n.bid_sub), pc_at),
        call_ensures(Tc::open, (pff, nid), tc),
        call_ensures(Tc::open_at, (pff, n.bid_data, n.bid_sub), tc_at),
    ensures
        match (pc, pc_at) {
            (Ok(a), Ok(b)) => a@ == b@,
            (Err(a), Err(b)) => a@ == b@,
            _ => false,
        },
        match (tc, tc_at) {
            (Ok(a), Ok(b)) => a@ == b@,
            (Err(a), Err(b)) => a@ == b@,
            _ => false,
        },
{
}

} // verus!
