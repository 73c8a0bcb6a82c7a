//! Laws of the messages recovered from a block of the cache: which run of text each
//! thing told of a message is.

use vstd::prelude::*;
use crate::laws::encoding;
use crate::laws::heap::{lemma_widths, number_at};
use crate::mac_outlook::classify;
use crate::mac_outlook::hxrecord;
use crate::mac_outlook::hxrecord::{FieldV, HxMessage};
use crate::search;
use crate::text;
use crate::views;

verus! {

/// The class name of a message as it stands in a block.
pub open spec fn class_name() -> Seq<u8> {
    encoding::utf16_bytes(seq!['I', 'P', 'M', '.', 'N', 'o', 't', 'e'])
}

/// All places where the class name stands, in order.
pub open spec fn all_marks(blob: Seq<u8>, marks: Seq<int>) -> bool {
    &&& forall|i: int, j: int| 0 <= i < j < marks.len() ==> #[trigger] marks[i] < #[trigger] marks[j]
    &&& forall|p: int|
        #![trigger marks.contains(p)]
        marks.contains(p) <==> 0 <= p <= blob.len() - 16 && blob.subrange(p, p + 16) == class_name()
}

proof fn lemma_class_name()
    ensures
        class_name() == hxrecord::anchor_bytes(),
{
    let s = seq!['I', 'P', 'M', '.', 'N', 'o', 't', 'e'];
    reveal_with_fuel(encoding::utf16, 9);
    let u = encoding::utf16(s);
    assert(s.skip(1) =~= seq!['P', 'M', '.', 'N', 'o', 't', 'e']);
    assert(s.skip(1).skip(1) =~= seq!['M', '.', 'N', 'o', 't', 'e']);
    assert(s.skip(1).skip(1).skip(1) =~= seq!['.', 'N', 'o', 't', 'e']);
    assert(s.skip(1).skip(1).skip(1).skip(1) =~= seq!['N', 'o', 't', 'e']);
    assert(s.skip(1).skip(1).skip(1).skip(1).skip(1) =~= seq!['o', 't', 'e']);
    assert(s.skip(1).skip(1).skip(1).skip(1).skip(1).skip(1) =~= seq!['t', 'e']);
    assert(s.skip(1).skip(1).skip(1).skip(1).skip(1).skip(1).skip(1) =~= seq!['e']);
    assert(u =~= seq![0x49u16, 0x50, 0x4D, 0x2E, 0x4E, 0x6F, 0x74, 0x65]);
    assert(class_name() =~= hxrecord::anchor_bytes());
}

proof fn lemma_same_rising(a: Seq<int>, b: Seq<int>)
    requires
        forall|i: int, j: int| 0 <= i < j < a.len() ==> #[trigger] a[i] < #[trigger] a[j],
        forall|i: int, j: int| 0 <= i < j < b.len() ==> #[trigger] b[i] < #[trigger] b[j],
        forall|p: int| #[trigger] a.contains(p) <==> b.contains(p),
    ensures
        a == b,
    decreases a.len(),
{
    if a.len() == 0 {
        if b.len() > 0 {
            assert(b.contains(b[0]));
            assert(a.contains(b[0]));
        }
        assert(a =~= b);
    } else {
        assert(a.contains(a.last()));
        assert(b.contains(a.last()));
        assert(b.contains(b.last()));
        assert(a.contains(b.last()));
        let i = choose|i: int| 0 <= i < b.len() && b[i] == a.last();
        let j = choose|j: int| 0 <= j < a.len() && a[j] == b.last();
        assert(a.last() == b.last()) by {
            if i < b.len() - 1 {
                assert(b[i] < b[b.len() - 1]);
            }
            if j < a.len() - 1 {
                assert(a[j] < a[a.len() - 1]);
            }
        }
        let x = a.drop_last();
        let y = b.drop_last();
        assert forall|p: int| #[trigger] x.contains(p) <==> y.contains(p) by {
            if x.contains(p) {
                let k = choose|k: int| 0 <= k < x.len() && x[k] == p;
                assert(a[k] == p && a[k] < a[a.len() - 1]);
                assert(a.contains(p));
                let m = choose|m: int| 0 <= m < b.len() && b[m] == p;
                assert(y[m] == p);
            }
            if y.contains(p) {
                let k = choose|k: int| 0 <= k < y.len() && y[k] == p;
                assert(b[k] == p && b[k] < b[b.len() - 1]);
                assert(b.contains(p));
                assert(a.contains(p));
                let m = choose|m: int| 0 <= m < a.len() && a[m] == p;
                assert(x[m] == p);
            }
        }
        lemma_same_rising(x, y);
        assert(a =~= x.push(a.last()));
        assert(b =~= y.push(b.last()));
    }
}

proof fn lemma_marks(blob: Seq<u8>, marks: Seq<int>)
    requires
        all_marks(blob, marks),
    ensures
        marks == hxrecord::anchors_from(blob, 0),
{
    lemma_class_name();
    hxrecord::lemma_one_record_per_class_name(blob);
    let anchors = hxrecord::anchors_from(blob, 0);
    assert forall|p: int| #[trigger] marks.contains(p) <==> anchors.contains(p) by {
        assert(search::stands_at(blob, hxrecord::anchor_bytes(), p) <==> anchors.contains(p));
    }
    lemma_same_rising(marks, anchors);
}

proof fn lemma_next(blob: Seq<u8>, from: int, i: int)
    requires
        0 <= from,
        0 <= i < hxrecord::anchors_from(blob, from).len(),
    ensures
        ({
            let a = hxrecord::anchors_from(blob, from);
            hxrecord::next_anchor(blob, a[i]) == (if i + 1 < a.len() {
                a[i + 1]
            } else {
                blob.len() as int
            })
        }),
    decreases i,
{
    search::lemma_first_from(blob, hxrecord::anchor_bytes(), from);
    let p = search::first_from(blob, hxrecord::anchor_bytes(), from)->Some_0;
    let rest = hxrecord::anchors_from(blob, p + 16);
    assert(hxrecord::anchors_from(blob, from) == seq![p] + rest);
    search::lemma_first_from(blob, hxrecord::anchor_bytes(), p + 16);
    if i > 0 {
        lemma_next(blob, p + 16, i - 1);
    }
}

/// Where the record of mark `i` ends: at the next mark, or with the block.
pub open spec fn record_end(blob: Seq<u8>, marks: Seq<int>, i: int) -> int {
    if i + 1 < marks.len() {
        marks[i + 1]
    } else {
        blob.len() as int
    }
}

/// The runs of text in the 352 bytes in front of a mark.
pub open spec fn runs_before(blob: Seq<u8>, marks: Seq<int>, i: int) -> Seq<FieldV> {
    let a = marks[i];
    hxrecord::fields(
        blob,
        a,
        if a < 352 {
            0
        } else {
            a - 352
        },
        a,
    )
}

/// The runs of text behind a mark, up to the end of its record.
pub open spec fn runs_behind(blob: Seq<u8>, marks: Seq<int>, i: int) -> Seq<FieldV> {
    hxrecord::fields(blob, marks[i], marks[i] + 16, record_end(blob, marks, i))
}

proof fn lemma_record(blob: &[u8], marks: Seq<int>, r: Vec<HxMessage>, i: int)
    requires
        all_marks(blob@, marks),
        call_ensures(hxrecord::extract, (blob,), r),
        0 <= i < marks.len(),
    ensures
        r@.len() == marks.len(),
        ({
            let prev = if i == 0 {
                0
            } else {
                marks[i - 1]
            };
            &&& r@[i]@ == hxrecord::record(blob@, prev, marks[i])
            &&& hxrecord::next_anchor(blob@, marks[i]) == record_end(blob@, marks, i)
        }),
        hxrecord::fields_before(blob@, marks[i]) == runs_before(blob@, marks, i),
        hxrecord::fields_after(blob@, marks[i], record_end(blob@, marks, i)) == runs_behind(
            blob@,
            marks,
            i,
        ),
{
    lemma_marks(blob@, marks);
    lemma_next(blob@, 0, i);
    let vs = views::views(r@);
    assert(vs.len() == r@.len());
    assert(vs[i] == r@[i]@);
}

/// Each place where the class name stands is a message.
pub proof fn lemma_one_message_per_mark(blob: &[u8], marks: Seq<int>, r: Vec<HxMessage>)
    requires
        all_marks(blob@, marks),
        call_ensures(hxrecord::extract, (blob,), r),
    ensures
        r@.len() == marks.len(),
{
    lemma_marks(blob@, marks);
    assert(views::views(r@).len() == r@.len());
}

/// What a run says: its text without the blanks around it, and once where it stands
/// there twice.
pub open spec fn said(f: FieldV) -> Seq<char> {
    classify::undoubled(text::trimmed(f.text))
}

/// A run that is an address.
pub open spec fn address(f: FieldV) -> bool {
    classify::email_shaped(text::trimmed(f.text))
}

/// An address no more than 320 bytes from the mark.
pub open spec fn near(f: FieldV) -> bool {
    -320 <= f.rel <= 320 && address(f)
}

/// A name no more than 200 bytes from the address at `rel`.
pub open spec fn names(f: FieldV, rel: int) -> bool {
    f.rel != rel && -200 <= f.rel - rel <= 200 && classify::person(said(f))
}

/// The last of the runs that has the property, or none: `at` is where it stands, or -1.
pub open spec fn is_last(fs: Seq<FieldV>, fits: spec_fn(FieldV) -> bool, at: int) -> bool {
    &&& -1 <= at < fs.len()
    &&& at >= 0 ==> fits(fs[at])
    &&& forall|k: int| at < k < fs.len() ==> !fits(#[trigger] fs[k])
}

/// The first of the runs that has the property, or none: `at` is where it stands, or
/// the number of runs.
pub open spec fn is_first(fs: Seq<FieldV>, fits: spec_fn(FieldV) -> bool, at: int) -> bool {
    &&& 0 <= at <= fs.len()
    &&& at < fs.len() ==> fits(fs[at])
    &&& forall|k: int| 0 <= k < at ==> !fits(#[trigger] fs[k])
}

proof fn lemma_near(fs: Seq<FieldV>, at: int)
    requires
        is_last(fs, |f: FieldV| near(f), at),
    ensures
        hxrecord::near_address(fs) == (if at >= 0 {
            Some(fs[at])
        } else {
            None
        }),
    decreases fs.len(),
{
    if fs.len() > 0 {
        let last = fs.len() - 1;
        if at < last {
            let fits = |f: FieldV| near(f);
            assert(!fits(fs[last]));
            assert forall|k: int| at < k < last implies !fits(#[trigger] fs.drop_last()[k]) by {
                assert(fs.drop_last()[k] == fs[k]);
            }
            lemma_near(fs.drop_last(), at);
        }
    }
}

proof fn lemma_last_name(fs: Seq<FieldV>, rel: int, at: int)
    requires
        is_last(fs, |f: FieldV| names(f, rel), at),
    ensures
        hxrecord::last_name(fs, rel) == (if at >= 0 {
            Some(said(fs[at]))
        } else {
            None
        }),
    decreases fs.len(),
{
    if fs.len() > 0 {
        let last = fs.len() - 1;
        if at < last {
            let fits = |f: FieldV| names(f, rel);
            assert(!fits(fs[last]));
            assert forall|k: int| at < k < last implies !fits(#[trigger] fs.drop_last()[k]) by {
                assert(fs.drop_last()[k] == fs[k]);
            }
            lemma_last_name(fs.drop_last(), rel, at);
        }
    }
}

proof fn lemma_first_name(fs: Seq<FieldV>, rel: int, from: int, at: int)
    requires
        0 <= from <= at,
        is_first(fs, |f: FieldV| names(f, rel), at),
    ensures
        hxrecord::first_name(fs, rel, from) == (if at < fs.len() {
            Some(said(fs[at]))
        } else {
            None
        }),
    decreases at - from,
{
    if from < at {
        let fits = |f: FieldV| names(f, rel);
        assert(!fits(fs[from]));
        lemma_first_name(fs, rel, from + 1, at);
    }
}

/// Where an address stands close in front of the mark, the last such is the sender's,
/// in small letters. The name is the last one near it in front of the mark, else the
/// first one near it behind.
pub proof fn lemma_sender_in_front(
    blob: &[u8],
    marks: Seq<int>,
    r: Vec<HxMessage>,
    i: int,
    at: int,
    name_before: int,
    name_behind: int,
)
    requires
        all_marks(blob@, marks),
        call_ensures(hxrecord::extract, (blob,), r),
        0 <= i < marks.len(),
        0 <= at,
        is_last(runs_before(blob@, marks, i), |f: FieldV| near(f), at),
        is_last(
            runs_before(blob@, marks, i),
            |f: FieldV| names(f, runs_before(blob@, marks, i)[at].rel),
            name_before,
        ),
        is_first(
            runs_behind(blob@, marks, i),
            |f: FieldV| names(f, runs_before(blob@, marks, i)[at].rel),
            name_behind,
        ),
    ensures
        r@.len() == marks.len(),
        r@[i].sender_address matches Some(a) && a@ == text::ascii_lowered(
            said(runs_before(blob@, marks, i)[at]),
        ),
        name_before >= 0 ==> (r@[i].sender_name matches Some(n) && n@ == said(
            runs_before(blob@, marks, i)[name_before],
        )),
        name_before < 0 && name_behind < runs_behind(blob@, marks, i).len() ==> (
        r@[i].sender_name matches Some(n) && n@ == said(runs_behind(blob@, marks, i)[name_behind])),
        name_before < 0 && name_behind == runs_behind(blob@, marks, i).len()
            ==> r@[i].sender_name is None,
{
    lemma_record(blob, marks, r, i);
    let before = runs_before(blob@, marks, i);
    let behind = runs_behind(blob@, marks, i);
    lemma_near(before, at);
    lemma_last_name(before, before[at].rel, name_before);
    lemma_first_name(behind, before[at].rel, 0, name_behind);
    assert(r@[i]@.sender_address == text::opt_text(r@[i].sender_address));
    assert(r@[i]@.sender_name == text::opt_text(r@[i].sender_name));
}

proof fn lemma_addresses(fs: Seq<FieldV>)
    ensures
        (forall|k: int| 0 <= k < fs.len() ==> !address(#[trigger] fs[k])) ==> hxrecord::addresses(
            fs,
        ).len() == 0,
        (exists|k: int| 0 <= k < fs.len() && address(#[trigger] fs[k])) ==> hxrecord::addresses(
            fs,
        ).len() > 0,
    decreases fs.len(),
{
    if fs.len() > 0 {
        let front = fs.drop_last();
        lemma_addresses(front);
        assert(forall|k: int| 0 <= k < front.len() ==> #[trigger] front[k] == fs[k]);
        if exists|k: int| 0 <= k < fs.len() && address(#[trigger] fs[k]) {
            let k = choose|k: int| 0 <= k < fs.len() && address(#[trigger] fs[k]);
            if k < front.len() {
                assert(address(front[k]));
            }
        }
        if forall|k: int| 0 <= k < fs.len() ==> !address(#[trigger] fs[k]) {
            assert forall|k: int| 0 <= k < front.len() implies !address(#[trigger] front[k]) by {
                assert(front[k] == fs[k]);
            }
            assert(!address(fs[fs.len() - 1]));
        }
    }
}

proof fn lemma_only_address(fs: Seq<FieldV>, at: int)
    requires
        0 <= at < fs.len(),
        address(fs[at]),
        forall|k: int| 0 <= k < fs.len() && k != at ==> !address(#[trigger] fs[k]),
    ensures
        hxrecord::addresses(fs) == seq![fs[at]],
    decreases fs.len(),
{
    let front = fs.drop_last();
    assert(forall|k: int| 0 <= k < front.len() ==> #[trigger] front[k] == fs[k]);
    if at == fs.len() - 1 {
        lemma_addresses(front);
        assert forall|k: int| 0 <= k < front.len() implies !address(#[trigger] front[k]) by {
            assert(front[k] == fs[k]);
        }
        assert(hxrecord::addresses(fs) =~= seq![fs[at]]);
    } else {
        assert(!address(fs[fs.len() - 1]));
        lemma_only_address(front, at);
    }
}

proof fn lemma_two_addresses(fs: Seq<FieldV>, j: int, k: int)
    requires
        0 <= j < k < fs.len(),
        address(fs[j]),
        address(fs[k]),
    ensures
        hxrecord::addresses(fs).len() > 1,
    decreases fs.len(),
{
    let front = fs.drop_last();
    if k == fs.len() - 1 {
        assert(address(front[j]));
        lemma_addresses(front);
    } else {
        lemma_two_addresses(front, j, k);
    }
}

/// Where no address stands close in front of the mark, the only one behind it is the
/// sender's, with the first name near it.
pub proof fn lemma_sender_behind(
    blob: &[u8],
    marks: Seq<int>,
    r: Vec<HxMessage>,
    i: int,
    at: int,
    name: int,
)
    requires
        all_marks(blob@, marks),
        call_ensures(hxrecord::extract, (blob,), r),
        0 <= i < marks.len(),
        is_last(runs_before(blob@, marks, i), |f: FieldV| near(f), -1),
        0 <= at < runs_behind(blob@, marks, i).len(),
        address(runs_behind(blob@, marks, i)[at]),
        forall|k: int|
            0 <= k < runs_behind(blob@, marks, i).len() && k != at ==> !address(
                #[trigger] runs_behind(blob@, marks, i)[k],
            ),
        is_first(
            runs_behind(blob@, marks, i),
            |f: FieldV| names(f, runs_behind(blob@, marks, i)[at].rel),
            name,
        ),
    ensures
        r@.len() == marks.len(),
        r@[i].sender_address matches Some(a) && a@ == text::ascii_lowered(
            said(runs_behind(blob@, marks, i)[at]),
        ),
        name < runs_behind(blob@, marks, i).len() ==> (r@[i].sender_name matches Some(n) && n@
            == said(runs_behind(blob@, marks, i)[name])),
        name == runs_behind(blob@, marks, i).len() ==> r@[i].sender_name is None,
{
    lemma_record(blob, marks, r, i);
    let behind = runs_behind(blob@, marks, i);
    lemma_near(runs_before(blob@, marks, i), -1);
    lemma_only_address(behind, at);
    lemma_first_name(behind, behind[at].rel, 0, name);
    assert(r@[i]@.sender_address == text::opt_text(r@[i].sender_address));
    assert(r@[i]@.sender_name == text::opt_text(r@[i].sender_name));
}

/// Where no address stands close in front of the mark, and none or several behind it,
/// no sender is told.
pub proof fn lemma_no_sender(blob: &[u8], marks: Seq<int>, r: Vec<HxMessage>, i: int)
    requires
        all_marks(blob@, marks),
        call_ensures(hxrecord::extract, (blob,), r),
        0 <= i < marks.len(),
        is_last(runs_before(blob@, marks, i), |f: FieldV| near(f), -1),
        (forall|k: int|
            0 <= k < runs_behind(blob@, marks, i).len() ==> !address(
                #[trigger] runs_behind(blob@, marks, i)[k],
            )) || exists|j: int, k: int|
            0 <= j < k < runs_behind(blob@, marks, i).len() && address(
                #[trigger] runs_behind(blob@, marks, i)[j],
            ) && address(#[trigger] runs_behind(blob@, marks, i)[k]),
    ensures
        r@.len() == marks.len(),
        r@[i].sender_address is None,
        r@[i].sender_name is None,
{
    lemma_record(blob, marks, r, i);
    let behind = runs_behind(blob@, marks, i);
    lemma_near(runs_before(blob@, marks, i), -1);
    lemma_addresses(behind);
    if exists|j: int, k: int|
        0 <= j < k < behind.len() && address(#[trigger] behind[j]) && address(
            #[trigger] behind[k],
        ) {
        let (j, k) = choose|j: int, k: int|
            0 <= j < k < behind.len() && address(#[trigger] behind[j]) && address(
                #[trigger] behind[k],
            );
        lemma_two_addresses(behind, j, k);
    }
    assert(r@[i]@.sender_address == text::opt_text(r@[i].sender_address));
    assert(r@[i]@.sender_name == text::opt_text(r@[i].sender_name));
}

/// Run `k` is a subject: no further than 4096 bytes behind the mark, of the look of
/// one, and another run says the same but for a reply's prefix.
pub open spec fn subject(fs: Seq<FieldV>, k: int) -> bool {
    &&& fs[k].rel <= 4096
    &&& classify::subject(said(fs[k]))
    &&& exists|j: int|
        0 <= j < fs.len() && j != k && classify::subject_key(said(#[trigger] fs[j]))
            == classify::subject_key(said(fs[k]))
}

proof fn lemma_copies_of_one(fs: Seq<FieldV>, key: Seq<char>)
    ensures
        (exists|j: int| 0 <= j < fs.len() && classify::subject_key(said(#[trigger] fs[j])) == key)
            <==> hxrecord::copies(fs, key) >= 1,
    decreases fs.len(),
{
    if fs.len() > 0 {
        let front = fs.drop_last();
        lemma_copies_of_one(front, key);
        assert(forall|k: int| 0 <= k < front.len() ==> #[trigger] front[k] == fs[k]);
        if exists|j: int| 0 <= j < fs.len() && classify::subject_key(said(#[trigger] fs[j])) == key {
            let j = choose|j: int|
                0 <= j < fs.len() && classify::subject_key(said(#[trigger] fs[j])) == key;
            if j < front.len() {
                assert(classify::subject_key(said(front[j])) == key);
            }
        }
        if hxrecord::copies(fs, key) >= 1 {
            if hxrecord::copies(front, key) >= 1 {
                let j = choose|j: int|
                    0 <= j < front.len() && classify::subject_key(said(#[trigger] front[j])) == key;
                assert(classify::subject_key(said(fs[j])) == key);
            } else {
                assert(classify::subject_key(said(fs[fs.len() - 1])) == key);
            }
        }
    }
}

proof fn lemma_copies(fs: Seq<FieldV>, k: int, key: Seq<char>)
    requires
        0 <= k < fs.len(),
        classify::subject_key(said(fs[k])) == key,
    ensures
        hxrecord::copies(fs, key) > 1 <==> exists|j: int|
            0 <= j < fs.len() && j != k && classify::subject_key(said(#[trigger] fs[j])) == key,
    decreases fs.len(),
{
    let front = fs.drop_last();
    let last = fs.len() - 1;
    assert(forall|j: int| 0 <= j < front.len() ==> #[trigger] front[j] == fs[j]);
    let some = exists|j: int|
        0 <= j < fs.len() && j != k && classify::subject_key(said(#[trigger] fs[j])) == key;
    if k == last {
        lemma_copies_of_one(front, key);
        if some {
            let j = choose|j: int|
                0 <= j < fs.len() && j != k && classify::subject_key(said(#[trigger] fs[j])) == key;
            assert(classify::subject_key(said(front[j])) == key);
        }
        if hxrecord::copies(front, key) >= 1 {
            let j = choose|j: int|
                0 <= j < front.len() && classify::subject_key(said(#[trigger] front[j])) == key;
            assert(classify::subject_key(said(fs[j])) == key);
        }
    } else {
        lemma_copies(front, k, key);
        lemma_copies_of_one(front, key);
        assert(classify::subject_key(said(front[k])) == key);
        if some {
            let j = choose|j: int|
                0 <= j < fs.len() && j != k && classify::subject_key(said(#[trigger] fs[j])) == key;
            if j < last {
                assert(classify::subject_key(said(front[j])) == key);
            }
        }
        if classify::subject_key(said(fs[last])) == key {
            assert(some);
        }
        if exists|j: int|
            0 <= j < front.len() && j != k && classify::subject_key(said(#[trigger] front[j]))
                == key {
            let j = choose|j: int|
                0 <= j < front.len() && j != k && classify::subject_key(said(#[trigger] front[j]))
                    == key;
            assert(classify::subject_key(said(fs[j])) == key);
        }
    }
}

proof fn lemma_is_subject(fs: Seq<FieldV>, k: int)
    requires
        0 <= k < fs.len(),
    ensures
        hxrecord::is_subject(fs, fs[k]) == subject(fs, k),
{
    lemma_copies(fs, k, classify::subject_key(said(fs[k])));
}

proof fn lemma_subject_from(fs: Seq<FieldV>, from: int, at: int)
    requires
        0 <= from <= at <= fs.len(),
        at < fs.len() ==> subject(fs, at),
        forall|k: int| 0 <= k < at ==> !#[trigger] subject(fs, k),
    ensures
        hxrecord::subject_from(fs, from) == (if at < fs.len() {
            Some(fs[at])
        } else {
            None
        }),
    decreases at - from,
{
    if from < fs.len() {
        lemma_is_subject(fs, from);
    }
    if from < at {
        assert(!subject(fs, from));
        lemma_subject_from(fs, from + 1, at);
    }
}

/// Run `k` may be the preview: it is not the run of the subject and does not begin
/// with a tag.
pub open spec fn may_preview(fs: Seq<FieldV>, subject_at: int, k: int) -> bool {
    let t = text::trimmed_start(fs[k].text);
    &&& subject_at < fs.len() ==> fs[k].rel != fs[subject_at].rel
    &&& t.len() == 0 || t[0] != '<'
}

/// Run `at` is the preview: the longest in bytes that may be it, and the last of those
/// as long.
pub open spec fn is_preview(fs: Seq<FieldV>, subject_at: int, at: int) -> bool {
    &&& -1 <= at < fs.len()
    &&& at >= 0 ==> may_preview(fs, subject_at, at)
    &&& forall|k: int|
        0 <= k < fs.len() && #[trigger] may_preview(fs, subject_at, k) ==> at >= 0 && (if k <= at {
            text::byte_len(fs[k].text) <= text::byte_len(fs[at].text)
        } else {
            text::byte_len(fs[k].text) < text::byte_len(fs[at].text)
        })
}

proof fn lemma_longest(all: Seq<FieldV>, subject_at: int, n: int) -> (at: int)
    requires
        0 <= subject_at <= all.len(),
        0 <= n <= all.len(),
    ensures
        -1 <= at < n,
        hxrecord::longest(
            all.take(n),
            if subject_at < all.len() {
                Some(all[subject_at])
            } else {
                None
            },
        ) == (if at >= 0 {
            Some(all[at])
        } else {
            None
        }),
        at >= 0 ==> may_preview(all, subject_at, at),
        forall|k: int|
            0 <= k < n && #[trigger] may_preview(all, subject_at, k) ==> at >= 0 && (if k <= at {
                text::byte_len(all[k].text) <= text::byte_len(all[at].text)
            } else {
                text::byte_len(all[k].text) < text::byte_len(all[at].text)
            }),
    decreases n,
{
    if n == 0 {
        -1
    } else {
        let before = lemma_longest(all, subject_at, n - 1);
        let fs = all.take(n);
        assert(fs.drop_last() =~= all.take(n - 1));
        assert(fs.last() == all[n - 1]);
        let claimed = if subject_at < all.len() {
            Some(all[subject_at])
        } else {
            None
        };
        assert(hxrecord::can_be_preview(all[n - 1], claimed) == may_preview(
            all,
            subject_at,
            n - 1,
        ));
        if may_preview(all, subject_at, n - 1) && (before >= 0 ==> text::byte_len(all[before].text)
            <= text::byte_len(all[n - 1].text)) {
            n - 1
        } else {
            before
        }
    }
}

proof fn lemma_preview(fs: Seq<FieldV>, subject_at: int, at: int)
    requires
        0 <= subject_at <= fs.len(),
        is_preview(fs, subject_at, at),
    ensures
        hxrecord::longest(
            fs,
            if subject_at < fs.len() {
                Some(fs[subject_at])
            } else {
                None
            },
        ) == (if at >= 0 {
            Some(fs[at])
        } else {
            None
        }),
{
    let found = lemma_longest(fs, subject_at, fs.len() as int);
    assert(fs.take(fs.len() as int) =~= fs);
    if found >= 0 {
        assert(may_preview(fs, subject_at, found));
    }
    if at >= 0 {
        assert(may_preview(fs, subject_at, at));
    }
}

/// The subject is the first run behind the mark that is one, and the preview the
/// longest of the others that is no markup. `subject_at` is the subject's run, or the
/// number of runs; `preview_at` the preview's, or -1.
pub proof fn lemma_subject_and_preview(
    blob: &[u8],
    marks: Seq<int>,
    r: Vec<HxMessage>,
    i: int,
    subject_at: int,
    preview_at: int,
)
    requires
        all_marks(blob@, marks),
        call_ensures(hxrecord::extract, (blob,), r),
        0 <= i < marks.len(),
        0 <= subject_at <= runs_behind(blob@, marks, i).len(),
        subject_at < runs_behind(blob@, marks, i).len() ==> subject(
            runs_behind(blob@, marks, i),
            subject_at,
        ),
        forall|k: int|
            0 <= k < subject_at ==> !#[trigger] subject(runs_behind(blob@, marks, i), k),
        is_preview(runs_behind(blob@, marks, i), subject_at, preview_at),
    ensures
        r@.len() == marks.len(),
        subject_at < runs_behind(blob@, marks, i).len() ==> (r@[i].subject matches Some(s) && s@
            == said(runs_behind(blob@, marks, i)[subject_at])),
        subject_at == runs_behind(blob@, marks, i).len() ==> r@[i].subject is None,
        preview_at >= 0 ==> (r@[i].preview matches Some(s) && s@ == text::trimmed(
            runs_behind(blob@, marks, i)[preview_at].text,
        )),
        preview_at < 0 ==> r@[i].preview is None,
{
    lemma_record(blob, marks, r, i);
    let behind = runs_behind(blob@, marks, i);
    lemma_subject_from(behind, 0, subject_at);
    lemma_preview(behind, subject_at, preview_at);
    assert(r@[i]@.subject == text::opt_text(r@[i].subject));
    assert(r@[i]@.preview == text::opt_text(r@[i].preview));
}

proof fn lemma_message_id_from(fs: Seq<FieldV>, from: int, at: int)
    requires
        0 <= from <= at,
        is_first(fs, |f: FieldV| classify::message_id_shaped(text::trimmed(f.text)), at),
    ensures
        hxrecord::message_id_from(fs, from) == (if at < fs.len() {
            Some(text::stripped(text::trimmed(fs[at].text), '<', '>'))
        } else {
            None
        }),
    decreases at - from,
{
    if from < at {
        let fits = |f: FieldV| classify::message_id_shaped(text::trimmed(f.text));
        assert(!fits(fs[from]));
        lemma_message_id_from(fs, from + 1, at);
    }
}

/// The message's identifier is the first run behind the mark that is one, without the
/// brackets around it.
pub proof fn lemma_message_id(
    blob: &[u8],
    marks: Seq<int>,
    r: Vec<HxMessage>,
    i: int,
    at: int,
)
    requires
        all_marks(blob@, marks),
        call_ensures(hxrecord::extract, (blob,), r),
        0 <= i < marks.len(),
        is_first(
            runs_behind(blob@, marks, i),
            |f: FieldV| classify::message_id_shaped(text::trimmed(f.text)),
            at,
        ),
    ensures
        r@.len() == marks.len(),
        at < runs_behind(blob@, marks, i).len() ==> (r@[i].internet_message_id matches Some(s)
            && s@ == text::stripped(
            text::trimmed(runs_behind(blob@, marks, i)[at].text),
            '<',
            '>',
        )),
        at == runs_behind(blob@, marks, i).len() ==> r@[i].internet_message_id is None,
{
    lemma_record(blob, marks, r, i);
    lemma_message_id_from(runs_behind(blob@, marks, i), 0, at);
    assert(r@[i]@.internet_message_id == text::opt_text(r@[i].internet_message_id));
}

/// The markup of a message is that of the bytes from its mark to the end of its
/// record, and its time that of the bytes from the mark before.
pub proof fn lemma_markup_and_time(
    blob: &[u8],
    marks: Seq<int>,
    r: Vec<HxMessage>,
    i: int,
    region: &[u8],
    span: &[u8],
    html: Option<String>,
    sent: Option<i64>,
)
    requires
        all_marks(blob@, marks),
        call_ensures(hxrecord::extract, (blob,), r),
        0 <= i < marks.len(),
        region@ == blob@.subrange(marks[i], record_end(blob@, marks, i)),
        span@ == blob@.subrange(
            if i == 0 {
                0
            } else {
                marks[i - 1]
            },
            record_end(blob@, marks, i),
        ),
        call_ensures(hxrecord::find_html, (region,), html),
        call_ensures(hxrecord::find_send_time, (span,), sent),
    ensures
        r@.len() == marks.len(),
        crate::laws::same_text(r@[i].html, html),
        r@[i].sent_unix == sent,
{
    lemma_record(blob, marks, r, i);
    assert(r@[i]@.html == text::opt_text(r@[i].html));
}

/// Eight bytes at `k` that count tenths of microseconds from the year 1 on to a moment
/// from 2015 to 2026.
pub open spec fn tick_at(span: Seq<u8>, k: int) -> bool {
    &&& 0 <= k && k + 8 <= span.len()
    &&& 635_556_672_000_000_000 <= number_at(span, k, 8) < 639_343_584_000_000_000
}

proof fn lemma_earliest(span: Seq<u8>, n: int) -> (at: int)
    requires
        n + 7 <= span.len(),
    ensures
        hxrecord::earliest_tick(span, n) matches Some(v) ==> 0 <= at < n && tick_at(span, at) && v
            == number_at(span, at, 8),
        hxrecord::earliest_tick(span, n) matches Some(v) ==> forall|k: int|
            0 <= k < n && #[trigger] tick_at(span, k) ==> v <= number_at(span, k, 8),
        hxrecord::earliest_tick(span, n) is None ==> forall|k: int|
            0 <= k < n ==> !#[trigger] tick_at(span, k),
    decreases n,
{
    if n <= 0 {
        0
    } else {
        let before = lemma_earliest(span, n - 1);
        lemma_widths(span, n - 1);
        if hxrecord::earliest_tick(span, n) == hxrecord::earliest_tick(span, n - 1) {
            before
        } else {
            n - 1
        }
    }
}

/// A message was sent at the earliest moment in its bytes: in seconds from 1970 on.
pub proof fn lemma_send_time_is_the_earliest(span: &[u8], r: Option<i64>)
    requires
        call_ensures(hxrecord::find_send_time, (span,), r),
    ensures
        r matches Some(t) ==> exists|k: int| #[trigger]
            tick_at(span@, k) && 10_000_000 * t <= number_at(span@, k, 8) - 621_355_968_000_000_000
                < 10_000_000 * t + 10_000_000 && forall|j: int| #[trigger]
                tick_at(span@, j) ==> number_at(span@, k, 8) <= number_at(span@, j, 8),
        r is None ==> forall|k: int| !#[trigger] tick_at(span@, k),
{
    let n = span@.len() - 7;
    let at = lemma_earliest(span@, n);
    if let Some(t) = r {
        assert(tick_at(span@, at));
    }
}

/// The bytes of a text that is ASCII.
pub open spec fn ascii(s: Seq<char>) -> Seq<u8> {
    Seq::new(s.len(), |i: int| s[i] as u8)
}

/// A text stands at `p`.
pub open spec fn stands(b: Seq<u8>, p: int, s: Seq<char>) -> bool {
    0 <= p && p + s.len() <= b.len() && b.subrange(p, p + s.len()) == ascii(s)
}

/// One of the tags with which markup begins stands at `p`.
pub open spec fn opens(b: Seq<u8>, p: int) -> bool {
    stands(b, p, "<html"@) || stands(b, p, "<!DOCTYPE"@) || stands(b, p, "<body"@) || stands(
        b,
        p,
        "<div"@,
    ) || stands(b, p, "<table"@)
}

/// One of the tags with which markup ends stands at `p`.
pub open spec fn closes(b: Seq<u8>, p: int) -> bool {
    stands(b, p, "</html>"@) || stands(b, p, "</body>"@)
}

proof fn lemma_mark(b: Seq<u8>, m: Seq<char>)
    requires
        m.len() > 0,
    ensures
        match hxrecord::mark(b, m) {
            Some(p) => stands(b, p, m) && forall|k: int| 0 <= k < p ==> !#[trigger] stands(b, k, m),
            None => forall|k: int| !#[trigger] stands(b, k, m),
        },
{
    let n = text::ascii_bytes(m);
    assert(n =~= ascii(m));
    search::lemma_first_from(b, n, 0);
    assert forall|k: int| #[trigger] stands(b, k, m) == search::stands_at(b, n, k) by {}
}

/// Markup begins at the first opening tag, at `start`, and ends behind the first
/// closing tag from there on, `end` bytes behind it; where there is none, where the
/// bytes stop being text.
pub proof fn lemma_markup_is_between_its_tags(
    region: &[u8],
    start: int,
    tail: &[u8],
    end: int,
    text_end: usize,
    r: Option<String>,
)
    requires
        opens(region@, start),
        forall|k: int| 0 <= k < start ==> !#[trigger] opens(region@, k),
        tail@ == region@.skip(start),
        end >= 0 ==> closes(tail@, end) && forall|k: int|
            0 <= k < end ==> !#[trigger] closes(tail@, k),
        end < 0 ==> forall|k: int| !#[trigger] closes(tail@, k),
        call_ensures(hxrecord::text_run_end, (tail,), text_end),
        call_ensures(hxrecord::find_html, (region,), r),
    ensures
        r matches Some(t) && t@ == text::lossy_text(
            tail@.take(
                if end >= 0 {
                    end + 7
                } else {
                    text_end as int
                },
            ),
        ),
{
    reveal_strlit("<html");
    reveal_strlit("<!DOCTYPE");
    reveal_strlit("<body");
    reveal_strlit("<div");
    reveal_strlit("<table");
    reveal_strlit("</html>");
    reveal_strlit("</body>");
    lemma_mark(region@, "<html"@);
    lemma_mark(region@, "<!DOCTYPE"@);
    lemma_mark(region@, "<body"@);
    lemma_mark(region@, "<div"@);
    lemma_mark(region@, "<table"@);
    lemma_mark(tail@, "</html>"@);
    lemma_mark(tail@, "</body>"@);
    assert(forall|k: int| 0 <= k < start ==> !#[trigger] stands(region@, k, "<html"@)) by {
        assert(forall|k: int| 0 <= k < start ==> !opens(region@, k));
        assert forall|k: int| 0 <= k < start implies !#[trigger] stands(region@, k, "<html"@) by {
            assert(!opens(region@, k));
        }
    }
    assert forall|k: int| 0 <= k < start implies !#[trigger] stands(region@, k, "<!DOCTYPE"@) by {
        assert(!opens(region@, k));
    }
    assert forall|k: int| 0 <= k < start implies !#[trigger] stands(region@, k, "<body"@) by {
        assert(!opens(region@, k));
    }
    assert forall|k: int| 0 <= k < start implies !#[trigger] stands(region@, k, "<div"@) by {
        assert(!opens(region@, k));
    }
    assert forall|k: int| 0 <= k < start implies !#[trigger] stands(region@, k, "<table"@) by {
        assert(!opens(region@, k));
    }
    assert(hxrecord::html_start(region@) == Some(start));
    if end >= 0 {
        assert forall|k: int| 0 <= k < end implies !#[trigger] stands(tail@, k, "</html>"@) by {
            assert(!closes(tail@, k));
        }
        assert forall|k: int| 0 <= k < end implies !#[trigger] stands(tail@, k, "</body>"@) by {
            assert(!closes(tail@, k));
        }
        assert(hxrecord::html_end(tail@) == end + 7);
    } else {
        assert forall|k: int| !#[trigger] stands(tail@, k, "</html>"@) by {
            assert(!closes(tail@, k));
        }
        assert forall|k: int| !#[trigger] stands(tail@, k, "</body>"@) by {
            assert(!closes(tail@, k));
        }
        assert(hxrecord::html_end(tail@) == text_end);
    }
}

/// Without an opening tag there is no markup.
pub proof fn lemma_no_markup(region: &[u8], r: Option<String>)
    requires
        forall|k: int| !#[trigger] opens(region@, k),
        call_ensures(hxrecord::find_html, (region,), r),
    ensures
        r is None,
{
    reveal_strlit("<html");
    reveal_strlit("<!DOCTYPE");
    reveal_strlit("<body");
    reveal_strlit("<div");
    reveal_strlit("<table");
    lemma_mark(region@, "<html"@);
    lemma_mark(region@, "<!DOCTYPE"@);
    lemma_mark(region@, "<body"@);
    lemma_mark(region@, "<div"@);
    lemma_mark(region@, "<table"@);
    assert forall|k: int| !#[trigger] stands(region@, k, "<html"@) by {
        assert(!opens(region@, k));
    }
    assert forall|k: int| !#[trigger] stands(region@, k, "<!DOCTYPE"@) by {
        assert(!opens(region@, k));
    }
    assert forall|k: int| !#[trigger] stands(region@, k, "<body"@) by {
        assert(!opens(region@, k));
    }
    assert forall|k: int| !#[trigger] stands(region@, k, "<div"@) by {
        assert(!opens(region@, k));
    }
    assert forall|k: int| !#[trigger] stands(region@, k, "<table"@) by {
        assert(!opens(region@, k));
    }
}

/// A byte of text: printable ASCII, a tab or a line break.
pub open spec fn of_text() -> spec_fn(u8) -> bool {
    |c: u8| (32 <= c && c <= 126) || c == 9 || c == 10 || c == 13
}

/// Window `w` of 32 bytes is text: three quarters of it at least.
pub open spec fn window_is_text(b: Seq<u8>, w: int) -> bool {
    b.subrange(32 * w, 32 * w + 32).filter(of_text()).len() >= 24
}

proof fn lemma_printables(b: Seq<u8>)
    ensures
        hxrecord::printables(b) == b.filter(of_text()).len(),
    decreases b.len(),
{
    reveal(Seq::filter);
    if b.len() > 0 {
        lemma_printables(b.drop_last());
    }
}

proof fn lemma_text_end(b: Seq<u8>, w: int)
    requires
        0 <= w,
        32 * w <= b.len(),
    ensures
        ({
            let e = hxrecord::text_end_from(b, 32 * w);
            &&& 32 * w <= e <= b.len()
            &&& e < b.len() ==> e % 32 == 0 && e + 32 <= b.len() && !window_is_text(b, e / 32)
            &&& forall|k: int| w <= k && 32 * k + 32 <= e ==> #[trigger] window_is_text(b, k)
        }),
    decreases b.len() - 32 * w,
{
    let i = 32 * w;
    if i + 32 <= b.len() {
        lemma_printables(b.subrange(i, i + 32));
        if hxrecord::printables(b.subrange(i, i + 32)) * 4 >= 96 {
            lemma_text_end(b, w + 1);
            assert(window_is_text(b, w));
        } else {
            assert(i / 32 == w);
        }
    }
}

/// Bytes stop being text at the first window of 32 that is not; else at their end.
pub proof fn lemma_text_stops(b: &[u8], r: usize)
    requires
        call_ensures(hxrecord::text_run_end, (b,), r),
    ensures
        r <= b@.len(),
        r < b@.len() ==> r % 32 == 0 && r + 32 <= b@.len() && !window_is_text(b@, r as int / 32),
        forall|k: int| 0 <= k && 32 * k + 32 <= r ==> #[trigger] window_is_text(b@, k),
{
    lemma_text_end(b@, 0);
}

/// Texts one behind the other, each with a NUL behind it.
pub open spec fn laid_out(texts: Seq<Seq<char>>) -> Seq<u8>
    decreases texts.len(),
{
    if texts.len() == 0 {
        seq![]
    } else {
        encoding::utf16_bytes(texts[0]) + seq![0u8, 0u8] + laid_out(texts.skip(1))
    }
}

/// The runs that are found in such texts from `at` on: those of three characters and
/// more that do not look binary, each where it stands.
pub open spec fn runs_of(texts: Seq<Seq<char>>, at: int, anchor: int) -> Seq<FieldV>
    decreases texts.len(),
{
    if texts.len() == 0 {
        seq![]
    } else {
        let next = at + encoding::utf16_bytes(texts[0]).len() + 2;
        let rest = runs_of(texts.skip(1), next, anchor);
        if texts[0].len() >= 3 && !classify::binary_run(texts[0]) {
            seq![FieldV { rel: at - anchor, text: texts[0] }] + rest
        } else {
            rest
        }
    }
}

/// A text that can be found: it begins with a printable ASCII character, and all its
/// characters can be recovered.
pub open spec fn findable(s: Seq<char>) -> bool {
    &&& s.len() > 0
    &&& 0x20 <= s[0] as u32
    &&& (s[0] as u32) < 0x7F
    &&& forall|k: int| 0 <= k < s.len() ==> encoding::recoverable(#[trigger] s[k])
}

/// Texts that stand one behind the other in a block are found there, each in its
/// place.
pub proof fn lemma_texts_are_found(
    blob: Seq<u8>,
    anchor: int,
    lo: int,
    hi: int,
    texts: Seq<Seq<char>>,
)
    requires
        0 <= lo <= hi <= blob.len(),
        blob.subrange(lo, hi) == laid_out(texts),
        forall|k: int| 0 <= k < texts.len() ==> findable(#[trigger] texts[k]),
    ensures
        hxrecord::fields(blob, anchor, lo, hi) == runs_of(texts, lo, anchor),
    decreases texts.len(),
{
    assert(blob.subrange(lo, hi).len() == hi - lo);
    if texts.len() == 0 {
        assert(lo == hi);
    } else {
        let t = texts[0];
        let b = encoding::utf16_bytes(t);
        let n = b.len() as int;
        let more = texts.skip(1);
        let all = laid_out(texts);
        let end = lo + n;
        let next = end + 2;
        assert(findable(t));
        assert(all =~= b + (seq![0u8, 0u8] + laid_out(more)));
        assert(all.len() == hi - lo);
        assert(next <= hi);
        assert(blob.subrange(lo, end) =~= b) by {
            assert(blob.subrange(lo, end) =~= all.subrange(0, n));
        }
        assert(blob[end] == all[n] && blob[end + 1] == all[n + 1]);
        encoding::lemma_run_reads_what_was_written(blob, lo, hi, t);
        hxrecord::lemma_run_end(blob, lo, hi);
        assert(blob.subrange(next, hi) =~= laid_out(more)) by {
            assert(blob.subrange(next, hi) =~= all.subrange(n + 2, all.len() as int));
        }
        assert forall|k: int| 0 <= k < more.len() implies findable(#[trigger] more[k]) by {
            assert(more[k] == texts[k + 1]);
        }
        lemma_texts_are_found(blob, anchor, next, hi, more);
        assert(!hxrecord::ascii_pair(blob, end));
        assert(!hxrecord::ascii_pair(blob, end + 1));
        assert(hxrecord::fields(blob, anchor, end + 1, hi) == hxrecord::fields(
            blob,
            anchor,
            next,
            hi,
        ));
        assert(hxrecord::fields(blob, anchor, end, hi) == hxrecord::fields(
            blob,
            anchor,
            end + 1,
            hi,
        ));
    }
}

} // verus!
