//! Laws of the folders of a PFF store: every folder that a table lists is shown, as
//! its row tells it, and no other.

use vstd::prelude::*;
use crate::errors::ErrorV;
use crate::laws::heap::{lemma_widths, number_at};
use crate::laws::messages::tells;
use crate::ost;
use crate::ost::ltp;
use crate::ost::ltp::{PcV, TcV};
use crate::ost::ndb::PffV;
use crate::ost::store;
use crate::ost::store::{Folder, FolderV, Store};
use crate::text;
use crate::views;

verus! {

/// The number of the table that lists the folders in a folder.
pub open spec fn hierarchy_of(nid: u32) -> u32 {
    (nid as int - nid as int % 32 + 0x0D) as u32
}

/// The number with which a row begins.
pub open spec fn row_number(row: Seq<u8>) -> int {
    if row.len() >= 4 {
        number_at(row, 0, 4)
    } else {
        0
    }
}

/// `f` is the folder that a row of the table of the folders in `parent` tells.
pub open spec fn told_by_row(f: FolderV, parent: FolderV, tc: TcV, row: Seq<u8>) -> bool {
    &&& f.nid == row_number(row)
    &&& f.nid != 0
    &&& f.parent_nid == parent.nid
    &&& match tc.string(row, 0x3001) {
        Some(s) => f.name == s,
        None => f.name.len() == 0,
    }
    &&& f.path == parent.path + seq!['/'] + f.name
    &&& f.item_count == tc.int32(row, 0x3602)
    &&& f.unread_count == tc.int32(row, 0x3603)
    &&& f.has_subfolders == (tc.flag(row, 0x360A) == Some(true))
}

/// Folder `j` is told by row `n` of the table of the folders in folder `i`, which
/// stands in front of it.
pub open spec fn is_child_by(pff: PffV, fs: Seq<FolderV>, j: int, i: int, n: int) -> bool {
    &&& 0 <= i < j < fs.len()
    &&& fs[i].nid % 32 == 2
    &&& ltp::tc_of(pff, hierarchy_of(fs[i].nid)) matches Ok(tc) && 0 <= n < tc.rows.len()
        && told_by_row(fs[j], fs[i], tc, tc.rows[n])
}

/// Folder `j` is told by some row.
pub open spec fn is_child(pff: PffV, fs: Seq<FolderV>, j: int) -> bool {
    exists|i: int, n: int| #[trigger] is_child_by(pff, fs, j, i, n)
}

/// A folder with this number is shown.
pub open spec fn shown(fs: Seq<FolderV>, nid: int) -> bool {
    exists|j: int| 0 <= j < fs.len() && (#[trigger] fs[j]).nid == nid
}

/// Every folder in folder `i` is shown.
pub open spec fn all_shown(pff: PffV, fs: Seq<FolderV>, i: int) -> bool {
    fs[i].nid % 32 == 2 ==> (ltp::tc_of(pff, hierarchy_of(fs[i].nid)) matches Ok(tc)
        ==> rows_shown(fs, tc))
}

/// Every row of a table that names a folder names one that is shown.
pub open spec fn rows_shown(fs: Seq<FolderV>, tc: TcV) -> bool {
    forall|n: int|
        0 <= n < tc.rows.len() && row_number(#[trigger] tc.rows[n]) != 0 ==> shown(
            fs,
            row_number(tc.rows[n]),
        )
}

proof fn lemma_shown_stays(fs: Seq<FolderV>, more: Seq<FolderV>, nid: int)
    requires
        fs.len() <= more.len(),
        more.take(fs.len() as int) == fs,
        shown(fs, nid),
    ensures
        shown(more, nid),
{
    let j = choose|j: int| 0 <= j < fs.len() && (#[trigger] fs[j]).nid == nid;
    assert(more.take(fs.len() as int)[j] == more[j]);
    assert(more[j].nid == nid);
}

/// One of the first `n` rows of a table tells `f`.
pub open spec fn some_row_tells(f: FolderV, parent: FolderV, tc: TcV, n: int) -> bool {
    exists|m: int| 0 <= m < n && told_by_row(f, parent, tc, #[trigger] tc.rows[m])
}

proof fn lemma_children(fs: Seq<FolderV>, k: int, tc: TcV, n: nat)
    requires
        0 <= k < fs.len(),
        n <= tc.rows.len(),
    ensures
        ({
            let after = store::with_children(fs, k, tc, n);
            &&& fs.len() <= after.len()
            &&& after.take(fs.len() as int) == fs
            &&& forall|j: int|
                fs.len() <= j < after.len() ==> some_row_tells(
                    #[trigger] after[j],
                    fs[k],
                    tc,
                    n as int,
                )
            &&& forall|m: int|
                0 <= m < n && row_number(#[trigger] tc.rows[m]) != 0 ==> shown(
                    after,
                    row_number(tc.rows[m]),
                )
        }),
    decreases n,
{
    assert(fs.take(fs.len() as int) =~= fs);
    if n > 0 {
        let before = store::with_children(fs, k, tc, (n - 1) as nat);
        let after = store::with_children(fs, k, tc, n);
        lemma_children(fs, k, tc, (n - 1) as nat);
        let row = tc.rows[n - 1];
        lemma_widths(row, 0);
        let nid = ltp::row_id_of(row);
        assert(nid == row_number(row));
        reveal_strlit("/");
        let f = store::row_folder(tc, row, fs[k].nid, fs[k].path);
        if nid == 0 || store::listed(before, nid) {
            assert(after == before);
            assert forall|j: int| fs.len() <= j < after.len() implies some_row_tells(
                #[trigger] after[j],
                fs[k],
                tc,
                n as int,
            ) by {
                assert(some_row_tells(before[j], fs[k], tc, n - 1));
                let m = choose|m: int|
                    0 <= m < n - 1 && told_by_row(before[j], fs[k], tc, #[trigger] tc.rows[m]);
                assert(told_by_row(after[j], fs[k], tc, tc.rows[m]));
            }
            if nid != 0 {
                let j = choose|j: int| 0 <= j < before.len() && (#[trigger] before[j]).nid == nid;
                assert(after[j].nid == row_number(row));
            }
        } else {
            assert(after == before.push(f));
            assert("/"@ =~= seq!['/']);
            assert(told_by_row(f, fs[k], tc, row));
            assert(after.take(fs.len() as int) =~= before.take(fs.len() as int));
            assert(after.take(before.len() as int) =~= before);
            assert(after[before.len() as int].nid == row_number(row));
            assert forall|m: int|
                0 <= m < n && row_number(#[trigger] tc.rows[m]) != 0 implies shown(
                after,
                row_number(tc.rows[m]),
            ) by {
                if m < n - 1 {
                    lemma_shown_stays(before, after, row_number(tc.rows[m]));
                }
            }
            assert forall|j: int| fs.len() <= j < after.len() implies some_row_tells(
                #[trigger] after[j],
                fs[k],
                tc,
                n as int,
            ) by {
                if j < before.len() {
                    assert(after[j] == before[j]);
                    assert(some_row_tells(before[j], fs[k], tc, n - 1));
                    let m = choose|m: int|
                        0 <= m < n - 1 && told_by_row(before[j], fs[k], tc, #[trigger] tc.rows[m]);
                    assert(told_by_row(after[j], fs[k], tc, tc.rows[m]));
                } else {
                    assert(told_by_row(after[j], fs[k], tc, tc.rows[n - 1]));
                }
            }
        }
    }
}

proof fn lemma_rows_shown_stay(fs: Seq<FolderV>, more: Seq<FolderV>, tc: TcV)
    requires
        fs.len() <= more.len(),
        more.take(fs.len() as int) == fs,
        rows_shown(fs, tc),
    ensures
        rows_shown(more, tc),
{
    assert forall|n: int|
        0 <= n < tc.rows.len() && row_number(#[trigger] tc.rows[n]) != 0 implies shown(
        more,
        row_number(tc.rows[n]),
    ) by {
        lemma_shown_stays(fs, more, row_number(tc.rows[n]));
    }
}

/// What looking into folder `k` adds.
proof fn lemma_added(pff: PffV, fs: Seq<FolderV>, k: int)
    requires
        0 <= k < fs.len(),
    ensures
        ({
            let next = store::looked_into(pff, fs, k);
            &&& fs.len() <= next.len()
            &&& next.take(fs.len() as int) == fs
            &&& all_shown(pff, next, k)
            &&& forall|j: int| fs.len() <= j < next.len() ==> #[trigger] is_child(pff, next, j)
        }),
{
    let next = store::looked_into(pff, fs, k);
    store::lemma_looked_into_grows(pff, fs, k);
    let nid = fs[k].nid;
    assert(next.take(fs.len() as int)[k] == next[k]);
    store::lemma_nid_of((nid as int / 32) as u32, 0x0D);
    assert(store::table_of(nid, store::NID_TYPE_HIERARCHY_TABLE) == hierarchy_of(nid));
    let got = ltp::tc_of(pff, hierarchy_of(nid));
    if nid % 32 == 2 && got is Ok {
        let tc = got->Ok_0;
        lemma_children(fs, k, tc, tc.rows.len());
        assert(rows_shown(next, tc));
        assert forall|j: int| fs.len() <= j < next.len() implies #[trigger] is_child(
            pff,
            next,
            j,
        ) by {
            assert(some_row_tells(next[j], fs[k], tc, tc.rows.len() as int));
            let m = choose|m: int|
                0 <= m < tc.rows.len() && told_by_row(next[j], fs[k], tc, #[trigger] tc.rows[m]);
            assert(is_child_by(pff, next, j, k, m));
        }
    }
}

proof fn lemma_kept(pff: PffV, fs: Seq<FolderV>, next: Seq<FolderV>, i: int)
    requires
        0 <= i < fs.len() <= next.len(),
        next.take(fs.len() as int) == fs,
    ensures
        all_shown(pff, fs, i) ==> all_shown(pff, next, i),
        is_child(pff, fs, i) ==> is_child(pff, next, i),
{
    assert(next.take(fs.len() as int)[i] == next[i]);
    if all_shown(pff, fs, i) && fs[i].nid % 32 == 2 {
        if let Ok(tc) = ltp::tc_of(pff, hierarchy_of(fs[i].nid)) {
            lemma_rows_shown_stay(fs, next, tc);
        }
    }
    if is_child(pff, fs, i) {
        let (h, n) = choose|h: int, n: int| #[trigger] is_child_by(pff, fs, i, h, n);
        assert(next.take(fs.len() as int)[h] == next[h]);
        assert(is_child_by(pff, next, i, h, n));
    }
}

proof fn lemma_looked_into(pff: PffV, fs: Seq<FolderV>, k: int)
    requires
        0 <= k < fs.len(),
        forall|j: int| 1 <= j < fs.len() ==> #[trigger] is_child(pff, fs, j),
        forall|i: int| 0 <= i < k ==> #[trigger] all_shown(pff, fs, i),
    ensures
        forall|j: int|
            1 <= j < store::looked_into(pff, fs, k).len() ==> #[trigger] is_child(
                pff,
                store::looked_into(pff, fs, k),
                j,
            ),
        forall|i: int|
            0 <= i <= k ==> #[trigger] all_shown(pff, store::looked_into(pff, fs, k), i),
{
    let next = store::looked_into(pff, fs, k);
    lemma_added(pff, fs, k);
    assert forall|j: int| 1 <= j < next.len() implies #[trigger] is_child(pff, next, j) by {
        if j < fs.len() {
            assert(is_child(pff, fs, j));
            lemma_kept(pff, fs, next, j);
        }
    }
    assert forall|i: int| 0 <= i <= k implies #[trigger] all_shown(pff, next, i) by {
        if i < k {
            assert(all_shown(pff, fs, i));
            lemma_kept(pff, fs, next, i);
        }
    }
}

proof fn lemma_expanded(pff: PffV, fs: Seq<FolderV>, k: int)
    requires
        0 <= k <= fs.len(),
        store::distinct_nids(fs),
        store::parents_first(fs),
        forall|j: int| 1 <= j < fs.len() ==> #[trigger] is_child(pff, fs, j),
        forall|i: int| 0 <= i < k ==> #[trigger] all_shown(pff, fs, i),
    ensures
        ({
            let r = store::expanded(pff, fs, k);
            &&& fs.len() <= r.len()
            &&& r.take(fs.len() as int) == fs
            &&& forall|j: int| 1 <= j < r.len() ==> #[trigger] is_child(pff, r, j)
            &&& forall|i: int| 0 <= i < r.len() ==> #[trigger] all_shown(pff, r, i)
        }),
    decreases 0x1_0000_0001 - fs.len(), fs.len() - k,
{
    assert(fs.take(fs.len() as int) =~= fs);
    if k < fs.len() {
        let next = store::looked_into(pff, fs, k);
        store::lemma_looked_into_grows(pff, fs, k);
        store::lemma_looked_into_tree(pff, fs, k);
        store::lemma_distinct_nids_bounded(next);
        lemma_looked_into(pff, fs, k);
        lemma_expanded(pff, next, k + 1);
        let r = store::expanded(pff, next, k + 1);
        assert(r.take(fs.len() as int) =~= r.take(next.len() as int).take(fs.len() as int));
    }
}

/// The folders of a store are the root and, under each folder shown that holds
/// messages, every folder that a row of its table tells: each as its row tells it,
/// behind its parent, and with the parent's path in front of its own name.
pub proof fn lemma_folders_are_told_by_rows(
    s: &Store,
    pc: Option<PcV>,
    r: Result<Vec<Folder>, ost::Error>,
)
    requires
        s.wf(),
        pc == ltp::pc_of(s.pff@, 0x122).ok(),
        call_ensures(Store::folders, (s,), r),
    ensures
        r is Ok,
        ({
            let fs = views::views(r->Ok_0@);
            &&& fs.len() > 0
            &&& fs[0].nid == 0x122 && fs[0].parent_nid == 0 && fs[0].path.len() == 0
            &&& fs[0].item_count is None && fs[0].unread_count is None && fs[0].has_subfolders
            &&& fs[0].name == (match pc {
                Some(p) => match p.string(0x3001) {
                    Some(name) => name,
                    None => "Root"@,
                },
                None => "Root"@,
            })
            &&& forall|j: int| 1 <= j < fs.len() ==> #[trigger] is_child(s.pff@, fs, j)
            &&& forall|i: int| 0 <= i < fs.len() ==> #[trigger] all_shown(s.pff@, fs, i)
        }),
{
    let pff = s.pff@;
    let root = store::root_folder(pff);
    let start = seq![root];
    store::lemma_folder_tree(pff);
    lemma_expanded(pff, start, 0);
    let fs = store::folder_tree(pff);
    assert(fs.take(1)[0] == fs[0]);
    assert(fs.take(1) == start);
}

/// What is shown of a folder is what stands in it.
pub proof fn lemma_shown_folder(r: Seq<Folder>, i: int)
    requires
        0 <= i < r.len(),
    ensures
        views::views(r)[i] == (FolderV {
            nid: r[i].nid,
            parent_nid: r[i].parent_nid,
            name: r[i].name@,
            path: r[i].path@,
            item_count: r[i].item_count,
            unread_count: r[i].unread_count,
            has_subfolders: r[i].has_subfolders,
        }),
{
}

/// The name of a store is the display name of its node 0x21.
pub proof fn lemma_store_name(s: &Store, pc: Option<PcV>, r: Option<String>)
    requires
        s.wf(),
        pc == ltp::pc_of(s.pff@, 0x21).ok(),
        call_ensures(Store::display_name, (s,), r),
    ensures
        tells(
            r,
            match pc {
                Some(p) => p.string(0x3001),
                None => None,
            },
        ),
{
    assert(text::opt_text(r) == store::store_name(s.pff@));
}

} // verus!
