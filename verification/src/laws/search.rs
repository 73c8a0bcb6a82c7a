//! Laws of the statements that the tools run.

use vstd::prelude::*;
use crate::server;
use crate::server::{FoldersRequest, SearchRequest};
use crate::views;

verus! {

/// A condition of a search and the values that its placeholders are bound to.
pub struct Condition {
    pub text: Seq<char>,
    pub bound: Seq<Seq<char>>,
}

/// `t` anywhere in a text.
pub open spec fn anywhere(t: Seq<char>) -> Seq<char> {
    seq!['%'] + t + seq!['%']
}

/// The conditions joined so that all of them have to hold.
pub open spec fn all_of(conditions: Seq<Condition>) -> Seq<char>
    decreases conditions.len(),
{
    if conditions.len() == 0 {
        seq![]
    } else if conditions.len() == 1 {
        conditions[0].text
    } else {
        all_of(conditions.drop_last()) + " AND "@ + conditions.last().text
    }
}

/// The values bound, in the order of the conditions.
pub open spec fn all_bound(conditions: Seq<Condition>) -> Seq<Seq<char>>
    decreases conditions.len(),
{
    if conditions.len() == 0 {
        seq![]
    } else {
        all_bound(conditions.drop_last()) + conditions.last().bound
    }
}

/// The condition that a filter on the text of a message comes to.
pub open spec fn on_text(t: Seq<char>) -> Condition {
    Condition {
        text: "(subject ILIKE ? OR sender_name ILIKE ? OR sender_email ILIKE ?)"@,
        bound: seq![anywhere(t), anywhere(t), anywhere(t)],
    }
}

/// The condition that a filter on the folder comes to.
pub open spec fn on_folder(f: Seq<char>) -> Condition {
    Condition { text: "folder_path ILIKE ?"@, bound: seq![anywhere(f)] }
}

/// The condition that a first day comes to.
pub open spec fn on_since(day: Seq<char>) -> Condition {
    Condition { text: "delivered >= ?::TIMESTAMP"@, bound: seq![day] }
}

/// The condition that a day to stop before comes to.
pub open spec fn on_until(day: Seq<char>) -> Condition {
    Condition { text: "delivered < ?::TIMESTAMP"@, bound: seq![day] }
}

/// The condition that asking for attachments comes to.
pub open spec fn on_attachments() -> Condition {
    Condition { text: "has_attachments"@, bound: seq![] }
}

/// Whether a condition is that of a filter that the request gives.
pub open spec fn asked_for(c: Condition, req: SearchRequest) -> bool {
    ||| req.text matches Some(t) && t@.len() > 0 && c == on_text(t@)
    ||| req.folder matches Some(f) && f@.len() > 0 && c == on_folder(f@)
    ||| req.since matches Some(s) && c == on_since(s@)
    ||| req.until matches Some(u) && c == on_until(u@)
    ||| req.with_attachments == Some(true) && c == on_attachments()
}

/// The conditions are those that were asked for: each of them, none twice, and no
/// other.
pub open spec fn are_asked_for(conditions: Seq<Condition>, req: SearchRequest) -> bool {
    &&& forall|i: int| 0 <= i < conditions.len() ==> asked_for(#[trigger] conditions[i], req)
    &&& forall|c: Condition| #[trigger] asked_for(c, req) ==> conditions.contains(c)
    &&& forall|i: int, j: int|
        0 <= i < j < conditions.len() ==> (#[trigger] conditions[i]).text != (
        #[trigger] conditions[j]).text
}

/// The conditions of a request in one of the orders that they can have.
proof fn conditions_of(req: SearchRequest) -> (conditions: Seq<Condition>)
    ensures
        are_asked_for(conditions, req),
        conditions.len() == server::search_clauses(req).len(),
        forall|i: int|
            0 <= i < conditions.len() ==> (#[trigger] conditions[i]).text == server::search_clauses(
                req,
            )[i],
        all_bound(conditions) == server::search_params(req),
{
    reveal_strlit("(subject ILIKE ? OR sender_name ILIKE ? OR sender_email ILIKE ?)");
    reveal_strlit("folder_path ILIKE ?");
    reveal_strlit("delivered >= ?::TIMESTAMP");
    reveal_strlit("delivered < ?::TIMESTAMP");
    reveal_strlit("has_attachments");
    reveal_strlit("%");
    assert("(subject ILIKE ? OR sender_name ILIKE ? OR sender_email ILIKE ?)"@.len() == 64);
    assert("folder_path ILIKE ?"@.len() == 19);
    assert("delivered >= ?::TIMESTAMP"@.len() == 25);
    assert("delivered < ?::TIMESTAMP"@.len() == 24);
    assert("has_attachments"@.len() == 15);
    let none: Seq<Condition> = seq![];
    assert(forall|t: Seq<char>| #[trigger] server::pattern(t) =~= anywhere(t)) by {
        assert("%"@ =~= seq!['%']);
    }
    let a = match req.text {
        Some(t) => if t@.len() > 0 {
            none.push(on_text(t@))
        } else {
            none
        },
        None => none,
    };
    let b = match req.folder {
        Some(f) => if f@.len() > 0 {
            a.push(on_folder(f@))
        } else {
            a
        },
        None => a,
    };
    let c = match req.since {
        Some(s) => b.push(on_since(s@)),
        None => b,
    };
    let d = match req.until {
        Some(u) => c.push(on_until(u@)),
        None => c,
    };
    let e = if req.with_attachments == Some(true) {
        d.push(on_attachments())
    } else {
        d
    };
    lemma_bound_push(none, on_text(req.text->Some_0@));
    lemma_bound_push(a, on_folder(req.folder->Some_0@));
    lemma_bound_push(b, on_since(req.since->Some_0@));
    lemma_bound_push(c, on_until(req.until->Some_0@));
    lemma_bound_push(d, on_attachments());
    assert(all_bound(none) =~= seq![]);
    assert(all_bound(e) =~= server::search_params(req));
    assert forall|x: Condition| #[trigger] asked_for(x, req) implies e.contains(x) by {
        if req.text matches Some(t) && t@.len() > 0 && x == on_text(t@) {
            assert(e[0] == x);
        } else if req.folder matches Some(f) && f@.len() > 0 && x == on_folder(f@) {
            assert(e[a.len() as int] == x);
        } else if req.since matches Some(s) && x == on_since(s@) {
            assert(e[b.len() as int] == x);
        } else if req.until matches Some(u) && x == on_until(u@) {
            assert(e[c.len() as int] == x);
        } else {
            assert(e[d.len() as int] == x);
        }
    }
    e
}

proof fn lemma_bound_push(conditions: Seq<Condition>, c: Condition)
    ensures
        all_bound(conditions.push(c)) == all_bound(conditions) + c.bound,
{
    assert(conditions.push(c).drop_last() =~= conditions);
}

proof fn lemma_all_of(conditions: Seq<Condition>, texts: Seq<Seq<char>>)
    requires
        conditions.len() == texts.len(),
        forall|i: int| 0 <= i < conditions.len() ==> (#[trigger] conditions[i]).text == texts[i],
    ensures
        all_of(conditions) == server::conjunction(texts),
    decreases texts.len(),
{
    if texts.len() > 1 {
        assert forall|i: int| 0 <= i < texts.len() - 1 implies (
        #[trigger] conditions.drop_last()[i]).text == texts.drop_last()[i] by {
            assert(conditions[i].text == texts[i]);
        }
        lemma_all_of(conditions.drop_last(), texts.drop_last());
        assert(conditions[texts.len() - 1].text == texts[texts.len() - 1]);
    } else if texts.len() == 1 {
        assert(conditions[0].text == texts[0]);
    }
}

/// A search asks for the messages that meet every filter that was given, and no
/// other condition: each filter adds its own, whatever the others are, and binds its
/// own value to it. The newest come first.
pub proof fn lemma_search_asks_for_what_was_given(req: &SearchRequest, r: (String, Vec<String>))
    requires
        call_ensures(server::search, (req,), r),
    ensures
        exists|conditions: Seq<Condition>| #[trigger]
            are_asked_for(conditions, *req) && r.0@
                == "SELECT nid, folder_path, subject, sender_name, sender_email, delivered, size, unread, has_attachments FROM messages "@
                + (if conditions.len() == 0 {
                seq![]
            } else {
                "WHERE "@ + all_of(conditions)
            }) + " ORDER BY delivered DESC NULLS LAST"@ && views::views(r.1@) == all_bound(
                conditions,
            ),
{
    let conditions = conditions_of(*req);
    lemma_all_of(conditions, server::search_clauses(*req));
    assert(are_asked_for(conditions, *req));
}

/// The folder list is every folder, or those whose path holds the text asked for,
/// which is bound and stands nowhere in the statement.
pub proof fn lemma_folder_list_asks_for_what_was_given(
    req: &FoldersRequest,
    r: (String, Vec<String>),
)
    requires
        call_ensures(server::list_folders, (req,), r),
    ensures
        req.contains matches Some(c) ==> r.1@.len() == 1 && r.1@[0]@ == anywhere(c@) && r.0@
            == "SELECT nid, path, name, item_count, unread_count, is_search_folder FROM folders WHERE path ILIKE ? ORDER BY path"@,
        req.contains is None ==> r.1@.len() == 0 && r.0@
            == "SELECT nid, path, name, item_count, unread_count, is_search_folder FROM folders  ORDER BY path"@,
{
    let vs = views::views(r.1@);
    reveal_strlit(
        "SELECT nid, path, name, item_count, unread_count, is_search_folder FROM folders ",
    );
    reveal_strlit("WHERE path ILIKE ?");
    reveal_strlit(" ORDER BY path");
    reveal_strlit("");
    reveal_strlit("%");
    reveal_strlit(
        "SELECT nid, path, name, item_count, unread_count, is_search_folder FROM folders WHERE path ILIKE ? ORDER BY path",
    );
    reveal_strlit(
        "SELECT nid, path, name, item_count, unread_count, is_search_folder FROM folders  ORDER BY path",
    );
    match req.contains {
        Some(c) => {
            assert(vs.len() == r.1@.len());
            assert(vs[0] == r.1@[0]@);
            assert(server::pattern(c@) =~= anywhere(c@));
            assert(r.0@
                =~= "SELECT nid, path, name, item_count, unread_count, is_search_folder FROM folders WHERE path ILIKE ? ORDER BY path"@);
        },
        None => {
            assert(vs.len() == r.1@.len());
            assert(r.0@
                =~= "SELECT nid, path, name, item_count, unread_count, is_search_folder FROM folders  ORDER BY path"@);
        },
    }
}

/// As many rows as asked for are returned, within 1 and 5000; 200 where nothing was
/// asked for.
pub proof fn lemma_limit_is_held(limit: Option<usize>, r: usize)
    requires
        call_ensures(server::clamp_limit, (limit,), r),
    ensures
        1 <= r <= 5_000,
        limit is None ==> r == 200,
        limit matches Some(n) ==> (1 <= n <= 5_000 ==> r == n) && (n > 5_000 ==> r == 5_000) && (n
            == 0 ==> r == 1),
{
}

} // verus!
