//! Laws of going through a whole store: every message, and every attachment, comes up
//! once, and none that is not there.

use vstd::prelude::*;
use crate::laws::same_text;
use crate::mailbox::{Attachment, Error, Folder, Mailbox, MessageRow};
use crate::server;
use crate::server::StoreInfo;
use crate::text;
use crate::views;
use crate::vtab;

verus! {

/// Two listed messages that show the same.
pub open spec fn same_listed(a: MessageRow, b: MessageRow) -> bool {
    &&& a.id == b.id
    &&& a.folder_id == b.folder_id
    &&& same_text(a.subject, b.subject)
    &&& same_text(a.sender_name, b.sender_name)
    &&& same_text(a.sender_email, b.sender_email)
    &&& a.delivered_us == b.delivered_us
    &&& a.submitted_us == b.submitted_us
    &&& a.modified_us == b.modified_us
    &&& a.size == b.size
    &&& a.unread == b.unread
    &&& a.has_attachments == b.has_attachments
    &&& same_text(a.message_class, b.message_class)
}

proof fn lemma_same_listed(a: MessageRow, b: MessageRow)
    requires
        a@ == b@,
    ensures
        same_listed(a, b),
{
    assert(a@.subject == text::opt_text(a.subject) && b@.subject == text::opt_text(b.subject));
    assert(a@.sender_name == text::opt_text(a.sender_name));
    assert(b@.sender_name == text::opt_text(b.sender_name));
    assert(a@.sender_email == text::opt_text(a.sender_email));
    assert(b@.sender_email == text::opt_text(b.sender_email));
    assert(a@.message_class == text::opt_text(a.message_class));
    assert(b@.message_class == text::opt_text(b.message_class));
}

/// How many messages folder `j` gives to a sweep: none if it is a search folder, or
/// its messages cannot be listed.
pub open spec fn gives(
    folders: Seq<Folder>,
    lists: Seq<Result<Vec<MessageRow>, Error>>,
    j: int,
) -> int {
    if folders[j].is_search_folder {
        0
    } else {
        match lists[j] {
            Ok(rows) => rows@.len() as int,
            Err(_) => 0,
        }
    }
}

/// How many messages the folders before folder `j` give.
pub open spec fn given_before(
    folders: Seq<Folder>,
    lists: Seq<Result<Vec<MessageRow>, Error>>,
    j: int,
) -> int
    decreases j,
{
    if j <= 0 {
        0
    } else {
        given_before(folders, lists, j - 1) + gives(folders, lists, j - 1)
    }
}

/// Message `k` of folder `j` stands in the sweep behind those of the folders before,
/// with the path of its folder.
pub open spec fn comes_up(
    r: Seq<(String, MessageRow)>,
    folders: Seq<Folder>,
    lists: Seq<Result<Vec<MessageRow>, Error>>,
    j: int,
    k: int,
) -> bool {
    let at = given_before(folders, lists, j) + k;
    &&& 0 <= at < r.len()
    &&& r[at].0@ == folders[j].path@
    &&& same_listed(r[at].1, lists[j]->Ok_0@[k])
}

proof fn lemma_given_before_front(
    folders: Seq<Folder>,
    lists: Seq<Result<Vec<MessageRow>, Error>>,
    j: int,
)
    requires
        folders.len() == lists.len(),
        0 <= j < folders.len(),
    ensures
        given_before(folders.drop_last(), lists.drop_last(), j) == given_before(folders, lists, j),
        given_before(folders, lists, j) >= 0,
    decreases j,
{
    if j > 0 {
        lemma_given_before_front(folders, lists, j - 1);
    }
}

proof fn lemma_swept_len(
    folders: Seq<Folder>,
    lists: Seq<Result<Vec<MessageRow>, Error>>,
    answers: Seq<Option<Seq<crate::mailbox::MessageRowV>>>,
)
    requires
        folders.len() == lists.len() == answers.len(),
        forall|i: int|
            0 <= i < folders.len() && !folders[i].is_search_folder ==> #[trigger] answers[i]
                == vtab::answer_of(lists[i]),
    ensures
        vtab::swept(views::views(folders), answers).len() == given_before(
            folders,
            lists,
            folders.len() as int,
        ),
    decreases folders.len(),
{
    if folders.len() > 0 {
        let all = views::views(folders);
        let n = folders.len() - 1;
        assert(all.drop_last() =~= views::views(folders.drop_last()));
        assert(all.last() == folders[n]@);
        assert(answers.last() == answers[n]);
        assert forall|i: int|
            0 <= i < n && !folders.drop_last()[i].is_search_folder implies #[trigger] answers.drop_last()[i]
            == vtab::answer_of(lists.drop_last()[i]) by {
            assert(answers.drop_last()[i] == answers[i]);
        }
        lemma_swept_len(folders.drop_last(), lists.drop_last(), answers.drop_last());
        lemma_given_before_front(folders, lists, n);
    }
}

proof fn lemma_swept_at(
    folders: Seq<Folder>,
    lists: Seq<Result<Vec<MessageRow>, Error>>,
    answers: Seq<Option<Seq<crate::mailbox::MessageRowV>>>,
    j: int,
    k: int,
)
    requires
        folders.len() == lists.len() == answers.len(),
        forall|i: int|
            0 <= i < folders.len() && !folders[i].is_search_folder ==> #[trigger] answers[i]
                == vtab::answer_of(lists[i]),
        0 <= j < folders.len(),
        0 <= k < gives(folders, lists, j),
    ensures
        ({
            let s = vtab::swept(views::views(folders), answers);
            let at = given_before(folders, lists, j) + k;
            0 <= at < s.len() && s[at] == (folders[j].path@, lists[j]->Ok_0@[k]@)
        }),
    decreases folders.len(),
{
    let all = views::views(folders);
    let n = folders.len() - 1;
    assert(all.drop_last() =~= views::views(folders.drop_last()));
    assert(all.last() == folders[n]@);
    assert(answers.last() == answers[n]);
    assert forall|i: int|
        0 <= i < n && !folders.drop_last()[i].is_search_folder implies #[trigger] answers.drop_last()[i]
        == vtab::answer_of(lists.drop_last()[i]) by {
        assert(answers.drop_last()[i] == answers[i]);
    }
    lemma_given_before_front(folders, lists, j);
    lemma_given_before_front(folders, lists, n);
    lemma_swept_len(folders.drop_last(), lists.drop_last(), answers.drop_last());
    if j < n {
        lemma_swept_at(folders.drop_last(), lists.drop_last(), answers.drop_last(), j, k);
    } else {
        let rows = lists[n]->Ok_0;
        assert(views::views(rows@)[k] == rows@[k]@);
    }
}

/// A sweep brings up every message of every folder that is not a search folder and
/// can be listed, once, folder by folder, with the path of the folder; and nothing
/// else.
pub proof fn lemma_sweep_brings_up_every_message<M: Mailbox>(
    store: &M,
    folders: Vec<Folder>,
    lists: Seq<Result<Vec<MessageRow>, Error>>,
    r: Vec<(String, MessageRow)>,
)
    requires
        forall|got: Result<Vec<Folder>, Error>| #[trigger]
            call_ensures(M::folders, (store,), got) ==> got == Ok::<Vec<Folder>, Error>(folders),
        lists.len() == folders@.len(),
        forall|i: int, got: Result<Vec<MessageRow>, Error>|
            0 <= i < folders@.len() && #[trigger] call_ensures(
                M::messages,
                (store, (#[trigger] folders@[i]).id),
                got,
            ) ==> got == lists[i],
        call_ensures(vtab::sweep_messages, (store,), r),
    ensures
        r@.len() == given_before(folders@, lists, folders@.len() as int),
        forall|j: int, k: int|
            0 <= j < folders@.len() && 0 <= k < gives(folders@, lists, j) ==> #[trigger] comes_up(
                r@,
                folders@,
                lists,
                j,
                k,
            ),
{
    let got = choose|got: Result<Vec<Folder>, Error>| #[trigger]
        call_ensures(M::folders, (store,), got) && match got {
            Err(_) => r@.len() == 0,
            Ok(fs) => exists|answers: Seq<Option<Seq<crate::mailbox::MessageRowV>>>| #[trigger]
                vtab::asked(store, fs@, answers) && vtab::sweep_view(r@) == vtab::swept(
                    views::views(fs@),
                    answers,
                ),
        };
    let answers = choose|answers: Seq<Option<Seq<crate::mailbox::MessageRowV>>>| #[trigger]
        vtab::asked(store, folders@, answers) && vtab::sweep_view(r@) == vtab::swept(
            views::views(folders@),
            answers,
        );
    assert forall|i: int|
        0 <= i < folders@.len() && !folders@[i].is_search_folder implies #[trigger] answers[i]
        == vtab::answer_of(lists[i]) by {
        let f = folders@[i];
        let one = choose|one: Result<Vec<MessageRow>, Error>| #[trigger]
            call_ensures(M::messages, (store, f.id), one) && answers[i] == vtab::answer_of(one);
        assert(call_ensures(M::messages, (store, folders@[i].id), one));
    }
    lemma_swept_len(folders@, lists, answers);
    let seen = vtab::sweep_view(r@);
    assert forall|j: int, k: int|
        0 <= j < folders@.len() && 0 <= k < gives(folders@, lists, j) implies #[trigger] comes_up(
        r@,
        folders@,
        lists,
        j,
        k,
    ) by {
        lemma_swept_at(folders@, lists, answers, j, k);
        let at = given_before(folders@, lists, j) + k;
        assert(seen[at] == (r@[at].0@, r@[at].1@));
        lemma_same_listed(r@[at].1, lists[j]->Ok_0@[k]);
    }
}

/// How many attachments message `j` gives: none where they cannot be listed.
pub open spec fn lists_attachments(lists: Seq<Result<Vec<Attachment>, Error>>, j: int) -> int {
    match lists[j] {
        Ok(list) => list@.len() as int,
        Err(_) => 0,
    }
}

/// How many attachments the messages before message `j` give.
pub open spec fn attachments_before(lists: Seq<Result<Vec<Attachment>, Error>>, j: int) -> int
    decreases j,
{
    if j <= 0 {
        0
    } else {
        attachments_before(lists, j - 1) + lists_attachments(lists, j - 1)
    }
}

/// Attachment `k` of message `j` stands behind those of the messages before, with the
/// id of its message.
pub open spec fn hangs_on(
    r: Seq<(i64, Attachment)>,
    messages: Seq<i64>,
    lists: Seq<Result<Vec<Attachment>, Error>>,
    j: int,
    k: int,
) -> bool {
    let at = attachments_before(lists, j) + k;
    &&& 0 <= at < r.len()
    &&& r[at].0 == messages[j]
    &&& crate::laws::profile::same_attachment(r[at].1, lists[j]->Ok_0@[k])
}

proof fn lemma_attachments_before_front(lists: Seq<Result<Vec<Attachment>, Error>>, j: int)
    requires
        0 <= j < lists.len(),
    ensures
        attachments_before(lists.drop_last(), j) == attachments_before(lists, j),
        attachments_before(lists, j) >= 0,
    decreases j,
{
    if j > 0 {
        lemma_attachments_before_front(lists, j - 1);
    }
}

proof fn lemma_collected_len(messages: Seq<i64>, lists: Seq<Result<Vec<Attachment>, Error>>)
    requires
        messages.len() == lists.len(),
    ensures
        vtab::collected(
            messages,
            Seq::new(lists.len(), |i: int| vtab::listing_of(lists[i])),
        ).len() == attachments_before(lists, lists.len() as int),
    decreases lists.len(),
{
    let answers = Seq::new(lists.len(), |i: int| vtab::listing_of(lists[i]));
    if lists.len() > 0 {
        let front = lists.drop_last();
        assert(answers.drop_last() =~= Seq::new(front.len(), |i: int| vtab::listing_of(front[i])));
        lemma_collected_len(messages.drop_last(), front);
        lemma_attachments_before_front(lists, lists.len() - 1);
    }
}

proof fn lemma_collected_at(
    messages: Seq<i64>,
    lists: Seq<Result<Vec<Attachment>, Error>>,
    j: int,
    k: int,
)
    requires
        messages.len() == lists.len(),
        0 <= j < lists.len(),
        0 <= k < lists_attachments(lists, j),
    ensures
        ({
            let s = vtab::collected(
                messages,
                Seq::new(lists.len(), |i: int| vtab::listing_of(lists[i])),
            );
            let at = attachments_before(lists, j) + k;
            0 <= at < s.len() && s[at] == (messages[j], lists[j]->Ok_0@[k]@)
        }),
    decreases lists.len(),
{
    let answers = Seq::new(lists.len(), |i: int| vtab::listing_of(lists[i]));
    let front = lists.drop_last();
    let n = lists.len() - 1;
    assert(answers.drop_last() =~= Seq::new(front.len(), |i: int| vtab::listing_of(front[i])));
    lemma_collected_len(messages.drop_last(), front);
    lemma_attachments_before_front(lists, n);
    lemma_attachments_before_front(lists, j);
    if j < n {
        lemma_collected_at(messages.drop_last(), front, j, k);
    } else {
        let list = lists[n]->Ok_0;
        assert(views::views(list@)[k] == list@[k]@);
    }
}

/// Collecting attachments brings up every attachment of every message asked about,
/// once, message by message; and nothing else.
pub proof fn lemma_every_attachment_is_collected<M: Mailbox>(
    store: &M,
    messages: &Vec<i64>,
    lists: Seq<Result<Vec<Attachment>, Error>>,
    r: Vec<(i64, Attachment)>,
)
    requires
        lists.len() == messages@.len(),
        forall|i: int, got: Result<Vec<Attachment>, Error>|
            0 <= i < messages@.len() && #[trigger] call_ensures(
                M::attachments,
                (store, #[trigger] messages@[i]),
                got,
            ) ==> got == lists[i],
        call_ensures(vtab::collect_attachments, (store, messages), r),
    ensures
        r@.len() == attachments_before(lists, lists.len() as int),
        forall|j: int, k: int|
            0 <= j < lists.len() && 0 <= k < lists_attachments(lists, j) ==> #[trigger] hangs_on(
                r@,
                messages@,
                lists,
                j,
                k,
            ),
{
    let answers = choose|answers: Seq<Option<Seq<crate::mailbox::AttachmentV>>>| #[trigger]
        vtab::asked_attachments(store, messages@, answers) && vtab::attachments_view(r@)
            == vtab::collected(messages@, answers);
    assert forall|i: int| 0 <= i < messages@.len() implies #[trigger] answers[i]
        == vtab::listing_of(lists[i]) by {
        let id = messages@[i];
        let one = choose|one: Result<Vec<Attachment>, Error>| #[trigger]
            call_ensures(M::attachments, (store, id), one) && answers[i] == vtab::listing_of(one);
        assert(call_ensures(M::attachments, (store, messages@[i]), one));
    }
    assert(answers =~= Seq::new(lists.len(), |i: int| vtab::listing_of(lists[i])));
    lemma_collected_len(messages@, lists);
    let seen = vtab::attachments_view(r@);
    assert forall|j: int, k: int|
        0 <= j < lists.len() && 0 <= k < lists_attachments(lists, j) implies #[trigger] hangs_on(
        r@,
        messages@,
        lists,
        j,
        k,
    ) by {
        lemma_collected_at(messages@, lists, j, k);
        let at = attachments_before(lists, j) + k;
        let a = lists[j]->Ok_0@[k];
        let b = r@[at].1;
        assert(seen[at] == (r@[at].0, b@));
        assert(a@ == b@);
        assert(a@.filename == text::opt_text(a.filename) && b@.filename == text::opt_text(
            b.filename,
        ));
        assert(a@.mime == text::opt_text(a.mime) && b@.mime == text::opt_text(b.mime));
        assert(a@.data_len == b@.data_len);
    }
}

/// An attachment query asks about the one message it is scoped to, or about every
/// message of a sweep.
pub proof fn lemma_scope_of_a_query(
    scope: Option<i64>,
    rows: &Vec<(String, MessageRow)>,
    r: Vec<i64>,
)
    requires
        call_ensures(vtab::scope_of, (scope, rows), r),
    ensures
        scope matches Some(id) ==> r@.len() == 1 && r@[0] == id,
        scope is None ==> r@.len() == rows@.len() && forall|i: int|
            0 <= i < rows@.len() ==> #[trigger] r@[i] == rows@[i].1.id,
{
}

/// What is told of a store is its path, its name, its kind and how many folders it
/// has, as the store gives them.
pub proof fn lemma_store_is_told<M: Mailbox>(
    store: &M,
    path: &str,
    name: Option<String>,
    kind: &'static str,
    folders: Result<Vec<Folder>, Error>,
    r: Result<StoreInfo, Error>,
)
    requires
        forall|got: Option<String>| #[trigger]
            call_ensures(M::display_name, (store,), got) ==> got == name,
        forall|got: &'static str| #[trigger] call_ensures(M::kind, (store,), got) ==> got == kind,
        forall|got: Result<Vec<Folder>, Error>| #[trigger]
            call_ensures(M::folders, (store,), got) ==> got == folders,
        call_ensures(server::store_info::<M>, (store, path), r),
    ensures
        match (folders, r) {
            (Ok(fs), Ok(info)) => {
                &&& info.path@ == path@
                &&& same_text(info.display_name, name)
                &&& info.kind@ == kind@
                &&& info.folders == fs@.len()
            },
            (Err(e), Err(f)) => e@ == f@,
            _ => false,
        },
{
}

} // verus!
