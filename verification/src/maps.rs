//! Maps as what a list of entries leaves behind.

use vstd::prelude::*;

verus! {

/// The map that a list of entries leaves behind: of two with one key the later
/// stays.
pub open spec fn last_wins<K, V>(entries: Seq<(K, V)>) -> Map<K, V>
    decreases entries.len(),
{
    if entries.len() == 0 {
        Map::empty()
    } else {
        last_wins(entries.drop_last()).insert(entries.last().0, entries.last().1)
    }
}

/// Appending to the entries of a map inserts one more.
pub proof fn lemma_last_wins_push<K, V>(entries: Seq<(K, V)>, e: (K, V))
    ensures
        last_wins(entries.push(e)) == last_wins(entries).insert(e.0, e.1),
{
    assert(entries.push(e).drop_last() =~= entries);
}

/// A key is filed exactly when some entry carries it, with the value of the last
/// such entry.
pub proof fn lemma_last_wins_is_last<K, V>(entries: Seq<(K, V)>, key: K)
    ensures
        last_wins(entries).contains_key(key) <==> exists|i: int|
            0 <= i < entries.len() && (#[trigger] entries[i]).0 == key,
        forall|i: int|
            0 <= i < entries.len() && (#[trigger] entries[i]).0 == key && (forall|j: int|
                i < j < entries.len() ==> (#[trigger] entries[j]).0 != key)
                ==> last_wins(entries)[key] == entries[i].1,
        last_wins(entries).contains_key(key) ==> exists|i: int|
            0 <= i < entries.len() && #[trigger] entries[i] == (key, last_wins(entries)[key]),
    decreases entries.len(),
{
    if entries.len() > 0 {
        let front = entries.drop_last();
        lemma_last_wins_is_last(front, key);
        assert(entries[entries.len() - 1] == entries.last());
        assert(forall|i: int| 0 <= i < front.len() ==> front[i] == entries[i]);
        if last_wins(front).contains_key(key) {
            let i = choose|i: int|
                0 <= i < front.len() && #[trigger] front[i] == (key, last_wins(front)[key]);
            assert(entries[i].0 == key);
        }
        assert forall|i: int|
            0 <= i < entries.len() && (#[trigger] entries[i]).0 == key && (forall|j: int|
                i < j < entries.len() ==> (#[trigger] entries[j]).0
                    != key) implies last_wins(entries)[key] == entries[i].1 by {
            if i < front.len() {
                assert(front[i].0 == key);
                assert(entries.last().0 != key);
                assert(forall|j: int| i < j < front.len() ==> (#[trigger] front[j]) == entries[j]);
            }
        }
    }
}

} // verus!
