use crate::node::{bind, files_as_edge};
use vstd::prelude::*;

verus! {

/// What a tree that held `bound` holds after the insertions `entries`, made
/// in their order.
pub open spec fn bind_all<T>(bound: Map<Seq<char>, T>, entries: Seq<(Seq<char>, T)>) -> Map<
    Seq<char>,
    T,
>
    decreases entries.len(),
{
    if entries.len() == 0 {
        bound
    } else {
        bind(bind_all(bound, entries.drop_last()), entries.last().0, entries.last().1)
    }
}

/// A key that is filed as an edge is found with its value right after its
/// insertion.
pub proof fn lemma_inserted_is_found<T>(bound: Map<Seq<char>, T>, key: Seq<char>, val: T)
    requires
        files_as_edge(bound, key),
    ensures
        bind(bound, key, val).contains_key(key),
        bind(bound, key, val)[key] == val,
{
}

/// An insertion leaves every other key as it was: found or not, and with the
/// same value.
pub proof fn lemma_insert_keeps_others<T>(
    bound: Map<Seq<char>, T>,
    key: Seq<char>,
    val: T,
    other: Seq<char>,
)
    requires
        other != key,
    ensures
        bind(bound, key, val).contains_key(other) == bound.contains_key(other),
        bound.contains_key(other) ==> bind(bound, key, val)[other] == bound[other],
{
}

/// A key that was filed as an edge at its last insertion is found with the
/// value of that insertion, whatever other keys were inserted before or
/// after.
pub proof fn lemma_last_insertion_is_found<T>(
    bound: Map<Seq<char>, T>,
    entries: Seq<(Seq<char>, T)>,
    at: int,
)
    requires
        0 <= at < entries.len(),
        files_as_edge(bind_all(bound, entries.take(at)), entries[at].0),
        forall|later: int| at < later < entries.len() ==> entries[later].0 != entries[at].0,
    ensures
        bind_all(bound, entries).contains_key(entries[at].0),
        bind_all(bound, entries)[entries[at].0] == entries[at].1,
    decreases entries.len(),
{
    let key = entries[at].0;
    let earlier = entries.drop_last();
    if at == entries.len() - 1 {
        assert(earlier =~= entries.take(at));
        lemma_inserted_is_found(bind_all(bound, earlier), key, entries[at].1);
    } else {
        assert(earlier[at] == entries[at]);
        assert(earlier.take(at) =~= entries.take(at));
        assert forall|later: int| at < later < earlier.len() implies earlier[later].0
            != earlier[at].0 by {
            assert(earlier[later] == entries[later]);
        }
        lemma_last_insertion_is_found(bound, earlier, at);
        lemma_insert_keeps_others(
            bind_all(bound, earlier),
            entries.last().0,
            entries.last().1,
            key,
        );
    }
}

/// Inserting a non-empty key a second time replaces its value.
pub proof fn lemma_second_insertion_wins<T>(
    bound: Map<Seq<char>, T>,
    key: Seq<char>,
    first: T,
    second: T,
)
    requires
        key.len() > 0,
    ensures
        bind(bind(bound, key, first), key, second).contains_key(key),
        bind(bind(bound, key, first), key, second)[key] == second,
        bind(bind(bound, key, first), key, second) == bind(bound, key, second),
{
    assert(bind(bind(bound, key, first), key, second) =~= bind(bound, key, second));
}

/// An insertion leaves the keys that extend the inserted key as they were.
pub proof fn lemma_insert_keeps_longer_keys<T>(
    bound: Map<Seq<char>, T>,
    key: Seq<char>,
    val: T,
    suffix: Seq<char>,
)
    requires
        suffix.len() > 0,
    ensures
        bind(bound, key, val).contains_key(key + suffix) == bound.contains_key(key + suffix),
        bound.contains_key(key + suffix) ==> bind(bound, key, val)[key + suffix] == bound[key
            + suffix],
{
    assert((key + suffix).len() != key.len());
    lemma_insert_keeps_others(bound, key, val, key + suffix);
}

/// A key that was never inserted is not found: not one that is a prefix of
/// an inserted key, nor one that extends an inserted key.
pub proof fn lemma_never_inserted_is_absent<T>(entries: Seq<(Seq<char>, T)>, key: Seq<char>)
    requires
        forall|i: int| 0 <= i < entries.len() ==> entries[i].0 != key,
    ensures
        !bind_all(Map::<Seq<char>, T>::empty(), entries).contains_key(key),
    decreases entries.len(),
{
    if entries.len() > 0 {
        let earlier = entries.drop_last();
        assert forall|i: int| 0 <= i < earlier.len() implies earlier[i].0 != key by {
            assert(earlier[i] == entries[i]);
        }
        lemma_never_inserted_is_absent(earlier, key);
        lemma_insert_keeps_others(
            bind_all(Map::<Seq<char>, T>::empty(), earlier),
            entries.last().0,
            entries.last().1,
            key,
        );
    }
}

} // verus!
