use vstd::prelude::*;
use crate::keys::{lemma_lex_asymmetric, lemma_lex_irreflexive, lemma_lex_total, lex_lt};
use crate::skiplist::entries::{
    index_of, lemma_index_of_entry, lemma_sorted_distinct, sorted, Entry,
};
use crate::skiplist::list::{lower_bound, upper_bound, Skiplist};

verus! {

/// The map after the entries of `puts` were put into `map` one after the other.
pub open spec fn put_all(map: Map<Seq<u8>, Seq<u8>>, puts: Seq<Entry>) -> Map<Seq<u8>, Seq<u8>>
    decreases puts.len(),
{
    if puts.len() == 0 {
        map
    } else {
        put_all(map, puts.drop_last()).insert(puts.last().0, puts.last().1)
    }
}

/// After puts of two different keys each key has the value it was last put
/// with, whichever of the two puts came first.
pub proof fn law_puts_of_different_keys(
    map: Map<Seq<u8>, Seq<u8>>,
    key1: Seq<u8>,
    value1: Seq<u8>,
    key2: Seq<u8>,
    value2: Seq<u8>,
)
    requires
        key1 != key2,
    ensures
        map.insert(key1, value1).insert(key2, value2) == map.insert(key2, value2).insert(
            key1,
            value1,
        ),
        map.insert(key1, value1).insert(key2, value2)[key1] == value1,
        map.insert(key1, value1).insert(key2, value2)[key2] == value2,
{
    assert(map.insert(key1, value1).insert(key2, value2) =~= map.insert(key2, value2).insert(
        key1,
        value1,
    ));
}

/// A later put of a key decides its value, and no put of another key changes it.
pub proof fn law_last_put_wins(
    map: Map<Seq<u8>, Seq<u8>>,
    key: Seq<u8>,
    earlier: Seq<u8>,
    later: Seq<u8>,
    other: Seq<u8>,
    value: Seq<u8>,
)
    requires
        other != key,
    ensures
        map.insert(key, earlier).insert(key, later)[key] == later,
        map.insert(key, earlier).insert(other, value)[key] == earlier,
{
}

/// Putting a key again with the value it has changes neither the map nor
/// the number of keys; the first put of an absent key adds one.
pub proof fn law_repeated_put(map: Map<Seq<u8>, Seq<u8>>, key: Seq<u8>, value: Seq<u8>)
    requires
        map.dom().finite(),
    ensures
        map.insert(key, value).insert(key, value) == map.insert(key, value),
        map.insert(key, value).insert(key, value).len() == map.insert(key, value).len(),
        map.insert(key, value).len() == map.len() + if map.contains_key(key) {
            0int
        } else {
            1int
        },
{
    assert(map.insert(key, value).insert(key, value) =~= map.insert(key, value));
}

/// Keys that are put once each are all retrievable afterwards, each with
/// its value, and the map has grown by their number.
pub proof fn law_puts_of_distinct_keys(puts: Seq<Entry>)
    requires
        forall|i: int, j: int| 0 <= i < j < puts.len() ==> puts[i].0 != puts[j].0,
    ensures
        put_all(Map::empty(), puts).dom().finite(),
        put_all(Map::empty(), puts).len() == puts.len(),
        forall|i: int|
            0 <= i < puts.len() ==> put_all(Map::empty(), puts).contains_key(
                #[trigger] puts[i].0,
            ) && put_all(Map::empty(), puts)[puts[i].0] == puts[i].1,
        forall|key: Seq<u8>|
            put_all(Map::empty(), puts).contains_key(key) ==> exists|i: int|
                0 <= i < puts.len() && #[trigger] puts[i].0 == key,
    decreases puts.len(),
{
    if puts.len() > 0 {
        let front = puts.drop_last();
        let last = puts.len() - 1;
        law_puts_of_distinct_keys(front);
        let before = put_all(Map::empty(), front);
        assert forall|i: int| 0 <= i < front.len() implies front[i] == puts[i] by {}
        if before.contains_key(puts[last].0) {
            let i = choose|i: int| 0 <= i < front.len() && #[trigger] front[i].0 == puts[last].0;
            assert(puts[i].0 == puts[last].0);
        }
        assert forall|i: int| 0 <= i < puts.len() implies put_all(
            Map::empty(),
            puts,
        ).contains_key(#[trigger] puts[i].0) && put_all(Map::empty(), puts)[puts[i].0]
            == puts[i].1 by {
            if i < last {
                assert(front[i] == puts[i]);
                assert(puts[i].0 != puts[last].0);
            }
        }
        assert forall|key: Seq<u8>| put_all(Map::empty(), puts).contains_key(key) implies exists|
            i: int,
        |
            0 <= i < puts.len() && #[trigger] puts[i].0 == key by {
            if key == puts[last].0 {
                assert(puts[last].0 == key);
            } else {
                let i = choose|i: int| 0 <= i < front.len() && #[trigger] front[i].0 == key;
                assert(puts[i].0 == key);
            }
        }
    }
}

/// The entries a cursor walks are the stored keys, each exactly once, in
/// strictly ascending byte order, each beside its value.
pub proof fn law_entries_are_the_map_in_order(list: &Skiplist)
    requires
        list.wf(),
    ensures
        sorted(list.entries()),
        list.entries().len() == list@.len(),
        forall|i: int|
            0 <= i < list.entries().len() ==> list@.contains_key(
                #[trigger] list.entries()[i].0,
            ) && list@[list.entries()[i].0] == list.entries()[i].1,
        forall|key: Seq<u8>|
            list@.contains_key(key) ==> exists|i: int|
                0 <= i < list.entries().len() && #[trigger] list.entries()[i].0 == key,
        forall|i: int, j: int|
            0 <= i < list.entries().len() && 0 <= j < list.entries().len()
                && list.entries()[i].0 == list.entries()[j].0 ==> i == j,
{
    let entries = list.entries();
    list.lemma_entries();
    assert forall|i: int| 0 <= i < entries.len() implies list@.contains_key(
        #[trigger] entries[i].0,
    ) && list@[entries[i].0] == entries[i].1 by {
        lemma_index_of_entry(entries, i);
    }
    assert forall|key: Seq<u8>| list@.contains_key(key) implies exists|i: int|
        0 <= i < entries.len() && #[trigger] entries[i].0 == key by {
        let i = index_of(entries, key).unwrap();
        assert(entries[i].0 == key);
    }
    assert forall|i: int, j: int|
        0 <= i < entries.len() && 0 <= j < entries.len() && entries[i].0
            == entries[j].0 implies i == j by {
        lemma_sorted_distinct(entries, i, j);
    }
}

/// Where `seek` lands: on the smallest stored key that does not sort before
/// the target, and off the list exactly if every stored key sorts before it.
pub proof fn law_seek_lands_on_smallest_not_less(entries: Seq<Entry>, at: int, target: Seq<u8>)
    requires
        sorted(entries),
        lower_bound(entries, at, target),
    ensures
        at < entries.len() ==> !lex_lt(entries[at].0, target),
        forall|j: int|
            0 <= j < entries.len() && !lex_lt(#[trigger] entries[j].0, target) ==> at <= j && (
            at == j || lex_lt(entries[at].0, entries[j].0)),
        at == entries.len() ==> forall|j: int|
            0 <= j < entries.len() ==> lex_lt(#[trigger] entries[j].0, target),
{
}

/// Where `seek_for_prev` lands: on the greatest stored key that does not
/// sort after the target, and off the list exactly if every stored key sorts
/// after it.
pub proof fn law_seek_for_prev_lands_on_greatest_not_greater(
    entries: Seq<Entry>,
    at: int,
    target: Seq<u8>,
)
    requires
        sorted(entries),
        upper_bound(entries, at, target),
    ensures
        at > 0 ==> !lex_lt(target, entries[at - 1].0),
        forall|j: int|
            0 <= j < entries.len() && !lex_lt(target, #[trigger] entries[j].0) ==> j < at && (j
                == at - 1 || lex_lt(entries[j].0, entries[at - 1].0)),
        at == 0 ==> forall|j: int|
            0 <= j < entries.len() ==> lex_lt(target, #[trigger] entries[j].0),
{
}

/// The two seeks agree on a stored target and straddle an absent one.
pub proof fn law_seeks_around_target(entries: Seq<Entry>, low: int, high: int, target: Seq<u8>)
    requires
        sorted(entries),
        lower_bound(entries, low, target),
        upper_bound(entries, high, target),
    ensures
        low <= high <= low + 1,
        high == low + 1 <==> (low < entries.len() && entries[low].0 == target),
{
    if low > high {
        lemma_lex_asymmetric(entries[high].0, target);
    }
    if high > low + 1 {
        lemma_lex_total(entries[low].0, target);
        lemma_lex_total(entries[low + 1].0, target);
        assert(lex_lt(entries[low].0, entries[low + 1].0));
    }
    if high == low + 1 {
        lemma_lex_total(entries[low].0, target);
    }
    if low < entries.len() && entries[low].0 == target {
        lemma_lex_irreflexive(target);
    }
}

} // verus!
