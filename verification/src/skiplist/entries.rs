use vstd::prelude::*;
use crate::keys::{lemma_lex_asymmetric, lemma_lex_irreflexive, lex_lt};

verus! {

/// A key with its value.
pub type Entry = (Seq<u8>, Seq<u8>);

/// The keys of `entries` ascend strictly in lexicographic byte order.
pub open spec fn sorted(entries: Seq<Entry>) -> bool {
    forall|i: int, j: int| 0 <= i < j < entries.len() ==> lex_lt(entries[i].0, entries[j].0)
}

/// The index at which `key` stands in `entries`.
pub open spec fn index_of(entries: Seq<Entry>, key: Seq<u8>) -> Option<int> {
    if exists|i: int| 0 <= i < entries.len() && entries[i].0 == key {
        Some(choose|i: int| 0 <= i < entries.len() && entries[i].0 == key)
    } else {
        None
    }
}

/// The map that `entries` stands for.
pub open spec fn entries_map(entries: Seq<Entry>) -> Map<Seq<u8>, Seq<u8>> {
    Map::new(
        |key: Seq<u8>| index_of(entries, key) is Some,
        |key: Seq<u8>| entries[index_of(entries, key).unwrap()].1,
    )
}

/// In sorted entries no key occurs twice.
pub proof fn lemma_sorted_distinct(entries: Seq<Entry>, i: int, j: int)
    requires
        sorted(entries),
        0 <= i < entries.len(),
        0 <= j < entries.len(),
        entries[i].0 == entries[j].0,
    ensures
        i == j,
{
    if i < j {
        lemma_lex_asymmetric(entries[i].0, entries[j].0);
    }
    if j < i {
        lemma_lex_asymmetric(entries[j].0, entries[i].0);
    }
}

/// In sorted entries a key is found where it stands, and maps to the value beside it.
pub proof fn lemma_index_of_entry(entries: Seq<Entry>, i: int)
    requires
        sorted(entries),
        0 <= i < entries.len(),
    ensures
        index_of(entries, entries[i].0) == Some(i),
        entries_map(entries).contains_key(entries[i].0),
        entries_map(entries)[entries[i].0] == entries[i].1,
{
    let found = index_of(entries, entries[i].0).unwrap();
    lemma_sorted_distinct(entries, i, found);
}

/// A key that sorts between two neighbours, or outside all entries, is absent.
pub proof fn lemma_absent_at_gap(entries: Seq<Entry>, at: int, key: Seq<u8>)
    requires
        sorted(entries),
        0 <= at <= entries.len(),
        forall|i: int| 0 <= i < at ==> lex_lt(#[trigger] entries[i].0, key),
        forall|i: int| at <= i < entries.len() ==> lex_lt(key, #[trigger] entries[i].0),
    ensures
        index_of(entries, key) is None,
        !entries_map(entries).contains_key(key),
{
    lemma_lex_irreflexive(key);
    if index_of(entries, key) is Some {
        let i = index_of(entries, key).unwrap();
        assert(entries[i].0 == key);
    }
}

/// Inserting a new key at its place keeps the entries sorted and adds one mapping.
pub proof fn lemma_insert_entry(entries: Seq<Entry>, at: int, key: Seq<u8>, value: Seq<u8>)
    requires
        sorted(entries),
        0 <= at <= entries.len(),
        forall|i: int| 0 <= i < at ==> lex_lt(#[trigger] entries[i].0, key),
        forall|i: int| at <= i < entries.len() ==> lex_lt(key, #[trigger] entries[i].0),
    ensures
        sorted(entries.insert(at, (key, value))),
        entries_map(entries.insert(at, (key, value))) == entries_map(entries).insert(key, value),
{
    let after = entries.insert(at, (key, value));
    assert forall|i: int, j: int| 0 <= i < j < after.len() implies lex_lt(
        after[i].0,
        after[j].0,
    ) by {
        let oi = if i < at { i } else { i - 1 };
        let oj = if j < at { j } else { j - 1 };
        if i != at && j != at {
            assert(after[i] == entries[oi]);
            assert(after[j] == entries[oj]);
        } else if i == at {
            assert(after[j] == entries[oj]);
        } else {
            assert(after[i] == entries[oi]);
        }
    }
    lemma_absent_at_gap(entries, at, key);
    lemma_index_of_entry(after, at);
    assert forall|k: Seq<u8>| k != key implies (index_of(after, k) is Some) == (index_of(
        entries,
        k,
    ) is Some) && (index_of(entries, k) is Some ==> after[index_of(after, k).unwrap()].1
        == entries[index_of(entries, k).unwrap()].1) by {
        if index_of(entries, k) is Some {
            let i = index_of(entries, k).unwrap();
            let ni = if i < at { i } else { i + 1 };
            assert(after[ni] == entries[i]);
            lemma_index_of_entry(after, ni);
        }
        if index_of(after, k) is Some {
            let i = index_of(after, k).unwrap();
            let oi = if i < at { i } else { i - 1 };
            assert(after[i] == entries[oi]);
            lemma_index_of_entry(entries, oi);
        }
    }
    assert(entries_map(after) =~= entries_map(entries).insert(key, value));
}

/// Replacing the value beside a key keeps the entries sorted and replaces its mapping.
pub proof fn lemma_update_entry(entries: Seq<Entry>, at: int, value: Seq<u8>)
    requires
        sorted(entries),
        0 <= at < entries.len(),
    ensures
        sorted(entries.update(at, (entries[at].0, value))),
        entries_map(entries.update(at, (entries[at].0, value))) == entries_map(entries).insert(
            entries[at].0,
            value,
        ),
{
    let key = entries[at].0;
    let after = entries.update(at, (key, value));
    assert forall|i: int, j: int| 0 <= i < j < after.len() implies lex_lt(
        after[i].0,
        after[j].0,
    ) by {
        assert(after[i].0 == entries[i].0);
        assert(after[j].0 == entries[j].0);
    }
    lemma_index_of_entry(after, at);
    lemma_index_of_entry(entries, at);
    assert forall|k: Seq<u8>| k != key implies (index_of(after, k) is Some) == (index_of(
        entries,
        k,
    ) is Some) && (index_of(entries, k) is Some ==> after[index_of(after, k).unwrap()].1
        == entries[index_of(entries, k).unwrap()].1) by {
        if index_of(entries, k) is Some {
            let i = index_of(entries, k).unwrap();
            assert(after[i] == entries[i]);
            lemma_index_of_entry(after, i);
        }
        if index_of(after, k) is Some {
            let i = index_of(after, k).unwrap();
            assert(after[i].0 == entries[i].0);
            lemma_index_of_entry(entries, i);
        }
    }
    assert(entries_map(after) =~= entries_map(entries).insert(key, value));
}

/// Sorted entries stand for a finite map with one mapping per entry.
pub proof fn lemma_entries_size(entries: Seq<Entry>)
    requires
        sorted(entries),
    ensures
        entries_map(entries).dom().finite(),
        entries_map(entries).len() == entries.len(),
    decreases entries.len(),
{
    if entries.len() == 0 {
        assert(entries_map(entries) =~= Map::<Seq<u8>, Seq<u8>>::empty());
    } else {
        let last = entries.len() - 1;
        let front = entries.drop_last();
        assert(sorted(front)) by {
            assert forall|i: int, j: int| 0 <= i < j < front.len() implies lex_lt(
                front[i].0,
                front[j].0,
            ) by {
                assert(front[i] == entries[i] && front[j] == entries[j]);
            }
        }
        lemma_entries_size(front);
        assert forall|i: int| 0 <= i < last implies lex_lt(
            #[trigger] front[i].0,
            entries[last].0,
        ) by {
            assert(front[i] == entries[i]);
        }
        lemma_insert_entry(front, last, entries[last].0, entries[last].1);
        lemma_absent_at_gap(front, last, entries[last].0);
        assert(front.insert(last, entries[last]) =~= entries);
    }
}

} // verus!
