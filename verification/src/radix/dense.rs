use vstd::prelude::*;
use vstd::slice::slice_index_get;
use crate::radix::node::ChildRef;

verus! {

/// No key occurs twice among the first `count` of `keys`.
pub open spec fn distinct_keys(keys: Seq<u8>, count: nat) -> bool {
    forall|i: int, j: int| 0 <= i < j < count ==> keys[i] != keys[j]
}

/// The slot among the first `count` whose key is `partial_key`.
pub open spec fn key_slot(keys: Seq<u8>, count: nat, partial_key: u8) -> Option<int> {
    if exists|i: int| 0 <= i < count && keys[i] == partial_key {
        Some(choose|i: int| 0 <= i < count && keys[i] == partial_key)
    } else {
        None
    }
}

/// The map that a dense pair of arrays stands for: slot `i` below `count`
/// maps `keys[i]` to `children[i]`.
pub open spec fn dense_map(keys: Seq<u8>, children: Seq<ChildRef>, count: nat) -> Map<
    u8,
    ChildRef,
> {
    Map::new(
        |b: u8| key_slot(keys, count, b) is Some,
        |b: u8| children[key_slot(keys, count, b).unwrap()],
    )
}

/// With distinct keys, the key in an occupied slot is found in that slot.
pub proof fn lemma_slot_of_key(keys: Seq<u8>, count: nat, i: int)
    requires
        distinct_keys(keys, count),
        0 <= i < count,
    ensures
        key_slot(keys, count, keys[i]) == Some(i),
{
}

/// With no slot occupied the map is empty.
pub proof fn lemma_dense_empty(keys: Seq<u8>, children: Seq<ChildRef>)
    ensures
        dense_map(keys, children, 0) == Map::<u8, ChildRef>::empty(),
{
    assert(dense_map(keys, children, 0) =~= Map::<u8, ChildRef>::empty());
}

/// Occupying the next slot with a key that is not yet present adds one mapping.
pub proof fn lemma_dense_append(
    keys: Seq<u8>,
    children: Seq<ChildRef>,
    count: nat,
    partial_key: u8,
    child: ChildRef,
)
    requires
        count < keys.len(),
        count < children.len(),
        distinct_keys(keys, count),
        key_slot(keys, count, partial_key) is None,
    ensures
        distinct_keys(keys.update(count as int, partial_key), count + 1),
        dense_map(
            keys.update(count as int, partial_key),
            children.update(count as int, child),
            count + 1,
        ) == dense_map(keys, children, count).insert(partial_key, child),
{
    let keys2 = keys.update(count as int, partial_key);
    let children2 = children.update(count as int, child);
    assert forall|i: int| 0 <= i < count implies keys[i] != partial_key by {
        if keys[i] == partial_key {
            assert(key_slot(keys, count, partial_key) is Some);
        }
    }
    assert(keys2[count as int] == partial_key);
    assert(key_slot(keys2, count + 1, partial_key) == Some(count as int));
    assert forall|b: u8| b != partial_key implies key_slot(keys2, count + 1, b) == key_slot(
        keys,
        count,
        b,
    ) by {
        if key_slot(keys, count, b) is Some {
            let i = key_slot(keys, count, b).unwrap();
            assert(keys2[i] == b);
            lemma_slot_of_key(keys2, count + 1, i);
        }
        if key_slot(keys2, count + 1, b) is Some {
            let i = key_slot(keys2, count + 1, b).unwrap();
            assert(keys[i] == b);
            lemma_slot_of_key(keys, count, i);
        }
    }
    assert(dense_map(keys2, children2, count + 1) =~= dense_map(keys, children, count).insert(
        partial_key,
        child,
    ));
}

/// Storing another child in the slot of a key that is present replaces its mapping.
pub proof fn lemma_dense_replace(
    keys: Seq<u8>,
    children: Seq<ChildRef>,
    count: nat,
    partial_key: u8,
    child: ChildRef,
)
    requires
        count <= keys.len(),
        count <= children.len(),
        distinct_keys(keys, count),
        key_slot(keys, count, partial_key) is Some,
    ensures
        dense_map(
            keys,
            children.update(key_slot(keys, count, partial_key).unwrap(), child),
            count,
        ) == dense_map(keys, children, count).insert(partial_key, child),
{
    let slot = key_slot(keys, count, partial_key).unwrap();
    assert forall|b: u8| b != partial_key && key_slot(keys, count, b) is Some implies key_slot(
        keys,
        count,
        b,
    ).unwrap() != slot by {}
    assert(dense_map(keys, children.update(slot, child), count) =~= dense_map(
        keys,
        children,
        count,
    ).insert(partial_key, child));
}

/// The map of the first `count + 1` slots is that of the first `count` with one mapping more.
pub proof fn lemma_dense_step(keys: Seq<u8>, children: Seq<ChildRef>, count: nat)
    requires
        count < keys.len(),
        count < children.len(),
        distinct_keys(keys, count + 1),
    ensures
        !dense_map(keys, children, count).contains_key(keys[count as int]),
        dense_map(keys, children, count + 1) == dense_map(keys, children, count).insert(
            keys[count as int],
            children[count as int],
        ),
{
    if key_slot(keys, count, keys[count as int]) is Some {
        let i = key_slot(keys, count, keys[count as int]).unwrap();
        assert(keys[i] == keys[count as int]);
    }
    lemma_dense_append(keys, children, count, keys[count as int], children[count as int]);
    assert(keys.update(count as int, keys[count as int]) =~= keys);
    assert(children.update(count as int, children[count as int]) =~= children);
}

/// A dense node with distinct keys holds exactly as many mappings as slots are occupied.
pub proof fn lemma_dense_size(keys: Seq<u8>, children: Seq<ChildRef>, count: nat)
    requires
        count <= keys.len(),
        count <= children.len(),
        distinct_keys(keys, count),
    ensures
        dense_map(keys, children, count).dom().finite(),
        dense_map(keys, children, count).len() == count,
    decreases count,
{
    if count == 0 {
        lemma_dense_empty(keys, children);
    } else {
        let before = (count - 1) as nat;
        lemma_dense_size(keys, children, before);
        lemma_dense_step(keys, children, before);
    }
}

/// Scans the first `count` keys for `partial_key`.
pub fn find_slot(keys: &[u8], count: usize, partial_key: u8) -> (slot: Option<usize>)
    requires
        count <= keys@.len(),
        distinct_keys(keys@, count as nat),
    ensures
        match slot {
            Some(i) => key_slot(keys@, count as nat, partial_key) == Some(i as int),
            None => key_slot(keys@, count as nat, partial_key) is None,
        },
{
    let mut idx: usize = 0;
    while idx < count
        invariant
            idx <= count <= keys@.len(),
            distinct_keys(keys@, count as nat),
            forall|j: int| 0 <= j < idx ==> keys@[j] != partial_key,
        decreases count - idx,
    {
        if *slice_index_get(keys, idx) == partial_key {
            proof {
                lemma_slot_of_key(keys@, count as nat, idx as int);
            }
            return Some(idx);
        }
        idx += 1;
    }
    None
}

} // verus!
