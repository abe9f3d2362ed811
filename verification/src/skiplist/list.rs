use vstd::prelude::*;
use crate::arena::{lemma_span_stable, Arena, Span};
use crate::error::Error;
use crate::keys::{compare_keys, lemma_lex_total, lemma_lex_transitive, lex_lt, KeyOrder};
use crate::skiplist::entries::{
    entries_map, lemma_absent_at_gap, lemma_entries_size, lemma_index_of_entry,
    lemma_insert_entry, lemma_update_entry, sorted, Entry,
};
use crate::skiplist::height::{HeightGenerator, DEFAULT_SEED, MAX_HEIGHT};
use crate::skiplist::shape::{
    heights, lemma_link_level, lemma_links_insert, lemma_shape_insert, link_ok, links_ok,
    shape_insert, shape_ok, Shape,
};

verus! {

/// One record of the list: where its key and its value lie in the arena, and
/// its tower of links, one per level the node takes part in. Link 0 means no
/// successor.
pub struct SkipNode {
    pub key: Span,
    pub value: Span,
    pub next: Vec<usize>,
}

/// The towers of `nodes`, as sequences of links.
pub open spec fn towers(nodes: Seq<SkipNode>) -> Seq<Seq<usize>> {
    Seq::new(nodes.len(), |i: int| nodes[i].next@)
}

/// The entries of the list in key order.
pub open spec fn entries_of(nodes: Seq<SkipNode>, bytes: Seq<u8>, shape: Shape) -> Seq<Entry> {
    Seq::new(
        shape.ord.len(),
        |p: int| (nodes[shape.ord[p]].key.of(bytes), nodes[shape.ord[p]].value.of(bytes)),
    )
}

/// `at` is the index of the first entry whose key does not sort before `key`.
pub open spec fn lower_bound(entries: Seq<Entry>, at: int, key: Seq<u8>) -> bool {
    &&& 0 <= at <= entries.len()
    &&& forall|i: int| 0 <= i < at ==> lex_lt(#[trigger] entries[i].0, key)
    &&& forall|i: int| at <= i < entries.len() ==> !lex_lt(#[trigger] entries[i].0, key)
}

/// `at` is the index of the first entry whose key sorts after `key`.
pub open spec fn upper_bound(entries: Seq<Entry>, at: int, key: Seq<u8>) -> bool {
    &&& 0 <= at <= entries.len()
    &&& forall|i: int| 0 <= i < at ==> !lex_lt(key, #[trigger] entries[i].0)
    &&& forall|i: int| at <= i < entries.len() ==> lex_lt(key, #[trigger] entries[i].0)
}

/// Node `f` stands before position `at` and reaches above `level`, and no
/// node between the two does; `lens` gives the height of every tower.
pub open spec fn finger_before(lens: Seq<nat>, shape: Shape, at: int, level: int, f: int) -> bool {
    &&& 0 <= f < lens.len()
    &&& level < lens[f]
    &&& shape.pos[f] < at
    &&& forall|m: int| shape.pos[f] < m < at ==> lens[#[trigger] shape.ord[m]] <= level
}

/// An ordered map from byte-string keys to byte-string values. Keys and
/// values live in an arena of fixed capacity. The nodes stand in a store of
/// their own and name each other by index, so a link is an index to look up,
/// never an address. Node 0 is the head: it holds no entry and has a tower
/// of full height. Nothing is ever removed or moved.
pub struct Skiplist {
    pub(crate) arena: Arena,
    pub(crate) nodes: Vec<SkipNode>,
    pub(crate) heights: HeightGenerator,
    pub(crate) shape: Ghost<Shape>,
}

impl View for Skiplist {
    type V = Map<Seq<u8>, Seq<u8>>;

    /// The map from each stored key to its value.
    closed spec fn view(&self) -> Map<Seq<u8>, Seq<u8>> {
        entries_map(self.entries())
    }
}

impl Skiplist {
    /// The stored entries in ascending key order.
    pub closed spec fn entries(&self) -> Seq<Entry> {
        entries_of(self.nodes@, self.arena@, self.shape@)
    }

    /// The arena bytes that are still free.
    pub closed spec fn free(&self) -> nat {
        self.arena.free()
    }

    /// The representation invariant.
    pub closed spec fn wf(&self) -> bool {
        &&& self.arena.wf()
        &&& shape_ok(self.shape@, self.nodes@.len() as int)
        &&& self.nodes@[0].next@.len() == MAX_HEIGHT
        &&& forall|i: int|
            0 <= i < self.nodes@.len() ==> {
                &&& 1 <= (#[trigger] self.nodes@[i]).next@.len() <= MAX_HEIGHT
                &&& self.nodes@[i].key.within(self.arena@.len())
                &&& self.nodes@[i].value.within(self.arena@.len())
            }
        &&& sorted(self.entries())
        &&& links_ok(towers(self.nodes@), self.shape@, heights(towers(self.nodes@)))
    }

    /// The entries ascend strictly by key, and the map holds exactly them.
    pub proof fn lemma_entries(&self)
        requires
            self.wf(),
        ensures
            sorted(self.entries()),
            self@ == entries_map(self.entries()),
            self@.dom().finite(),
            self@.len() == self.entries().len(),
    {
        lemma_entries_size(self.entries());
    }

    /// Whether `node` names a node of the list; node 0 is the head, which
    /// holds no entry.
    pub closed spec fn holds(&self, node: usize) -> bool {
        node < self.nodes@.len()
    }

    /// The index among the entries of the entry that `node` holds; -1 for the head.
    pub closed spec fn position(&self, node: usize) -> int {
        self.shape@.pos[node as int]
    }

    /// The key that node `i` holds.
    pub closed spec fn key_of(&self, i: int) -> Seq<u8> {
        self.nodes@[i].key.of(self.arena@)
    }

    /// Node `x` is where a search for `key` leaves `level`: its tower reaches
    /// above the level, its key sorts before `key`, and no later node that
    /// reaches above the level has a key that sorts before `key`.
    pub closed spec fn finger_ok(&self, key: Seq<u8>, level: int, x: int) -> bool {
        &&& 0 <= x < self.nodes@.len()
        &&& level < self.nodes@[x].next@.len()
        &&& x != 0 ==> lex_lt(self.key_of(x), key)
        &&& forall|m: int|
            self.shape@.pos[x] < m < self.shape@.ord.len() && self.nodes@[#[trigger] self.shape@.ord[m]].next@.len()
                > level ==> !lex_lt(self.entries()[m].0, key)
    }

    /// Only the head stands before the first entry; every other node holds the
    /// entry at its position.
    pub(crate) proof fn lemma_position(&self, node: usize)
        requires
            self.wf(),
            self.holds(node),
        ensures
            -1 <= self.position(node) < self.entries().len(),
            (node == 0) == (self.position(node) == -1),
    {
    }

    /// Node 0, the head, is a node of every list.
    pub(crate) proof fn lemma_head(&self)
        requires
            self.wf(),
        ensures
            self.holds(0),
            self.position(0) == -1,
    {
    }

    /// What stands before a finger at level 0 sorts before the key, and
    /// nothing after it does.
    proof fn lemma_finger_bound(&self, key: Seq<u8>, x: int)
        requires
            self.wf(),
            self.finger_ok(key, 0, x),
        ensures
            lower_bound(self.entries(), self.shape@.pos[x] + 1, key),
    {
        let entries = self.entries();
        let at = self.shape@.pos[x] + 1;
        assert forall|i: int| 0 <= i < at implies lex_lt(#[trigger] entries[i].0, key) by {
            assert(x != 0);
            assert(entries[at - 1].0 == self.key_of(x));
            if i < at - 1 {
                lemma_lex_transitive(entries[i].0, entries[at - 1].0, key);
            }
        }
        assert forall|i: int| at <= i < entries.len() implies !lex_lt(
            #[trigger] entries[i].0,
            key,
        ) by {
            let node = self.shape@.ord[i];
            assert(self.nodes@[node].next@.len() > 0);
        }
    }

    /// Walks down from the top level and records, at every level, the last
    /// node whose key sorts before `key`.
    fn find_fingers(&self, key: &[u8]) -> (fingers: [usize; MAX_HEIGHT])
        requires
            self.wf(),
        ensures
            forall|level: int|
                0 <= level < MAX_HEIGHT ==> self.finger_ok(
                    key@,
                    level,
                    #[trigger] fingers@[level] as int,
                ),
    {
        let mut fingers = [0usize;MAX_HEIGHT];
        let mut x: usize = 0;
        let mut level: usize = MAX_HEIGHT;
        while level > 0
            invariant
                self.wf(),
                level <= MAX_HEIGHT,
                x < self.nodes@.len(),
                self.nodes@[x as int].next@.len() >= level,
                x != 0 ==> lex_lt(self.key_of(x as int), key@),
                forall|l: int|
                    level <= l < MAX_HEIGHT ==> self.finger_ok(key@, l, #[trigger] fingers@[l] as int),
            decreases level,
        {
            level -= 1;
            loop
                invariant_except_break
                    self.wf(),
                    level < MAX_HEIGHT,
                    x < self.nodes@.len(),
                    self.nodes@[x as int].next@.len() > level,
                    x != 0 ==> lex_lt(self.key_of(x as int), key@),
                ensures
                    x < self.nodes@.len(),
                    self.nodes@[x as int].next@.len() > level,
                    x != 0 ==> lex_lt(self.key_of(x as int), key@),
                    self.finger_ok(key@, level as int, x as int),
                decreases self.nodes@.len() - self.shape@.pos[x as int],
            {
                let t = self.nodes[x].next[level];
                proof {
                    assert(towers(self.nodes@)[x as int][level as int] == t);
                    assert(heights(towers(self.nodes@))[x as int] > level);
                    assert(link_ok(
                        towers(self.nodes@),
                        self.shape@,
                        heights(towers(self.nodes@)),
                        x as int,
                        level as int,
                    ));
                }
                if t == 0 {
                    break;
                }
                let order = compare_keys(self.arena.read(self.nodes[t].key), key);
                match order {
                    KeyOrder::Less => {
                        x = t;
                    },
                    _ => {
                        proof {
                            let entries = self.entries();
                            let q = self.shape@.pos[t as int];
                            assert(entries[q].0 == self.key_of(t as int));
                            assert forall|m: int|
                                self.shape@.pos[x as int] < m < self.shape@.ord.len()
                                    && self.nodes@[#[trigger] self.shape@.ord[m]].next@.len()
                                    > level implies !lex_lt(entries[m].0, key@) by {
                                assert(heights(towers(self.nodes@))[self.shape@.ord[m]] > level);
                                assert(m >= q);
                                if m > q && lex_lt(entries[m].0, key@) {
                                    lemma_lex_transitive(entries[q].0, entries[m].0, key@);
                                }
                            }
                        }
                        break;
                    },
                }
            }
            fingers[level] = x;
        }
        fingers
    }

    /// The last node whose key sorts before `key`; the head if there is none.
    pub(crate) fn find_less(&self, key: &[u8]) -> (node: usize)
        requires
            self.wf(),
        ensures
            self.holds(node),
            lower_bound(self.entries(), self.position(node) + 1, key@),
    {
        let fingers = self.find_fingers(key);
        proof {
            self.lemma_finger_bound(key@, fingers@[0] as int);
        }
        fingers[0]
    }

    /// The node that holds the greatest key; the head of an empty list.
    pub(crate) fn find_last(&self) -> (node: usize)
        requires
            self.wf(),
        ensures
            self.holds(node),
            self.position(node) == self.entries().len() - 1,
    {
        let mut x: usize = 0;
        let mut level: usize = MAX_HEIGHT;
        while level > 0
            invariant
                self.wf(),
                level <= MAX_HEIGHT,
                x < self.nodes@.len(),
                self.nodes@[x as int].next@.len() >= level,
                level < MAX_HEIGHT ==> self.nodes@[x as int].next@[level as int] == 0,
            decreases level,
        {
            level -= 1;
            loop
                invariant_except_break
                    self.wf(),
                    level < MAX_HEIGHT,
                    x < self.nodes@.len(),
                    self.nodes@[x as int].next@.len() > level,
                ensures
                    x < self.nodes@.len(),
                    self.nodes@[x as int].next@.len() > level,
                    self.nodes@[x as int].next@[level as int] == 0,
                decreases self.nodes@.len() - self.shape@.pos[x as int],
            {
                let t = self.nodes[x].next[level];
                proof {
                    assert(towers(self.nodes@)[x as int][level as int] == t);
                    assert(heights(towers(self.nodes@))[x as int] > level);
                    assert(link_ok(
                        towers(self.nodes@),
                        self.shape@,
                        heights(towers(self.nodes@)),
                        x as int,
                        level as int,
                    ));
                }
                if t == 0 {
                    break;
                }
                x = t;
            }
        }
        proof {
            assert(towers(self.nodes@)[x as int][0] == 0);
            assert(heights(towers(self.nodes@))[x as int] > 0);
            assert(link_ok(
                towers(self.nodes@),
                self.shape@,
                heights(towers(self.nodes@)),
                x as int,
                0,
            ));
            if self.shape@.pos[x as int] + 1 < self.shape@.ord.len() {
                let m = self.shape@.pos[x as int] + 1;
                assert(heights(towers(self.nodes@))[self.shape@.ord[m]] <= 0);
            }
        }
        x
    }

    /// The node after `node` in key order; the head after the last.
    pub(crate) fn successor(&self, node: usize) -> (after: usize)
        requires
            self.wf(),
            self.holds(node),
        ensures
            self.holds(after),
            self.position(after) == if self.position(node) + 1 < self.entries().len() {
                self.position(node) + 1
            } else {
                -1
            },
    {
        let t = self.nodes[node].next[0];
        proof {
            assert(towers(self.nodes@)[node as int][0] == t);
            assert(heights(towers(self.nodes@))[node as int] > 0);
            assert(link_ok(
                towers(self.nodes@),
                self.shape@,
                heights(towers(self.nodes@)),
                node as int,
                0,
            ));
            let q = if t == 0 {
                self.shape@.ord.len() as int
            } else {
                self.shape@.pos[t as int]
            };
            if self.shape@.pos[node as int] + 1 < q {
                let m = self.shape@.pos[node as int] + 1;
                assert(heights(towers(self.nodes@))[self.shape@.ord[m]] <= 0);
            }
        }
        t
    }

    /// The key that `node` holds.
    pub(crate) fn key_at(&self, node: usize) -> (key: &[u8])
        requires
            self.wf(),
            self.holds(node),
            node != 0,
        ensures
            key@ == self.entries()[self.position(node)].0,
    {
        self.arena.read(self.nodes[node].key)
    }

    /// The value that `node` holds.
    pub(crate) fn value_at(&self, node: usize) -> (value: &[u8])
        requires
            self.wf(),
            self.holds(node),
            node != 0,
        ensures
            value@ == self.entries()[self.position(node)].1,
    {
        self.arena.read(self.nodes[node].value)
    }

    /// The value stored under `key`, if there is one.
    pub fn get(&self, key: &[u8]) -> (value: Option<&[u8]>)
        requires
            self.wf(),
        ensures
            match value {
                Some(bytes) => self@.contains_key(key@) && bytes@ == self@[key@],
                None => !self@.contains_key(key@),
            },
    {
        let before = self.find_less(key);
        let node = self.successor(before);
        proof {
            self.lemma_position(node);
            self.lemma_position(before);
        }
        if node != 0 {
            match compare_keys(self.key_at(node), key) {
                KeyOrder::Equal => {
                    proof {
                        lemma_index_of_entry(self.entries(), self.position(node));
                    }
                    return Some(self.value_at(node));
                },
                _ => {},
            }
        }
        proof {
            self.lemma_absent_after(before, key@);
        }
        None
    }

    /// The arena bytes that a `put` of `key` with `value` takes: the value,
    /// and the key too where it is not stored yet.
    pub open spec fn need(&self, key: Seq<u8>, value: Seq<u8>) -> nat {
        if self@.contains_key(key) {
            value.len()
        } else {
            key.len() + value.len()
        }
    }

    /// Stores `value` under `key`: a key that is present gets the new value,
    /// an absent key a new node. A `put` for which the arena has too little
    /// room is refused and changes nothing.
    pub fn put(&mut self, key: &[u8], value: &[u8]) -> (result: Result<(), Error>)
        requires
            old(self).wf(),
        ensures
            final(self).wf(),
            match result {
                Ok(()) => {
                    &&& old(self).need(key@, value@) <= old(self).free()
                    &&& final(self)@ == old(self)@.insert(key@, value@)
                    &&& final(self)@.len() == old(self)@.len() + if old(self)@.contains_key(key@) {
                        0int
                    } else {
                        1int
                    }
                    &&& final(self).free() == old(self).free() - old(self).need(key@, value@)
                },
                Err(Error::CapacityExceeded) => {
                    &&& old(self).need(key@, value@) > old(self).free()
                    &&& final(self)@ == old(self)@
                    &&& final(self).entries() == old(self).entries()
                    &&& final(self).free() == old(self).free()
                },
            },
    {
        let fingers = self.find_fingers(key);
        let before = fingers[0];
        proof {
            self.lemma_finger_bound(key@, before as int);
            self.lemma_entries();
        }
        let node = self.successor(before);
        proof {
            self.lemma_position(node);
            self.lemma_position(before);
        }
        if node != 0 {
            match compare_keys(self.key_at(node), key) {
                KeyOrder::Equal => {
                    proof {
                        lemma_index_of_entry(self.entries(), self.position(node));
                    }
                    return self.swing_value(node, value);
                },
                _ => {},
            }
        }
        proof {
            self.lemma_absent_after(before, key@);
        }
        let free = self.arena.remaining() as usize;
        if key.len() > free || value.len() > free - key.len() {
            return Err(Error::CapacityExceeded);
        }
        self.insert_after(&fingers, key, value);
        Ok(())
    }

    /// Stores `value` in a fresh cell and makes `node` refer to it.
    fn swing_value(&mut self, node: usize, value: &[u8]) -> (result: Result<(), Error>)
        requires
            old(self).wf(),
            old(self).holds(node),
            node != 0,
        ensures
            final(self).wf(),
            match result {
                Ok(()) => {
                    &&& value@.len() <= old(self).free()
                    &&& final(self).entries() == old(self).entries().update(
                        old(self).position(node),
                        (old(self).entries()[old(self).position(node)].0, value@),
                    )
                    &&& final(self)@ == old(self)@.insert(
                        old(self).entries()[old(self).position(node)].0,
                        value@,
                    )
                    &&& final(self).free() == old(self).free() - value@.len()
                },
                Err(Error::CapacityExceeded) => {
                    &&& value@.len() > old(self).free()
                    &&& final(self)@ == old(self)@
                    &&& final(self).entries() == old(self).entries()
                    &&& final(self).free() == old(self).free()
                },
            },
    {
        match self.arena.store(value) {
            Ok(span) => {
                self.nodes[node].value = span;
                proof {
                    let at = old(self).position(node);
                    let entries = old(self).entries();
                    assert(self.entries() =~= entries.update(at, (entries[at].0, value@))) by {
                        assert forall|p: int| 0 <= p < entries.len() implies self.entries()[p]
                            == entries.update(at, (entries[at].0, value@))[p] by {
                            let i = self.shape@.ord[p];
                            lemma_span_stable(old(self).nodes@[i].key, old(self).arena@, value@);
                            lemma_span_stable(old(self).nodes@[i].value, old(self).arena@, value@);
                            if p == at {
                                assert(span.of(self.arena@) =~= value@);
                            }
                        }
                    }
                    lemma_update_entry(entries, at, value@);
                    assert(towers(self.nodes@) =~= towers(old(self).nodes@));
                }
                Ok(())
            },
            Err(_) => Err(Error::CapacityExceeded),
        }
    }

    /// Adds a node for the absent `key` behind the fingers of its search.
    fn insert_after(&mut self, fingers: &[usize; MAX_HEIGHT], key: &[u8], value: &[u8])
        requires
            old(self).wf(),
            forall|level: int|
                0 <= level < MAX_HEIGHT ==> old(self).finger_ok(
                    key@,
                    level,
                    #[trigger] fingers@[level] as int,
                ),
            !old(self)@.contains_key(key@),
            key@.len() + value@.len() <= old(self).free(),
        ensures
            final(self).wf(),
            final(self)@ == old(self)@.insert(key@, value@),
            final(self).free() == old(self).free() - (key@.len() + value@.len()),
    {
        let ghost at = self.shape@.pos[fingers@[0] as int] + 1;
        let ghost entries = self.entries();
        proof {
            self.lemma_finger_bound(key@, fingers@[0] as int);
            self.lemma_gap(at, key@);
        }
        let height = self.heights.next_height();
        let key_span = match self.arena.store(key) {
            Ok(span) => span,
            Err(_) => Span { offset: 0, len: 0 },
        };
        let value_span = match self.arena.store(value) {
            Ok(span) => span,
            Err(_) => Span { offset: 0, len: 0 },
        };
        let mut tower: Vec<usize> = Vec::new();
        while tower.len() < height
            invariant
                tower@.len() <= height,
            decreases height - tower@.len(),
        {
            tower.push(0);
        }
        let x = self.nodes.len();
        let ghost lens = heights(towers(self.nodes@)).push(height as nat);
        proof {
            lemma_shape_insert(self.shape@, x as int, at);
            lemma_links_insert(
                towers(self.nodes@),
                self.shape@,
                heights(towers(self.nodes@)),
                at,
                tower@,
            );
            assert(towers(self.nodes@).push(tower@) =~= towers(
                self.nodes@.push(SkipNode { key: key_span, value: value_span, next: tower }),
            ));
            self.shape@ = shape_insert(self.shape@, at);
        }
        self.nodes.push(SkipNode { key: key_span, value: value_span, next: tower });
        let ghost mut hts = heights(towers(old(self).nodes@)).push(0);
        proof {
            assert(self.arena@ =~= old(self).arena@ + (key@ + value@));
            assert(key_span.of(self.arena@) =~= key@);
            assert(value_span.of(self.arena@) =~= value@);
            assert(self.entries() =~= entries.insert(at, (key@, value@))) by {
                assert forall|p: int| 0 <= p < self.entries().len() implies self.entries()[p]
                    == entries.insert(at, (key@, value@))[p] by {
                    let i = self.shape@.ord[p];
                    if p != at {
                        lemma_span_stable(
                            old(self).nodes@[i].key,
                            old(self).arena@,
                            key@ + value@,
                        );
                        lemma_span_stable(
                            old(self).nodes@[i].value,
                            old(self).arena@,
                            key@ + value@,
                        );
                    }
                }
            }
            lemma_insert_entry(entries, at, key@, value@);
            assert(heights(towers(self.nodes@)) =~= lens);
            assert forall|l: int| 0 <= l < MAX_HEIGHT implies finger_before(
                lens,
                self.shape@,
                at,
                l,
                #[trigger] fingers@[l] as int,
            ) by {
                old(self).lemma_finger_before(key@, at, l, fingers@[l] as int);
                let f = fingers@[l] as int;
                assert forall|m: int| self.shape@.pos[f] < m < at implies lens[
                #[trigger] self.shape@.ord[m]] <= l by {
                    assert(self.shape@.ord[m] == old(self).shape@.ord[m]);
                }
            }
        }
        let mut level: usize = 0;
        while level < height
            invariant
                level <= height <= MAX_HEIGHT,
                x + 1 == self.nodes@.len(),
                x >= 1,
                self.arena.wf(),
                self.arena.free() == old(self).arena.free() - (key@.len() + value@.len()),
                shape_ok(self.shape@, self.nodes@.len() as int),
                self.shape@.pos[x as int] == at,
                heights(towers(self.nodes@)) == lens,
                lens[x as int] == height,
                hts == lens.update(x as int, level as nat),
                links_ok(towers(self.nodes@), self.shape@, hts),
                0 <= at <= entries.len(),
                self.entries() == entries.insert(at, (key@, value@)),
                forall|i: int|
                    0 <= i < self.nodes@.len() ==> {
                        &&& (#[trigger] self.nodes@[i]).key.within(self.arena@.len())
                        &&& self.nodes@[i].value.within(self.arena@.len())
                    },
                forall|l: int|
                    0 <= l < MAX_HEIGHT ==> finger_before(
                        lens,
                        self.shape@,
                        at,
                        l,
                        #[trigger] fingers@[l] as int,
                    ),
            decreases height - level,
        {
            let f = fingers[level];
            let ghost before_towers = towers(self.nodes@);
            let ghost before_nodes = self.nodes@;
            proof {
                assert(finger_before(lens, self.shape@, at, level as int, fingers@[level as int] as int));
                assert(f != x);
                assert(before_towers[f as int].len() == lens[f as int]);
                assert(before_towers[x as int].len() == lens[x as int]);
            }
            let t = self.nodes[f].next[level];
            self.nodes[x].next[level] = t;
            self.nodes[f].next[level] = x;
            proof {
                let after_towers = towers(self.nodes@);
                assert(heights(after_towers) =~= lens);
                assert forall|m: int| self.shape@.pos[f as int] < m < at implies hts[
                #[trigger] self.shape@.ord[m]] <= level by {
                    assert(self.shape@.pos[self.shape@.ord[m]] == m);
                }
                lemma_link_level(
                    before_towers,
                    after_towers,
                    self.shape@,
                    hts,
                    x as int,
                    f as int,
                    level as int,
                );
                hts = hts.update(x as int, (level + 1) as nat);
                assert(hts =~= lens.update(x as int, (level + 1) as nat));
                assert(self.entries() =~= entries_of(before_nodes, self.arena@, self.shape@));
            }
            level += 1;
        }
        proof {
            assert(hts =~= lens);
            assert(self.nodes@[0].next@.len() == lens[0]);
            assert forall|i: int| 0 <= i < self.nodes@.len() implies 1 <= (
            #[trigger] self.nodes@[i]).next@.len() <= MAX_HEIGHT by {
                assert(self.nodes@[i].next@.len() == lens[i]);
                if i < x {
                    assert(lens[i] == old(self).nodes@[i].next@.len());
                }
            }
        }
    }

    /// The lower bound of an absent key is a gap: what stands from it on sorts after the key.
    proof fn lemma_gap(&self, at: int, key: Seq<u8>)
        requires
            self.wf(),
            lower_bound(self.entries(), at, key),
            !self@.contains_key(key),
        ensures
            forall|i: int| at <= i < self.entries().len() ==> lex_lt(key, #[trigger] self.entries()[i].0),
    {
        let entries = self.entries();
        assert forall|i: int| at <= i < entries.len() implies lex_lt(
            key,
            #[trigger] entries[i].0,
        ) by {
            lemma_lex_total(entries[i].0, key);
            if entries[i].0 == key {
                lemma_index_of_entry(entries, i);
            }
        }
    }

    /// A finger of the search for `key` stands before the lower bound of the
    /// key, and nothing between the two reaches above the finger's level.
    proof fn lemma_finger_before(&self, key: Seq<u8>, at: int, level: int, f: int)
        requires
            self.wf(),
            0 <= level,
            self.finger_ok(key, level, f),
            lower_bound(self.entries(), at, key),
        ensures
            finger_before(heights(towers(self.nodes@)), self.shape@, at, level, f),
    {
        let entries = self.entries();
        if f != 0 {
            let p = self.shape@.pos[f];
            assert(entries[p].0 == self.key_of(f));
        }
        assert forall|m: int| self.shape@.pos[f] < m < at implies heights(towers(self.nodes@))[
        #[trigger] self.shape@.ord[m]] <= level by {
            assert(lex_lt(entries[m].0, key));
        }
    }

    /// A key that the entry after its lower bound does not equal is absent.
    proof fn lemma_absent_after(&self, before: usize, key: Seq<u8>)
        requires
            self.wf(),
            self.holds(before),
            lower_bound(self.entries(), self.position(before) + 1, key),
            self.position(before) + 1 < self.entries().len() ==> self.entries()[self.position(
                before,
            ) + 1].0 != key,
        ensures
            !self@.contains_key(key),
    {
        let entries = self.entries();
        let at = self.position(before) + 1;
        assert forall|i: int| at <= i < entries.len() implies lex_lt(
            key,
            #[trigger] entries[i].0,
        ) by {
            lemma_lex_total(entries[at].0, key);
            if i > at {
                lemma_lex_transitive(key, entries[at].0, entries[i].0);
            }
        }
        lemma_absent_at_gap(entries, at, key);
    }

    /// An empty list whose arena holds `capacity` bytes.
    pub fn with_capacity(capacity: u32) -> (list: Skiplist)
        ensures
            list.wf(),
            list@ == Map::<Seq<u8>, Seq<u8>>::empty(),
            list.entries().len() == 0,
            list.free() == capacity,
    {
        let mut tower: Vec<usize> = Vec::new();
        while tower.len() < MAX_HEIGHT
            invariant
                tower@.len() <= MAX_HEIGHT,
                forall|level: int| 0 <= level < tower@.len() ==> tower@[level] == 0,
            decreases MAX_HEIGHT - tower@.len(),
        {
            tower.push(0);
        }
        let head = SkipNode {
            key: Span { offset: 0, len: 0 },
            value: Span { offset: 0, len: 0 },
            next: tower,
        };
        let mut nodes: Vec<SkipNode> = Vec::new();
        nodes.push(head);
        let list = Skiplist {
            arena: Arena::with_capacity(capacity),
            nodes,
            heights: HeightGenerator::new(DEFAULT_SEED),
            shape: Ghost(Shape { ord: Seq::empty(), pos: seq![-1int] }),
        };
        proof {
            assert(list.entries() =~= Seq::<Entry>::empty());
            assert(list@ =~= Map::<Seq<u8>, Seq<u8>>::empty());
            assert forall|i: int, level: int|
                0 <= i < towers(list.nodes@).len() && 0 <= level < heights(
                    towers(list.nodes@),
                )[i] implies #[trigger] link_ok(
                towers(list.nodes@),
                list.shape@,
                heights(towers(list.nodes@)),
                i,
                level,
            ) by {}
        }
        list
    }

    /// The number of keys stored.
    pub fn len(&self) -> (len: usize)
        requires
            self.wf(),
        ensures
            len == self@.len(),
            len == self.entries().len(),
    {
        proof {
            self.lemma_entries();
        }
        self.nodes.len() - 1
    }

    /// Whether no key is stored.
    pub fn is_empty(&self) -> (empty: bool)
        requires
            self.wf(),
        ensures
            empty == (self@.len() == 0),
            empty == (self@ == Map::<Seq<u8>, Seq<u8>>::empty()),
    {
        proof {
            self.lemma_entries();
            if self@.len() == 0 {
                assert(self@ =~= Map::<Seq<u8>, Seq<u8>>::empty()) by {
                    assert(self.entries().len() == 0);
                }
            }
        }
        self.nodes.len() == 1
    }
}

} // verus!
