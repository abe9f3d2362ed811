use vstd::prelude::*;
use vstd::relations::injective_on;
use vstd::set_lib::{lemma_int_range, lemma_len_subset, lemma_map_size, set_int_range};
use vstd::slice::slice_index_get;
use crate::arena::{lemma_span_stable, Arena, Span};
use crate::error::Error;
use crate::radix::node::{full_at, lookup, AnyNode, ChildRef, Node};
use crate::radix::node_4::Node4;

verus! {

/// One node of the trie: the radix node that holds its children, and beside
/// it the value of the key that ends at this node, if that key is stored.
/// The value slot is what tells a stored key from a mere prefix of one.
pub struct TrieNode {
    pub node: AnyNode,
    pub value: Option<Span>,
}

/// The node reached from `root` by following `key` byte by byte, if every
/// byte has a child.
pub open spec fn walk(nodes: Seq<TrieNode>, root: int, key: Seq<u8>) -> Option<int>
    decreases key.len(),
{
    if key.len() == 0 {
        Some(root)
    } else {
        match walk(nodes, root, key.drop_last()) {
            Some(at) => match lookup(nodes[at].node@, key.last()) {
                Some(child) => Some(child as int),
                None => None,
            },
            None => None,
        }
    }
}

/// Where the value stored under `key` lies, if the key is stored.
pub open spec fn value_at(nodes: Seq<TrieNode>, root: int, key: Seq<u8>) -> Option<Span> {
    match walk(nodes, root, key) {
        Some(at) => nodes[at].value,
        None => None,
    }
}

/// The map that the trie below `root` stands for, its values read from `bytes`.
pub open spec fn tree_map(nodes: Seq<TrieNode>, root: int, bytes: Seq<u8>) -> Map<
    Seq<u8>,
    Seq<u8>,
> {
    Map::new(
        |key: Seq<u8>| value_at(nodes, root, key) is Some,
        |key: Seq<u8>| value_at(nodes, root, key).unwrap().of(bytes),
    )
}

/// Every node is well formed, and every child link leads to a node whose
/// path is the path of its parent extended by the byte of the link.
pub open spec fn consistent(nodes: Seq<TrieNode>, paths: Seq<Seq<u8>>) -> bool {
    &&& paths.len() == nodes.len()
    &&& forall|i: int| 0 <= i < nodes.len() ==> (#[trigger] nodes[i]).node.inv()
    &&& forall|i: int, b: u8|
        0 <= i < nodes.len() && #[trigger] nodes[i].node@.contains_key(b) ==> {
            &&& nodes[i].node@[b] < nodes.len()
            &&& paths[nodes[i].node@[b] as int] == paths[i].push(b)
        }
}

/// A walk ends at a node whose path is the key walked.
pub proof fn lemma_walk_path(nodes: Seq<TrieNode>, paths: Seq<Seq<u8>>, root: int, key: Seq<u8>)
    requires
        consistent(nodes, paths),
        0 <= root < nodes.len(),
        paths[root] == Seq::<u8>::empty(),
    ensures
        walk(nodes, root, key) matches Some(at) ==> 0 <= at < nodes.len() && paths[at] == key,
    decreases key.len(),
{
    if key.len() == 0 {
        assert(key =~= Seq::<u8>::empty());
    } else {
        lemma_walk_path(nodes, paths, root, key.drop_last());
        if let Some(at) = walk(nodes, root, key.drop_last()) {
            if nodes[at].node@.contains_key(key.last()) {
                assert(key.drop_last().push(key.last()) =~= key);
            }
        }
    }
}

/// A walk reads nothing but the children of the nodes it passes.
pub proof fn lemma_walk_same_children(
    nodes: Seq<TrieNode>,
    nodes2: Seq<TrieNode>,
    paths: Seq<Seq<u8>>,
    root: int,
    key: Seq<u8>,
)
    requires
        consistent(nodes, paths),
        0 <= root < nodes.len(),
        paths[root] == Seq::<u8>::empty(),
        nodes.len() <= nodes2.len(),
        forall|i: int| 0 <= i < nodes.len() ==> (#[trigger] nodes2[i]).node@ == nodes[i].node@,
    ensures
        walk(nodes2, root, key) == walk(nodes, root, key),
    decreases key.len(),
{
    if key.len() > 0 {
        lemma_walk_same_children(nodes, nodes2, paths, root, key.drop_last());
        lemma_walk_path(nodes, paths, root, key.drop_last());
    }
}

/// What a trie looks like after node `cur`, reached by `prefix`, got the
/// fresh, empty node `fresh` as its child under the byte `b`.
pub open spec fn child_added(
    nodes: Seq<TrieNode>,
    nodes2: Seq<TrieNode>,
    cur: int,
    b: u8,
) -> bool {
    let fresh = nodes.len() as int;
    &&& nodes.len() <= usize::MAX
    &&& nodes2.len() == nodes.len() + 1
    &&& nodes2[fresh].node@ == Map::<u8, ChildRef>::empty()
    &&& nodes2[fresh].value is None
    &&& nodes2[cur].node@ == nodes[cur].node@.insert(b, fresh as usize)
    &&& nodes2[cur].value == nodes[cur].value
    &&& forall|i: int| 0 <= i < nodes.len() && i != cur ==> #[trigger] nodes2[i] == nodes[i]
}

/// A fresh child changes only the walks that pass through it, and those end
/// at the child itself or nowhere; before, they ended nowhere.
pub proof fn lemma_walk_child_added(
    nodes: Seq<TrieNode>,
    nodes2: Seq<TrieNode>,
    paths: Seq<Seq<u8>>,
    root: int,
    prefix: Seq<u8>,
    cur: int,
    b: u8,
    key: Seq<u8>,
)
    requires
        consistent(nodes, paths),
        0 <= root < nodes.len(),
        paths[root] == Seq::<u8>::empty(),
        0 <= cur < nodes.len(),
        walk(nodes, root, prefix) == Some(cur),
        !nodes[cur].node@.contains_key(b),
        child_added(nodes, nodes2, cur, b),
    ensures
        prefix.push(b).is_prefix_of(key) ==> walk(nodes, root, key) is None && walk(
            nodes2,
            root,
            key,
        ) == (if key == prefix.push(b) {
            Some(nodes.len() as int)
        } else {
            None
        }),
        !prefix.push(b).is_prefix_of(key) ==> walk(nodes2, root, key) == walk(nodes, root, key),
    decreases key.len(),
{
    let longer = prefix.push(b);
    let fresh = nodes.len() as int;
    lemma_walk_path(nodes, paths, root, prefix);
    if key.len() == 0 {
        assert(!longer.is_prefix_of(key));
    } else {
        let front = key.drop_last();
        let x = key.last();
        lemma_walk_child_added(nodes, nodes2, paths, root, prefix, cur, b, front);
        lemma_walk_path(nodes, paths, root, front);
        if longer.is_prefix_of(front) {
            assert(longer.is_prefix_of(key)) by {
                assert(key.subrange(0, longer.len() as int) =~= front.subrange(
                    0,
                    longer.len() as int,
                ));
            }
            assert(key != longer);
            assert(walk(nodes, root, key) is None);
            if walk(nodes2, root, front) is Some {
                assert(walk(nodes2, root, front) == Some(fresh));
                assert(lookup(nodes2[fresh].node@, x) is None);
            }
            assert(walk(nodes2, root, key) is None);
        } else if key =~= longer {
            assert(front =~= prefix);
            assert(x == b);
            assert(longer.is_prefix_of(key)) by {
                assert(key.subrange(0, longer.len() as int) =~= longer);
            }
            assert(walk(nodes2, root, front) == Some(cur));
            assert(nodes2[cur].node@.contains_key(b));
            assert(walk(nodes2, root, key) == Some(fresh));
            assert(walk(nodes, root, key) is None);
        } else {
            assert(!longer.is_prefix_of(key)) by {
                if longer.is_prefix_of(key) {
                    if key.len() == longer.len() {
                        assert(key.subrange(0, longer.len() as int) =~= key);
                    } else {
                        assert(front.subrange(0, longer.len() as int) =~= key.subrange(
                            0,
                            longer.len() as int,
                        ));
                    }
                }
            }
            assert(walk(nodes2, root, front) == walk(nodes, root, front));
            if let Some(at) = walk(nodes, root, front) {
                if at == cur {
                    assert(front == prefix);
                    if x == b {
                        assert(key =~= longer);
                    }
                    assert(lookup(nodes2[cur].node@, x) == lookup(nodes[cur].node@, x));
                } else {
                    assert(nodes2[at] == nodes[at]);
                }
            }
        }
    }
}

/// What a trie looks like after node `cur`, reached by `prefix`, was
/// replaced by the copy `grown` at the end of the store: the copy holds the
/// children and the value of `cur`, and the slot that led to `cur` — the
/// root, or the child slot of `parent` — leads to the copy.
pub open spec fn node_replaced(
    nodes: Seq<TrieNode>,
    nodes2: Seq<TrieNode>,
    root: int,
    root2: int,
    prefix: Seq<u8>,
    cur: int,
    parent: int,
) -> bool {
    let grown = nodes.len() as int;
    &&& nodes.len() <= usize::MAX
    &&& nodes2.len() == nodes.len() + 1
    &&& nodes2[grown].node@ == nodes[cur].node@
    &&& nodes2[grown].value == nodes[cur].value
    &&& if prefix.len() == 0 {
        &&& root2 == grown
        &&& forall|i: int| 0 <= i < nodes.len() ==> #[trigger] nodes2[i] == nodes[i]
    } else {
        &&& root2 == root
        &&& 0 <= parent < nodes.len()
        &&& walk(nodes, root, prefix.drop_last()) == Some(parent)
        &&& nodes2[parent].node@ == nodes[parent].node@.insert(prefix.last(), grown as usize)
        &&& nodes2[parent].value == nodes[parent].value
        &&& forall|i: int| 0 <= i < nodes.len() && i != parent ==> #[trigger] nodes2[i] == nodes[i]
    }
}

/// The node a walk ends at once `cur` has been replaced by `grown`.
pub open spec fn renamed(at: Option<int>, cur: int, grown: int) -> Option<int> {
    match at {
        Some(i) => if i == cur {
            Some(grown)
        } else {
            Some(i)
        },
        None => None,
    }
}

/// Replacing a node by a copy sends every walk where it went before, but
/// for the walk that ended at the node: it ends at the copy.
pub proof fn lemma_walk_node_replaced(
    nodes: Seq<TrieNode>,
    nodes2: Seq<TrieNode>,
    paths: Seq<Seq<u8>>,
    root: int,
    root2: int,
    prefix: Seq<u8>,
    cur: int,
    parent: int,
    key: Seq<u8>,
)
    requires
        consistent(nodes, paths),
        0 <= root < nodes.len(),
        paths[root] == Seq::<u8>::empty(),
        walk(nodes, root, prefix) == Some(cur),
        node_replaced(nodes, nodes2, root, root2, prefix, cur, parent),
    ensures
        walk(nodes2, root2, key) == renamed(walk(nodes, root, key), cur, nodes.len() as int),
    decreases key.len(),
{
    let grown = nodes.len() as int;
    lemma_walk_path(nodes, paths, root, prefix);
    if prefix.len() > 0 {
        lemma_walk_path(nodes, paths, root, prefix.drop_last());
        assert(prefix.drop_last().push(prefix.last()) =~= prefix);
        assert(nodes[parent].node@.contains_key(prefix.last()));
        assert(nodes[parent].node@[prefix.last()] == cur);
    }
    if key.len() == 0 {
        if prefix.len() == 0 {
            assert(cur == root);
        } else {
            assert(paths[cur] == prefix);
            assert(cur != root);
        }
    } else {
        let front = key.drop_last();
        let x = key.last();
        lemma_walk_node_replaced(nodes, nodes2, paths, root, root2, prefix, cur, parent, front);
        lemma_walk_path(nodes, paths, root, front);
        lemma_walk_path(nodes, paths, root, key);
        assert(front.push(x) =~= key);
        if let Some(at) = walk(nodes, root, front) {
            if at == cur {
                assert(walk(nodes2, root2, front) == Some(grown));
                assert(lookup(nodes2[grown].node@, x) == lookup(nodes[cur].node@, x));
                if nodes[cur].node@.contains_key(x) {
                    let child = nodes[cur].node@[x] as int;
                    assert(paths[child] == paths[cur].push(x));
                    assert(child != cur);
                }
            } else if prefix.len() > 0 && at == parent {
                assert(walk(nodes2, root2, front) == Some(parent));
                if x == prefix.last() {
                    assert(key =~= prefix);
                    assert(walk(nodes, root, key) == Some(cur));
                    assert(walk(nodes2, root2, key) == Some(grown));
                } else {
                    assert(lookup(nodes2[parent].node@, x) == lookup(nodes[parent].node@, x));
                    if nodes[parent].node@.contains_key(x) {
                        let child = nodes[parent].node@[x] as int;
                        assert(paths[child] == paths[parent].push(x));
                        assert(paths[cur] == paths[parent].push(prefix.last()));
                        if child == cur {
                            assert(paths[parent].push(x).last() == x);
                            assert(paths[parent].push(prefix.last()).last() == prefix.last());
                        }
                        assert(child != cur);
                    }
                }
            } else {
                assert(walk(nodes2, root2, front) == Some(at));
                assert(nodes2[at] == nodes[at]);
                if nodes[at].node@.contains_key(x) {
                    let child = nodes[at].node@[x] as int;
                    if child == cur {
                        assert(walk(nodes, root, key) == Some(cur));
                        assert(key == prefix);
                        assert(prefix.len() > 0);
                        assert(front =~= prefix.drop_last());
                        assert(at == parent);
                    }
                    assert(child != cur);
                }
            }
        }
    }
}

/// An ordered map from byte-string keys to byte-string values, kept as a
/// trie: level `d` of the trie branches on byte `d` of the key. Values live
/// in an arena of fixed capacity. A full node is replaced by a wider copy;
/// the node it replaces stays in the store, out of reach of every walk.
pub struct Art {
    pub(crate) arena: Arena,
    pub(crate) nodes: Vec<TrieNode>,
    pub(crate) root: usize,
    pub(crate) count: usize,
    pub(crate) paths: Ghost<Seq<Seq<u8>>>,
    pub(crate) depth: Ghost<nat>,
}

impl View for Art {
    type V = Map<Seq<u8>, Seq<u8>>;

    /// The map from each stored key to its value.
    closed spec fn view(&self) -> Map<Seq<u8>, Seq<u8>> {
        tree_map(self.nodes@, self.root as int, self.arena@)
    }
}

impl Art {
    /// The arena bytes that are still free.
    pub closed spec fn free(&self) -> nat {
        self.arena.free()
    }

    /// The representation invariant.
    pub closed spec fn wf(&self) -> bool {
        &&& self.arena.wf()
        &&& self.root < self.nodes@.len()
        &&& consistent(self.nodes@, self.paths@)
        &&& self.paths@[self.root as int] == Seq::<u8>::empty()
        &&& forall|i: int|
            0 <= i < self.nodes@.len() ==> ((#[trigger] self.nodes@[i]).value matches Some(span)
                ==> span.within(self.arena@.len()))
        &&& forall|i: int| 0 <= i < self.nodes@.len() ==> (#[trigger] self.paths@[i]).len() <= self.depth@
        &&& self@.dom().finite()
        &&& self@.len() == self.count
    }

    /// What the invariant and the view say of the fields.
    pub(crate) proof fn lemma_open(&self)
        ensures
            self@ == tree_map(self.nodes@, self.root as int, self.arena@),
            self.wf() ==> {
                &&& self.root < self.nodes@.len()
                &&& consistent(self.nodes@, self.paths@)
                &&& self.paths@[self.root as int] == Seq::<u8>::empty()
                &&& forall|i: int|
                    0 <= i < self.nodes@.len() ==> (#[trigger] self.paths@[i]).len() <= self.depth@
            },
    {
    }

    /// An empty trie whose arena holds `capacity` bytes.
    pub fn with_capacity(capacity: u32) -> (art: Art)
        ensures
            art.wf(),
            art@ == Map::<Seq<u8>, Seq<u8>>::empty(),
            art.free() == capacity,
    {
        let mut nodes: Vec<TrieNode> = Vec::new();
        nodes.push(TrieNode { node: AnyNode::Node4(Node4::new()), value: None });
        let art = Art {
            arena: Arena::with_capacity(capacity),
            nodes,
            root: 0,
            count: 0,
            paths: Ghost(Seq::<Seq<u8>>::empty().push(Seq::<u8>::empty())),
            depth: Ghost(0),
        };
        proof {
            assert forall|key: Seq<u8>| value_at(art.nodes@, 0, key) is None by {
                art.lemma_empty(key);
            }
            assert(art@ =~= Map::<Seq<u8>, Seq<u8>>::empty());
        }
        art
    }

    /// In a trie of one node without children or value no key is stored.
    proof fn lemma_empty(&self, key: Seq<u8>)
        requires
            self.nodes@.len() == 1,
            self.nodes@[0].node@ == Map::<u8, ChildRef>::empty(),
            self.nodes@[0].value is None,
        ensures
            value_at(self.nodes@, 0, key) is None,
            walk(self.nodes@, 0, key) == if key.len() == 0 {
                Some(0int)
            } else {
                None
            },
        decreases key.len(),
    {
        if key.len() > 0 {
            self.lemma_empty(key.drop_last());
        }
    }

    /// A trie in which some node holds no value has fewer keys than nodes:
    /// every stored key ends at a node of its own.
    proof fn lemma_room(&self, free: int)
        requires
            self.wf(),
            0 <= free < self.nodes@.len(),
            self.nodes@[free].value is None,
        ensures
            self@.len() < self.nodes@.len(),
    {
        let nodes = self.nodes@;
        let root = self.root as int;
        let n = nodes.len() as int;
        let end = |key: Seq<u8>| walk(nodes, root, key).unwrap();
        let keys = self@.dom();
        assert(injective_on(end, keys)) by {
            assert forall|k1: Seq<u8>, k2: Seq<u8>|
                keys.contains(k1) && keys.contains(k2) && #[trigger] end(k1) == #[trigger] end(
                    k2,
                ) implies k1 == k2 by {
                lemma_walk_path(nodes, self.paths@, root, k1);
                lemma_walk_path(nodes, self.paths@, root, k2);
            }
        }
        let ends = keys.map(end);
        lemma_map_size(keys, ends, end);
        lemma_int_range(0, n);
        assert(ends.subset_of(set_int_range(0, n).remove(free))) by {
            assert forall|at: int| ends.contains(at) implies set_int_range(0, n).remove(
                free,
            ).contains(at) by {
                let key = choose|key: Seq<u8>| keys.contains(key) && end(key) == at;
                lemma_walk_path(nodes, self.paths@, root, key);
            }
        }
        lemma_len_subset(ends, set_int_range(0, n).remove(free));
    }

    /// The number of keys stored.
    pub fn len(&self) -> (len: usize)
        requires
            self.wf(),
        ensures
            len == self@.len(),
    {
        self.count
    }

    /// Whether no key is stored.
    pub fn is_empty(&self) -> (empty: bool)
        requires
            self.wf(),
        ensures
            empty == (self@.len() == 0),
            empty == (self@ == Map::<Seq<u8>, Seq<u8>>::empty()),
    {
        proof {
            if self@.len() == 0 {
                assert(self@.dom() =~= Set::<Seq<u8>>::empty());
                assert(self@ =~= Map::<Seq<u8>, Seq<u8>>::empty());
            }
        }
        self.count == 0
    }

    /// The value stored under `key`, if there is one.
    pub fn get(&self, key: &[u8]) -> (value: Option<&[u8]>)
        requires
            self.wf(),
        ensures
            match value {
                Some(bytes) => self@.contains_key(key@) && bytes@ == self@[key@],
                None => !self@.contains_key(key@),
            },
    {
        let mut cur = self.root;
        let mut depth: usize = 0;
        while depth < key.len()
            invariant
                self.wf(),
                depth <= key@.len(),
                cur < self.nodes@.len(),
                walk(self.nodes@, self.root as int, key@.take(depth as int)) == Some(cur as int),
            decreases key@.len() - depth,
        {
            let b = *slice_index_get(key, depth);
            proof {
                assert(key@.take(depth + 1).drop_last() =~= key@.take(depth as int));
            }
            match self.nodes[cur].node.find_child(b) {
                Some(child) => {
                    cur = child;
                },
                None => {
                    proof {
                        lemma_walk_cut(
                            self.nodes@,
                            self.root as int,
                            key@,
                            depth + 1,
                        );
                    }
                    return None;
                },
            }
            depth += 1;
        }
        proof {
            assert(key@.take(depth as int) =~= key@);
        }
        match self.nodes[cur].value {
            Some(span) => Some(self.arena.read(span)),
            None => None,
        }
    }

    /// Stores `value` under `key`, in place of the value the key had, if it
    /// had one. A `put` whose value the arena has no room for is refused and
    /// changes nothing.
    pub fn put(&mut self, key: &[u8], value: &[u8]) -> (result: Result<(), Error>)
        requires
            old(self).wf(),
        ensures
            final(self).wf(),
            match result {
                Ok(()) => {
                    &&& value@.len() <= old(self).free()
                    &&& final(self)@ == old(self)@.insert(key@, value@)
                    &&& final(self)@.len() == old(self)@.len() + if old(self)@.contains_key(key@) {
                        0int
                    } else {
                        1int
                    }
                    &&& final(self).free() == old(self).free() - value@.len()
                },
                Err(Error::CapacityExceeded) => {
                    &&& value@.len() > old(self).free()
                    &&& final(self)@ == old(self)@
                    &&& final(self).free() == old(self).free()
                },
            },
    {
        let span = match self.arena.store(value) {
            Ok(span) => span,
            Err(_) => {
                return Err(Error::CapacityExceeded);
            },
        };
        proof {
            assert(span.of(self.arena@) =~= value@);
            assert(self@ =~= old(self)@) by {
                assert forall|k: Seq<u8>|
                    value_at(self.nodes@, self.root as int, k) is Some implies value_at(
                    self.nodes@,
                    self.root as int,
                    k,
                ).unwrap().of(self.arena@) == value_at(
                    self.nodes@,
                    self.root as int,
                    k,
                ).unwrap().of(old(self).arena@) by {
                    lemma_walk_path(self.nodes@, self.paths@, self.root as int, k);
                    let s = value_at(self.nodes@, self.root as int, k).unwrap();
                    lemma_span_stable(s, old(self).arena@, value@);
                }
            }
        }
        let mut cur = self.root;
        let mut parent = self.root;
        let mut depth: usize = 0;
        while depth < key.len()
            invariant
                self.wf(),
                self@ == old(self)@,
                self.arena@ == old(self).arena@ + value@,
                self.free() == old(self).free() - value@.len(),
                span.within(self.arena@.len()),
                span.of(self.arena@) == value@,
                depth <= key@.len(),
                cur < self.nodes@.len(),
                walk(self.nodes@, self.root as int, key@.take(depth as int)) == Some(cur as int),
                depth > 0 ==> walk(self.nodes@, self.root as int, key@.take(depth - 1)) == Some(
                    parent as int,
                ),
            decreases key@.len() - depth,
        {
            let b = *slice_index_get(key, depth);
            let ghost prefix = key@.take(depth as int);
            proof {
                assert(key@.take(depth + 1).drop_last() =~= prefix);
                assert(key@.take(depth + 1) =~= prefix.push(b));
                if depth > 0 {
                    assert(prefix.drop_last() =~= key@.take(depth - 1));
                }
            }
            match self.nodes[cur].node.find_child(b) {
                Some(child) => {
                    parent = cur;
                    cur = child;
                },
                None => {
                    if self.nodes[cur].node.is_full() {
                        cur = self.replace_grown(cur, parent, Ghost(prefix), key, depth);
                    }
                    let child = self.push_child(cur, b, Ghost(prefix));
                    parent = cur;
                    cur = child;
                },
            }
            depth += 1;
        }
        let ghost before = *self;
        if self.nodes[cur].value.is_none() {
            let stored = self.nodes.len();
            proof {
                self.lemma_room(cur as int);
                assert(self.count < stored);
            }
            self.count = self.count + 1;
        }
        self.nodes[cur].value = Some(span);
        proof {
            assert(before@.contains_key(key@) == (before.nodes@[cur as int].value is Some)) by {
                assert(key@.take(depth as int) =~= key@);
            }
            assert(key@.take(depth as int) =~= key@);
            assert forall|k: Seq<u8>|
                walk(self.nodes@, self.root as int, k) == walk(
                    before.nodes@,
                    before.root as int,
                    k,
                ) by {
                lemma_walk_same_children(
                    before.nodes@,
                    self.nodes@,
                    before.paths@,
                    before.root as int,
                    k,
                );
            }
            assert forall|k: Seq<u8>| k != key@ implies value_at(
                self.nodes@,
                self.root as int,
                k,
            ) == value_at(before.nodes@, before.root as int, k) by {
                lemma_walk_path(before.nodes@, before.paths@, before.root as int, k);
                lemma_walk_path(before.nodes@, before.paths@, before.root as int, key@);
            }
            assert(self@ =~= before@.insert(key@, value@));
        }
        Ok(())
    }

    /// Gives node `cur`, which has room and no child under `b`, a fresh
    /// empty node as that child.
    fn push_child(&mut self, cur: usize, b: u8, Ghost(prefix): Ghost<Seq<u8>>) -> (child: usize)
        requires
            old(self).wf(),
            cur < old(self).nodes@.len(),
            walk(old(self).nodes@, old(self).root as int, prefix) == Some(cur as int),
            !old(self).nodes@[cur as int].node@.contains_key(b),
            !full_at(
                old(self).nodes@[cur as int].node.kind(),
                old(self).nodes@[cur as int].node@.len(),
            ),
        ensures
            final(self).wf(),
            final(self)@ == old(self)@,
            final(self).arena == old(self).arena,
            child < final(self).nodes@.len(),
            walk(final(self).nodes@, final(self).root as int, prefix.push(b)) == Some(
                child as int,
            ),
            walk(final(self).nodes@, final(self).root as int, prefix) == Some(cur as int),
    {
        let child = self.nodes.len();
        self.nodes.push(TrieNode { node: AnyNode::Node4(Node4::new()), value: None });
        self.nodes[cur].node.set_child(b, child);
        proof {
            let nodes = old(self).nodes@;
            let nodes2 = self.nodes@;
            let root = self.root as int;
            lemma_walk_path(nodes, old(self).paths@, root, prefix);
            self.paths@ = old(self).paths@.push(prefix.push(b));
            if self.depth@ < prefix.len() + 1 {
                self.depth@ = prefix.len() + 1;
            }
            assert(child_added(nodes, nodes2, cur as int, b));
            assert forall|k: Seq<u8>| value_at(nodes2, root, k) == value_at(nodes, root, k) by {
                lemma_walk_child_added(nodes, nodes2, old(self).paths@, root, prefix, cur as int, b, k);
                lemma_walk_path(nodes, old(self).paths@, root, k);
            }
            assert(self@ =~= old(self)@);
            lemma_walk_child_added(
                nodes,
                nodes2,
                old(self).paths@,
                root,
                prefix,
                cur as int,
                b,
                prefix.push(b),
            );
            lemma_walk_child_added(nodes, nodes2, old(self).paths@, root, prefix, cur as int, b, prefix);
            assert forall|i: int, x: u8|
                0 <= i < nodes2.len() && #[trigger] nodes2[i].node@.contains_key(x) implies {
                &&& nodes2[i].node@[x] < nodes2.len()
                &&& self.paths@[nodes2[i].node@[x] as int] == self.paths@[i].push(x)
            } by {
                if i == cur && x == b {
                } else {
                    assert(nodes[i].node@.contains_key(x));
                }
            }
        }
        child
    }

    /// Replaces the full node `cur` by a copy of the next capacity class and
    /// makes the slot that led to `cur` lead to the copy.
    fn replace_grown(
        &mut self,
        cur: usize,
        parent: usize,
        Ghost(prefix): Ghost<Seq<u8>>,
        key: &[u8],
        depth: usize,
    ) -> (grown: usize)
        requires
            old(self).wf(),
            cur < old(self).nodes@.len(),
            depth <= key@.len(),
            prefix == key@.take(depth as int),
            walk(old(self).nodes@, old(self).root as int, prefix) == Some(cur as int),
            depth > 0 ==> walk(old(self).nodes@, old(self).root as int, prefix.drop_last())
                == Some(parent as int),
            full_at(
                old(self).nodes@[cur as int].node.kind(),
                old(self).nodes@[cur as int].node@.len(),
            ),
        ensures
            final(self).wf(),
            final(self)@ == old(self)@,
            final(self).arena == old(self).arena,
            grown < final(self).nodes@.len(),
            walk(final(self).nodes@, final(self).root as int, prefix) == Some(grown as int),
            depth > 0 ==> walk(final(self).nodes@, final(self).root as int, prefix.drop_last())
                == Some(parent as int),
            final(self).nodes@[grown as int].node@ == old(self).nodes@[cur as int].node@,
            !full_at(
                final(self).nodes@[grown as int].node.kind(),
                final(self).nodes@[grown as int].node@.len(),
            ),
    {
        proof {
            lemma_walk_path(old(self).nodes@, old(self).paths@, self.root as int, prefix);
            if depth > 0 {
                lemma_walk_path(
                    old(self).nodes@,
                    old(self).paths@,
                    self.root as int,
                    prefix.drop_last(),
                );
            }
        }
        proof {
            self.nodes@[cur as int].node.lemma_bounded();
        }
        let wider = self.nodes[cur].node.grow();
        let value = self.nodes[cur].value;
        let grown = self.nodes.len();
        self.nodes.push(TrieNode { node: wider, value });
        if depth == 0 {
            self.root = grown;
        } else {
            let byte = *slice_index_get(key, depth - 1);
            assert(byte == prefix.last());
            self.nodes[parent].node.set_child(byte, grown);
        }
        proof {
            let nodes = old(self).nodes@;
            let nodes2 = self.nodes@;
            let root = old(self).root as int;
            let root2 = self.root as int;
            self.paths@ = old(self).paths@.push(prefix);
            assert(node_replaced(nodes, nodes2, root, root2, prefix, cur as int, parent as int));
            assert forall|k: Seq<u8>| value_at(nodes2, root2, k) == value_at(nodes, root, k) by {
                lemma_walk_node_replaced(
                    nodes,
                    nodes2,
                    old(self).paths@,
                    root,
                    root2,
                    prefix,
                    cur as int,
                    parent as int,
                    k,
                );
                lemma_walk_path(nodes, old(self).paths@, root, k);
            }
            assert(self@ =~= old(self)@);
            lemma_walk_node_replaced(
                nodes,
                nodes2,
                old(self).paths@,
                root,
                root2,
                prefix,
                cur as int,
                parent as int,
                prefix,
            );
            if depth > 0 {
                lemma_walk_node_replaced(
                    nodes,
                    nodes2,
                    old(self).paths@,
                    root,
                    root2,
                    prefix,
                    cur as int,
                    parent as int,
                    prefix.drop_last(),
                );
            }
            assert forall|i: int, x: u8|
                0 <= i < nodes2.len() && #[trigger] nodes2[i].node@.contains_key(x) implies {
                &&& nodes2[i].node@[x] < nodes2.len()
                &&& self.paths@[nodes2[i].node@[x] as int] == self.paths@[i].push(x)
            } by {
                if i == grown {
                    assert(nodes[cur as int].node@.contains_key(x));
                } else if depth > 0 && i == parent && x == prefix.last() {
                    assert(prefix.drop_last().push(prefix.last()) =~= prefix);
                } else {
                    assert(nodes[i].node@.contains_key(x));
                }
            }
        }
        grown
    }
}

/// A walk that fails on a prefix of a key fails on the key.
pub proof fn lemma_walk_cut(nodes: Seq<TrieNode>, root: int, key: Seq<u8>, cut: int)
    requires
        0 <= cut <= key.len(),
        walk(nodes, root, key.take(cut)) is None,
    ensures
        walk(nodes, root, key) is None,
    decreases key.len() - cut,
{
    if cut < key.len() {
        assert(key.take(cut + 1).drop_last() =~= key.take(cut));
        lemma_walk_cut(nodes, root, key, cut + 1);
    } else {
        assert(key.take(cut) =~= key);
    }
}

} // verus!
