use vstd::prelude::*;
use vstd::slice::slice_index_get;
use crate::keys::{
    lemma_lex_asymmetric, lemma_lex_diverge, lemma_lex_irreflexive, lemma_lex_prefix, lex_lt,
};
use crate::radix::node::Node;
use crate::radix::tree::{lemma_walk_cut, lemma_walk_path, walk, Art, TrieNode};

verus! {

/// `key` continues `prefix` with a byte from `from` up to, not including, `until`.
pub open spec fn branches(prefix: Seq<u8>, from: int, until: int, key: Seq<u8>) -> bool {
    &&& prefix.len() < key.len()
    &&& prefix.is_prefix_of(key)
    &&& from <= key[prefix.len() as int] < until
}

/// `key` lies on the upper side of `target`: not before it, or, where the
/// target itself is excluded, after it.
pub open spec fn above(target: Seq<u8>, inclusive: bool, key: Seq<u8>) -> bool {
    if inclusive {
        !lex_lt(key, target)
    } else {
        lex_lt(target, key)
    }
}

/// `key` lies on the lower side of `target`: not after it, or, where the
/// target itself is excluded, before it.
pub open spec fn below(target: Seq<u8>, inclusive: bool, key: Seq<u8>) -> bool {
    if inclusive {
        !lex_lt(target, key)
    } else {
        lex_lt(key, target)
    }
}

/// `found` is the smallest key of `map` on the upper side of `target`, or
/// nothing if the map has no key there.
pub open spec fn least_above(
    map: Map<Seq<u8>, Seq<u8>>,
    target: Seq<u8>,
    inclusive: bool,
    found: Option<Seq<u8>>,
) -> bool {
    match found {
        Some(key) => {
            &&& map.contains_key(key)
            &&& above(target, inclusive, key)
            &&& forall|k: Seq<u8>|
                #[trigger] map.contains_key(k) && above(target, inclusive, k) ==> !lex_lt(k, key)
        },
        None => forall|k: Seq<u8>| #[trigger] map.contains_key(k) ==> !above(target, inclusive, k),
    }
}

/// `found` is the greatest key of `map` on the lower side of `target`, or
/// nothing if the map has no key there.
pub open spec fn greatest_below(
    map: Map<Seq<u8>, Seq<u8>>,
    target: Seq<u8>,
    inclusive: bool,
    found: Option<Seq<u8>>,
) -> bool {
    match found {
        Some(key) => {
            &&& map.contains_key(key)
            &&& below(target, inclusive, key)
            &&& forall|k: Seq<u8>|
                #[trigger] map.contains_key(k) && below(target, inclusive, k) ==> !lex_lt(key, k)
        },
        None => forall|k: Seq<u8>| #[trigger] map.contains_key(k) ==> !below(target, inclusive, k),
    }
}

/// `found` is the greatest key of `map`, or nothing if the map is empty.
pub open spec fn greatest(map: Map<Seq<u8>, Seq<u8>>, found: Option<Seq<u8>>) -> bool {
    match found {
        Some(key) => {
            &&& map.contains_key(key)
            &&& forall|k: Seq<u8>| #[trigger] map.contains_key(k) ==> !lex_lt(key, k)
        },
        None => forall|k: Seq<u8>| !#[trigger] map.contains_key(k),
    }
}

/// The view of a key that may be absent.
pub open spec fn key_view(key: Option<Vec<u8>>) -> Option<Seq<u8>> {
    match key {
        Some(bytes) => Some(bytes@),
        None => None,
    }
}

/// To continue a prefix with one byte is to have the prefix with that byte as a prefix.
pub proof fn lemma_branch(prefix: Seq<u8>, b: u8, key: Seq<u8>)
    ensures
        prefix.push(b).is_prefix_of(key) <==> branches(prefix, b as int, b + 1, key),
        prefix.push(b).is_prefix_of(key) ==> prefix.is_prefix_of(key),
{
    let n = prefix.len() as int;
    if prefix.push(b).is_prefix_of(key) {
        assert(key.subrange(0, n + 1)[n] == key[n]);
        assert(key.subrange(0, n) =~= key.subrange(0, n + 1).subrange(0, n));
        assert(prefix.push(b).subrange(0, n) =~= prefix);
    }
    if branches(prefix, b as int, b + 1, key) {
        assert(key.subrange(0, n + 1) =~= key.subrange(0, n).push(key[n]));
    }
}

/// A key that has a prefix and differs from it continues it with some byte.
pub proof fn lemma_longer(prefix: Seq<u8>, key: Seq<u8>)
    requires
        prefix.is_prefix_of(key),
        key != prefix,
    ensures
        branches(prefix, 0, 256, key),
{
    if key.len() == prefix.len() {
        assert(key.subrange(0, prefix.len() as int) =~= key);
    }
}

/// Below a node that has no child under a byte no key continues the node's
/// path with that byte.
pub proof fn lemma_no_child(
    nodes: Seq<TrieNode>,
    root: int,
    prefix: Seq<u8>,
    at: int,
    b: u8,
    key: Seq<u8>,
)
    requires
        walk(nodes, root, prefix) == Some(at),
        !nodes[at].node@.contains_key(b),
        prefix.push(b).is_prefix_of(key),
    ensures
        walk(nodes, root, key) is None,
{
    assert(prefix.push(b).drop_last() =~= prefix);
    let cut = prefix.len() as int + 1;
    assert(key.take(cut) =~= prefix.push(b));
    lemma_walk_cut(nodes, root, key, cut);
}

impl Art {
    /// A key is stored exactly if the walk along it ends at a node with a value.
    proof fn lemma_stored(&self, key: Seq<u8>)
        ensures
            self@.contains_key(key) == (match walk(self.nodes@, self.root as int, key) {
                Some(at) => self.nodes@[at].value is Some,
                None => false,
            }),
    {
        self.lemma_open();
    }

    /// The child of a node under a byte is where the walk along the node's
    /// path and that byte ends, one level further down.
    proof fn lemma_child(&self, prefix: Seq<u8>, node: int, b: u8)
        requires
            self.wf(),
            walk(self.nodes@, self.root as int, prefix) == Some(node),
            self.nodes@[node].node@.contains_key(b),
        ensures
            walk(self.nodes@, self.root as int, prefix.push(b)) == Some(
                self.nodes@[node].node@[b] as int,
            ),
            prefix.len() + 1 <= self.depth@,
            0 <= node < self.nodes@.len(),
    {
        self.lemma_open();
        assert(prefix.push(b).drop_last() =~= prefix);
        lemma_walk_path(self.nodes@, self.paths@, self.root as int, prefix);
        lemma_walk_path(self.nodes@, self.paths@, self.root as int, prefix.push(b));
    }

    /// Extends `path`, which leads to `node`, to the smallest stored key
    /// that has it as a prefix.
    fn min_key(&self, node: usize, path: &mut Vec<u8>) -> (found: bool)
        requires
            self.wf(),
            walk(self.nodes@, self.root as int, old(path)@) == Some(node as int),
        ensures
            found ==> old(path)@.is_prefix_of(final(path)@) && self@.contains_key(final(path)@)
                && forall|k: Seq<u8>|
                #[trigger] self@.contains_key(k) && old(path)@.is_prefix_of(k) ==> !lex_lt(
                    k,
                    final(path)@,
                ),
            !found ==> final(path)@ == old(path)@ && forall|k: Seq<u8>|
                #[trigger] self@.contains_key(k) ==> !old(path)@.is_prefix_of(k),
        decreases self.depth@ - old(path)@.len(), 1int,
    {
        proof {
            self.lemma_open();
            lemma_walk_path(self.nodes@, self.paths@, self.root as int, path@);
            self.lemma_stored(path@);
        }
        if self.nodes[node].value.is_some() {
            proof {
                assert(path@.is_prefix_of(path@)) by {
                    assert(path@.subrange(0, path@.len() as int) =~= path@);
                }
                assert forall|k: Seq<u8>| #[trigger]
                    self@.contains_key(k) && path@.is_prefix_of(k) implies !lex_lt(k, path@) by {
                    lemma_lex_prefix(path@, k);
                }
            }
            return true;
        }
        let found = self.min_from(node, 0, path);
        proof {
            assert forall|k: Seq<u8>| #[trigger]
                self@.contains_key(k) && old(path)@.is_prefix_of(k) implies branches(
                old(path)@,
                0,
                256,
                k,
            ) by {
                lemma_longer(old(path)@, k);
            }
        }
        found
    }

    /// Extends `path`, which leads to `node`, to the smallest stored key
    /// that continues it with a byte not below `from`.
    fn min_from(&self, node: usize, from: usize, path: &mut Vec<u8>) -> (found: bool)
        requires
            self.wf(),
            walk(self.nodes@, self.root as int, old(path)@) == Some(node as int),
            from <= 256,
        ensures
            found ==> branches(old(path)@, from as int, 256, final(path)@) && self@.contains_key(
                final(path)@,
            ) && forall|k: Seq<u8>|
                #[trigger] self@.contains_key(k) && branches(old(path)@, from as int, 256, k)
                    ==> !lex_lt(k, final(path)@),
            !found ==> final(path)@ == old(path)@ && forall|k: Seq<u8>|
                #[trigger] self@.contains_key(k) ==> !branches(old(path)@, from as int, 256, k),
        decreases self.depth@ - old(path)@.len(), 0int,
    {
        let ghost prefix = path@;
        proof {
            self.lemma_open();
            lemma_walk_path(self.nodes@, self.paths@, self.root as int, prefix);
        }
        let mut b = from;
        while b < 256
            invariant
                from <= b <= 256,
                path@ == prefix,
                prefix == old(path)@,
                self.wf(),
                node < self.nodes@.len(),
                walk(self.nodes@, self.root as int, prefix) == Some(node as int),
                forall|k: Seq<u8>|
                    #[trigger] self@.contains_key(k) ==> !branches(prefix, from as int, b as int, k),
            decreases 256 - b,
        {
            let byte = b as u8;
            proof {
                self.lemma_open();
            }
            match self.nodes[node].node.find_child(byte) {
                Some(child) => {
                    proof {
                        self.lemma_child(prefix, node as int, byte);
                    }
                    path.push(byte);
                    if self.min_key(child, path) {
                        proof {
                            let r = path@;
                            lemma_branch(prefix, byte, r);
                            assert(prefix.push(byte).is_prefix_of(r));
                            assert forall|k: Seq<u8>| #[trigger]
                                self@.contains_key(k) && branches(
                                    prefix,
                                    from as int,
                                    256,
                                    k,
                                ) implies !lex_lt(k, r) by {
                                let kb = k[prefix.len() as int];
                                lemma_branch(prefix, kb, k);
                                if kb < byte {
                                    assert(branches(prefix, from as int, b as int, k));
                                } else if kb > byte {
                                    lemma_lex_diverge(prefix, byte, kb, r, k);
                                }
                            }
                        }
                        return true;
                    }
                    path.pop();
                    proof {
                        assert(path@ =~= prefix);
                        assert forall|k: Seq<u8>| #[trigger] self@.contains_key(k) implies !branches(
                            prefix,
                            from as int,
                            b + 1,
                            k,
                        ) by {
                            if branches(prefix, from as int, b + 1, k) {
                                lemma_branch(prefix, k[prefix.len() as int], k);
                                assert(!branches(prefix, from as int, b as int, k));
                            }
                        }
                    }
                },
                None => {
                    proof {
                        assert forall|k: Seq<u8>| #[trigger] self@.contains_key(k) implies !branches(
                            prefix,
                            from as int,
                            b + 1,
                            k,
                        ) by {
                            if branches(prefix, from as int, b + 1, k) {
                                lemma_branch(prefix, k[prefix.len() as int], k);
                                assert(!branches(prefix, from as int, b as int, k));
                                lemma_no_child(
                                    self.nodes@,
                                    self.root as int,
                                    prefix,
                                    node as int,
                                    byte,
                                    k,
                                );
                                self.lemma_stored(k);
                            }
                        }
                    }
                },
            }
            b += 1;
        }
        false
    }

    /// Extends `path`, which leads to `node`, to the greatest stored key
    /// that has it as a prefix.
    fn max_key(&self, node: usize, path: &mut Vec<u8>) -> (found: bool)
        requires
            self.wf(),
            walk(self.nodes@, self.root as int, old(path)@) == Some(node as int),
        ensures
            found ==> old(path)@.is_prefix_of(final(path)@) && self@.contains_key(final(path)@)
                && forall|k: Seq<u8>|
                #[trigger] self@.contains_key(k) && old(path)@.is_prefix_of(k) ==> !lex_lt(
                    final(path)@,
                    k,
                ),
            !found ==> final(path)@ == old(path)@ && forall|k: Seq<u8>|
                #[trigger] self@.contains_key(k) ==> !old(path)@.is_prefix_of(k),
        decreases self.depth@ - old(path)@.len(), 1int,
    {
        let ghost prefix = path@;
        proof {
            self.lemma_open();
            lemma_walk_path(self.nodes@, self.paths@, self.root as int, prefix);
            self.lemma_stored(prefix);
        }
        if self.max_from(node, 256, path) {
            proof {
                let r = path@;
                assert forall|k: Seq<u8>| #[trigger]
                    self@.contains_key(k) && prefix.is_prefix_of(k) implies !lex_lt(r, k) by {
                    if k == prefix {
                        lemma_lex_prefix(prefix, r);
                        lemma_lex_asymmetric(prefix, r);
                    } else {
                        lemma_longer(prefix, k);
                    }
                }
            }
            return true;
        }
        proof {
            assert(prefix.is_prefix_of(prefix)) by {
                assert(prefix.subrange(0, prefix.len() as int) =~= prefix);
            }
            assert forall|k: Seq<u8>| #[trigger]
                self@.contains_key(k) && prefix.is_prefix_of(k) implies k == prefix by {
                if k != prefix {
                    lemma_longer(prefix, k);
                }
            }
            lemma_lex_irreflexive(prefix);
        }
        self.nodes[node].value.is_some()
    }

    /// Extends `path`, which leads to `node`, to the greatest stored key
    /// that continues it with a byte below `until`.
    fn max_from(&self, node: usize, until: usize, path: &mut Vec<u8>) -> (found: bool)
        requires
            self.wf(),
            walk(self.nodes@, self.root as int, old(path)@) == Some(node as int),
            until <= 256,
        ensures
            found ==> branches(old(path)@, 0, until as int, final(path)@) && self@.contains_key(
                final(path)@,
            ) && forall|k: Seq<u8>|
                #[trigger] self@.contains_key(k) && branches(old(path)@, 0, until as int, k)
                    ==> !lex_lt(final(path)@, k),
            !found ==> final(path)@ == old(path)@ && forall|k: Seq<u8>|
                #[trigger] self@.contains_key(k) ==> !branches(old(path)@, 0, until as int, k),
        decreases self.depth@ - old(path)@.len(), 0int,
    {
        let ghost prefix = path@;
        proof {
            self.lemma_open();
            lemma_walk_path(self.nodes@, self.paths@, self.root as int, prefix);
        }
        let mut b = until;
        while b > 0
            invariant
                0 <= b <= until <= 256,
                path@ == prefix,
                prefix == old(path)@,
                self.wf(),
                node < self.nodes@.len(),
                walk(self.nodes@, self.root as int, prefix) == Some(node as int),
                forall|k: Seq<u8>|
                    #[trigger] self@.contains_key(k) ==> !branches(prefix, b as int, until as int, k),
            decreases b,
        {
            b -= 1;
            let byte = b as u8;
            proof {
                self.lemma_open();
            }
            match self.nodes[node].node.find_child(byte) {
                Some(child) => {
                    proof {
                        self.lemma_child(prefix, node as int, byte);
                    }
                    path.push(byte);
                    if self.max_key(child, path) {
                        proof {
                            let r = path@;
                            lemma_branch(prefix, byte, r);
                            assert(prefix.push(byte).is_prefix_of(r));
                            assert forall|k: Seq<u8>| #[trigger]
                                self@.contains_key(k) && branches(
                                    prefix,
                                    0,
                                    until as int,
                                    k,
                                ) implies !lex_lt(r, k) by {
                                let kb = k[prefix.len() as int];
                                lemma_branch(prefix, kb, k);
                                if kb > byte {
                                    assert(branches(prefix, b + 1, until as int, k));
                                } else if kb < byte {
                                    lemma_lex_diverge(prefix, kb, byte, k, r);
                                }
                            }
                        }
                        return true;
                    }
                    path.pop();
                    proof {
                        assert(path@ =~= prefix);
                        assert forall|k: Seq<u8>| #[trigger] self@.contains_key(k) implies !branches(
                            prefix,
                            b as int,
                            until as int,
                            k,
                        ) by {
                            if branches(prefix, b as int, until as int, k) {
                                lemma_branch(prefix, k[prefix.len() as int], k);
                                assert(!branches(prefix, b + 1, until as int, k));
                            }
                        }
                    }
                },
                None => {
                    proof {
                        assert forall|k: Seq<u8>| #[trigger] self@.contains_key(k) implies !branches(
                            prefix,
                            b as int,
                            until as int,
                            k,
                        ) by {
                            if branches(prefix, b as int, until as int, k) {
                                lemma_branch(prefix, k[prefix.len() as int], k);
                                assert(!branches(prefix, b + 1, until as int, k));
                                lemma_no_child(
                                    self.nodes@,
                                    self.root as int,
                                    prefix,
                                    node as int,
                                    byte,
                                    k,
                                );
                                self.lemma_stored(k);
                            }
                        }
                    }
                },
            }
        }
        false
    }

    /// Extends `path`, a prefix of `target` that leads to `node`, to the
    /// smallest stored key that has it as a prefix and lies on the upper
    /// side of `target`.
    fn ceiling_from(
        &self,
        node: usize,
        target: &[u8],
        inclusive: bool,
        path: &mut Vec<u8>,
    ) -> (found: bool)
        requires
            self.wf(),
            old(path)@.len() <= target@.len(),
            old(path)@ == target@.take(old(path)@.len() as int),
            walk(self.nodes@, self.root as int, old(path)@) == Some(node as int),
        ensures
            found ==> old(path)@.is_prefix_of(final(path)@) && self@.contains_key(final(path)@)
                && above(target@, inclusive, final(path)@) && forall|k: Seq<u8>|
                #[trigger] self@.contains_key(k) && old(path)@.is_prefix_of(k) && above(
                    target@,
                    inclusive,
                    k,
                ) ==> !lex_lt(k, final(path)@),
            !found ==> final(path)@ == old(path)@ && forall|k: Seq<u8>|
                #[trigger] self@.contains_key(k) ==> !(old(path)@.is_prefix_of(k) && above(
                    target@,
                    inclusive,
                    k,
                )),
        decreases target@.len() - old(path)@.len(),
    {
        let ghost prefix = path@;
        let depth = path.len();
        proof {
            self.lemma_open();
            lemma_walk_path(self.nodes@, self.paths@, self.root as int, prefix);
            assert(prefix.is_prefix_of(target@)) by {
                assert(target@.subrange(0, prefix.len() as int) =~= prefix);
            }
            lemma_lex_prefix(prefix, target@);
        }
        if depth == target.len() {
            proof {
                assert(prefix =~= target@);
                lemma_lex_irreflexive(prefix);
            }
            if inclusive {
                let found = self.min_key(node, path);
                proof {
                    if found {
                        lemma_lex_prefix(prefix, path@);
                    }
                }
                return found;
            } else {
                let found = self.min_from(node, 0, path);
                proof {
                    if found {
                        lemma_lex_prefix(prefix, path@);
                    }
                    assert forall|k: Seq<u8>| #[trigger]
                        self@.contains_key(k) && prefix.is_prefix_of(k) && above(
                            target@,
                            inclusive,
                            k,
                        ) implies branches(prefix, 0, 256, k) by {
                        lemma_longer(prefix, k);
                    }
                }
                return found;
            }
        }
        let byte = *slice_index_get(target, depth);
        proof {
            assert(prefix.push(byte).is_prefix_of(target@)) by {
                assert(target@.subrange(0, depth + 1) =~= prefix.push(byte));
            }
            assert(target@.take(depth + 1) =~= prefix.push(byte));
        }
        match self.nodes[node].node.find_child(byte) {
            Some(child) => {
                proof {
                    self.lemma_child(prefix, node as int, byte);
                }
                path.push(byte);
                if self.ceiling_from(child, target, inclusive, path) {
                    proof {
                        let r = path@;
                        lemma_branch(prefix, byte, r);
                        assert forall|k: Seq<u8>| #[trigger]
                            self@.contains_key(k) && prefix.is_prefix_of(k) && above(
                                target@,
                                inclusive,
                                k,
                            ) implies !lex_lt(k, r) by {
                            if k == prefix {
                                lemma_lex_asymmetric(prefix, target@);
                            } else {
                                lemma_longer(prefix, k);
                                let kb = k[prefix.len() as int];
                                lemma_branch(prefix, kb, k);
                                if kb < byte {
                                    lemma_lex_diverge(prefix, kb, byte, k, target@);
                                } else if kb > byte {
                                    lemma_lex_diverge(prefix, byte, kb, r, k);
                                }
                            }
                        }
                    }
                    return true;
                }
                path.pop();
                proof {
                    assert(path@ =~= prefix);
                }
            },
            None => {
                proof {
                    assert forall|k: Seq<u8>| #[trigger] self@.contains_key(k) implies !(
                    prefix.push(byte).is_prefix_of(k) && above(target@, inclusive, k)) by {
                        if prefix.push(byte).is_prefix_of(k) {
                            lemma_no_child(
                                self.nodes@,
                                self.root as int,
                                prefix,
                                node as int,
                                byte,
                                k,
                            );
                            self.lemma_stored(k);
                        }
                    }
                }
            },
        }
        let found = self.min_from(node, byte as usize + 1, path);
        proof {
            let r = path@;
            if found {
                let rb = r[prefix.len() as int];
                lemma_branch(prefix, rb, r);
                lemma_lex_diverge(prefix, byte, rb, target@, r);
            }
            assert forall|k: Seq<u8>| #[trigger]
                self@.contains_key(k) && prefix.is_prefix_of(k) && above(
                    target@,
                    inclusive,
                    k,
                ) implies branches(prefix, byte + 1, 256, k) by {
                if k == prefix {
                    lemma_lex_asymmetric(prefix, target@);
                } else {
                    lemma_longer(prefix, k);
                    let kb = k[prefix.len() as int];
                    lemma_branch(prefix, kb, k);
                    if kb < byte {
                        lemma_lex_diverge(prefix, kb, byte, k, target@);
                    }
                }
            }
        }
        found
    }

    /// Extends `path`, a prefix of `target` that leads to `node`, to the
    /// greatest stored key that has it as a prefix and lies on the lower
    /// side of `target`.
    fn floor_from(
        &self,
        node: usize,
        target: &[u8],
        inclusive: bool,
        path: &mut Vec<u8>,
    ) -> (found: bool)
        requires
            self.wf(),
            old(path)@.len() <= target@.len(),
            old(path)@ == target@.take(old(path)@.len() as int),
            walk(self.nodes@, self.root as int, old(path)@) == Some(node as int),
        ensures
            found ==> old(path)@.is_prefix_of(final(path)@) && self@.contains_key(final(path)@)
                && below(target@, inclusive, final(path)@) && forall|k: Seq<u8>|
                #[trigger] self@.contains_key(k) && old(path)@.is_prefix_of(k) && below(
                    target@,
                    inclusive,
                    k,
                ) ==> !lex_lt(final(path)@, k),
            !found ==> final(path)@ == old(path)@ && forall|k: Seq<u8>|
                #[trigger] self@.contains_key(k) ==> !(old(path)@.is_prefix_of(k) && below(
                    target@,
                    inclusive,
                    k,
                )),
        decreases target@.len() - old(path)@.len(),
    {
        let ghost prefix = path@;
        let depth = path.len();
        proof {
            self.lemma_open();
            lemma_walk_path(self.nodes@, self.paths@, self.root as int, prefix);
            self.lemma_stored(prefix);
            assert(prefix.is_prefix_of(target@)) by {
                assert(target@.subrange(0, prefix.len() as int) =~= prefix);
            }
            assert(prefix.is_prefix_of(prefix)) by {
                assert(prefix.subrange(0, prefix.len() as int) =~= prefix);
            }
            lemma_lex_prefix(prefix, target@);
            lemma_lex_irreflexive(prefix);
        }
        if depth == target.len() {
            proof {
                assert(prefix =~= target@);
                assert forall|k: Seq<u8>| #[trigger]
                    self@.contains_key(k) && prefix.is_prefix_of(k) && below(
                        target@,
                        inclusive,
                        k,
                    ) implies k == prefix && inclusive by {
                    lemma_lex_prefix(prefix, k);
                }
            }
            return inclusive && self.nodes[node].value.is_some();
        }
        let byte = *slice_index_get(target, depth);
        proof {
            assert(prefix.push(byte).is_prefix_of(target@)) by {
                assert(target@.subrange(0, depth + 1) =~= prefix.push(byte));
            }
            assert(target@.take(depth + 1) =~= prefix.push(byte));
        }
        match self.nodes[node].node.find_child(byte) {
            Some(child) => {
                proof {
                    self.lemma_child(prefix, node as int, byte);
                }
                path.push(byte);
                if self.floor_from(child, target, inclusive, path) {
                    proof {
                        let r = path@;
                        lemma_branch(prefix, byte, r);
                        lemma_lex_prefix(prefix, r);
                        assert forall|k: Seq<u8>| #[trigger]
                            self@.contains_key(k) && prefix.is_prefix_of(k) && below(
                                target@,
                                inclusive,
                                k,
                            ) implies !lex_lt(r, k) by {
                            if k != prefix {
                                lemma_longer(prefix, k);
                                let kb = k[prefix.len() as int];
                                lemma_branch(prefix, kb, k);
                                if kb < byte {
                                    lemma_lex_diverge(prefix, kb, byte, k, r);
                                } else if kb > byte {
                                    lemma_lex_diverge(prefix, byte, kb, target@, k);
                                }
                            }
                        }
                    }
                    return true;
                }
                path.pop();
                proof {
                    assert(path@ =~= prefix);
                }
            },
            None => {
                proof {
                    assert forall|k: Seq<u8>| #[trigger] self@.contains_key(k) implies !(
                    prefix.push(byte).is_prefix_of(k) && below(target@, inclusive, k)) by {
                        if prefix.push(byte).is_prefix_of(k) {
                            lemma_no_child(
                                self.nodes@,
                                self.root as int,
                                prefix,
                                node as int,
                                byte,
                                k,
                            );
                            self.lemma_stored(k);
                        }
                    }
                }
            },
        }
        proof {
            assert forall|k: Seq<u8>| #[trigger]
                self@.contains_key(k) && prefix.is_prefix_of(k) && below(
                    target@,
                    inclusive,
                    k,
                ) implies k == prefix || branches(prefix, 0, byte as int, k) by {
                if k != prefix {
                    lemma_longer(prefix, k);
                    let kb = k[prefix.len() as int];
                    lemma_branch(prefix, kb, k);
                    if kb > byte {
                        lemma_lex_diverge(prefix, byte, kb, target@, k);
                    }
                }
            }
        }
        if self.max_from(node, byte as usize, path) {
            proof {
                let r = path@;
                let rb = r[prefix.len() as int];
                lemma_branch(prefix, rb, r);
                lemma_lex_diverge(prefix, rb, byte, r, target@);
                lemma_lex_prefix(prefix, r);
            }
            return true;
        }
        proof {
            lemma_lex_asymmetric(prefix, target@);
        }
        self.nodes[node].value.is_some()
    }

    /// The smallest stored key that does not sort before `target`; with
    /// `inclusive` unset, the smallest that sorts after it.
    pub fn ceiling(&self, target: &[u8], inclusive: bool) -> (key: Option<Vec<u8>>)
        requires
            self.wf(),
        ensures
            least_above(self@, target@, inclusive, key_view(key)),
    {
        let mut path: Vec<u8> = Vec::new();
        proof {
            self.lemma_open();
            assert(target@.take(0) =~= path@);
            assert forall|k: Seq<u8>| path@.is_prefix_of(k) by {
                assert(k.subrange(0, 0) =~= path@);
            }
        }
        if self.ceiling_from(self.root, target, inclusive, &mut path) {
            Some(path)
        } else {
            None
        }
    }

    /// The greatest stored key that does not sort after `target`; with
    /// `inclusive` unset, the greatest that sorts before it.
    pub fn floor(&self, target: &[u8], inclusive: bool) -> (key: Option<Vec<u8>>)
        requires
            self.wf(),
        ensures
            greatest_below(self@, target@, inclusive, key_view(key)),
    {
        let mut path: Vec<u8> = Vec::new();
        proof {
            self.lemma_open();
            assert(target@.take(0) =~= path@);
            assert forall|k: Seq<u8>| path@.is_prefix_of(k) by {
                assert(k.subrange(0, 0) =~= path@);
            }
        }
        if self.floor_from(self.root, target, inclusive, &mut path) {
            Some(path)
        } else {
            None
        }
    }

    /// The smallest stored key.
    pub fn first_key(&self) -> (key: Option<Vec<u8>>)
        requires
            self.wf(),
        ensures
            least_above(self@, Seq::<u8>::empty(), true, key_view(key)),
    {
        let mut path: Vec<u8> = Vec::new();
        proof {
            self.lemma_open();
            assert forall|k: Seq<u8>| path@.is_prefix_of(k) && !lex_lt(k, path@) by {
                assert(k.subrange(0, 0) =~= path@);
                lemma_lex_prefix(path@, k);
            }
        }
        if self.min_key(self.root, &mut path) {
            Some(path)
        } else {
            None
        }
    }

    /// The greatest stored key.
    pub fn last_key(&self) -> (key: Option<Vec<u8>>)
        requires
            self.wf(),
        ensures
            greatest(self@, key_view(key)),
    {
        let mut path: Vec<u8> = Vec::new();
        proof {
            self.lemma_open();
            assert forall|k: Seq<u8>| path@.is_prefix_of(k) by {
                assert(k.subrange(0, 0) =~= path@);
            }
        }
        if self.max_key(self.root, &mut path) {
            Some(path)
        } else {
            None
        }
    }
}

} // verus!
