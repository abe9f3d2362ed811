use vstd::prelude::*;
use vstd::slice::slice_index_get;

verus! {

/// Lexicographic byte order: `a` sorts strictly before `b`.
pub open spec fn lex_lt(a: Seq<u8>, b: Seq<u8>) -> bool
    decreases a.len(),
{
    if b.len() == 0 {
        false
    } else if a.len() == 0 {
        true
    } else if a[0] != b[0] {
        a[0] < b[0]
    } else {
        lex_lt(a.drop_first(), b.drop_first())
    }
}

/// How one key stands to another in lexicographic byte order.
#[derive(Clone, Copy, PartialEq, Eq, Structural, Debug)]
pub enum KeyOrder {
    Less,
    Equal,
    Greater,
}

/// The order of `a` relative to `b`.
pub open spec fn key_order(a: Seq<u8>, b: Seq<u8>) -> KeyOrder {
    if lex_lt(a, b) {
        KeyOrder::Less
    } else if a == b {
        KeyOrder::Equal
    } else {
        KeyOrder::Greater
    }
}

/// No key sorts before itself.
pub proof fn lemma_lex_irreflexive(a: Seq<u8>)
    ensures
        !lex_lt(a, a),
    decreases a.len(),
{
    if a.len() > 0 {
        lemma_lex_irreflexive(a.drop_first());
    }
}

/// Of two keys at most one sorts before the other.
pub proof fn lemma_lex_asymmetric(a: Seq<u8>, b: Seq<u8>)
    requires
        lex_lt(a, b),
    ensures
        !lex_lt(b, a),
        a != b,
    decreases a.len(),
{
    if a.len() > 0 && b.len() > 0 && a[0] == b[0] {
        lemma_lex_asymmetric(a.drop_first(), b.drop_first());
    }
    lemma_lex_irreflexive(a);
}

/// The order is transitive.
pub proof fn lemma_lex_transitive(a: Seq<u8>, b: Seq<u8>, c: Seq<u8>)
    requires
        lex_lt(a, b),
        lex_lt(b, c),
    ensures
        lex_lt(a, c),
    decreases a.len(),
{
    if a.len() > 0 && b.len() > 0 && c.len() > 0 && a[0] == b[0] && b[0] == c[0] {
        lemma_lex_transitive(a.drop_first(), b.drop_first(), c.drop_first());
    }
}

/// The order is total: two different keys are ordered one way or the other.
pub proof fn lemma_lex_total(a: Seq<u8>, b: Seq<u8>)
    ensures
        lex_lt(a, b) || a == b || lex_lt(b, a),
    decreases a.len(),
{
    if a.len() == 0 || b.len() == 0 {
        if a.len() == 0 && b.len() == 0 {
            assert(a =~= b);
        }
    } else if a[0] == b[0] {
        lemma_lex_total(a.drop_first(), b.drop_first());
        if a.drop_first() == b.drop_first() {
            assert(a =~= seq![a[0]] + a.drop_first());
            assert(b =~= seq![b[0]] + b.drop_first());
        }
    }
}

/// Two keys that agree on their first `k` bytes are ordered as their remainders are.
pub proof fn lemma_lex_skip_common(a: Seq<u8>, b: Seq<u8>, k: int)
    requires
        0 <= k <= a.len(),
        k <= b.len(),
        forall|i: int| 0 <= i < k ==> a[i] == b[i],
    ensures
        lex_lt(a, b) == lex_lt(a.skip(k), b.skip(k)),
        lex_lt(b, a) == lex_lt(b.skip(k), a.skip(k)),
    decreases k,
{
    if k == 0 {
        assert(a.skip(0) =~= a);
        assert(b.skip(0) =~= b);
    } else {
        lemma_lex_skip_common(a.drop_first(), b.drop_first(), k - 1);
        assert(a.drop_first().skip(k - 1) =~= a.skip(k));
        assert(b.drop_first().skip(k - 1) =~= b.skip(k));
    }
}

/// A key sorts before every key that it is a proper prefix of.
pub proof fn lemma_lex_prefix(prefix: Seq<u8>, key: Seq<u8>)
    requires
        prefix.is_prefix_of(key),
    ensures
        prefix == key || lex_lt(prefix, key),
        !lex_lt(key, prefix),
{
    let n = prefix.len() as int;
    assert forall|i: int| 0 <= i < n implies prefix[i] == key[i] by {
        assert(key.subrange(0, n)[i] == key[i]);
    }
    lemma_lex_skip_common(prefix, key, n);
    if key.len() == n {
        assert(key =~= prefix);
        lemma_lex_irreflexive(key);
    }
}

/// Two keys that agree up to a byte in which they differ are ordered as those bytes are.
pub proof fn lemma_lex_diverge(common: Seq<u8>, b1: u8, b2: u8, key1: Seq<u8>, key2: Seq<u8>)
    requires
        common.push(b1).is_prefix_of(key1),
        common.push(b2).is_prefix_of(key2),
        b1 < b2,
    ensures
        lex_lt(key1, key2),
        !lex_lt(key2, key1),
{
    let n = common.len() as int;
    assert forall|i: int| 0 <= i <= n implies key1[i] == common.push(b1)[i] && key2[i]
        == common.push(b2)[i] by {
        assert(key1.subrange(0, n + 1)[i] == key1[i]);
        assert(key2.subrange(0, n + 1)[i] == key2[i]);
    }
    lemma_lex_skip_common(key1, key2, n);
    assert(key1.skip(n)[0] == b1);
    assert(key2.skip(n)[0] == b2);
    lemma_lex_asymmetric(key1, key2);
}

/// Compares two keys in lexicographic byte order.
pub fn compare_keys(a: &[u8], b: &[u8]) -> (order: KeyOrder)
    ensures
        order == key_order(a@, b@),
{
    let mut idx: usize = 0;
    while idx < a.len() && idx < b.len()
        invariant
            idx <= a@.len(),
            idx <= b@.len(),
            forall|i: int| 0 <= i < idx ==> a@[i] == b@[i],
        decreases a@.len() - idx,
    {
        let x = *slice_index_get(a, idx);
        let y = *slice_index_get(b, idx);
        if x != y {
            proof {
                lemma_lex_skip_common(a@, b@, idx as int);
                let ra = a@.skip(idx as int);
                let rb = b@.skip(idx as int);
                assert(ra[0] == x && rb[0] == y);
                assert(a@ != b@);
            }
            if x < y {
                return KeyOrder::Less;
            } else {
                return KeyOrder::Greater;
            }
        }
        idx += 1;
    }
    proof {
        lemma_lex_skip_common(a@, b@, idx as int);
        if a@.len() == b@.len() {
            assert(a@ =~= b@);
            lemma_lex_irreflexive(a@);
        }
    }
    if a.len() < b.len() {
        KeyOrder::Less
    } else if a.len() == b.len() {
        KeyOrder::Equal
    } else {
        KeyOrder::Greater
    }
}

} // verus!
