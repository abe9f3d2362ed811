use vstd::prelude::*;
use crate::radix::scan::{greatest, greatest_below, key_view, least_above};
use crate::radix::tree::Art;

verus! {

/// A cursor over a trie. It stands on one stored key or on none; it is
/// moved by `next` and `prev` and placed by the seeks. Keys come in
/// lexicographic byte order.
pub struct ArtIter<'a> {
    art: &'a Art,
    key: Option<Vec<u8>>,
}

impl Art {
    /// A cursor over the trie that stands on no key yet.
    pub fn iter_ref(&self) -> (iter: ArtIter<'_>)
        requires
            self.wf(),
        ensures
            iter.wf(),
            iter.art() == *self,
            iter.current() is None,
    {
        ArtIter { art: self, key: None }
    }
}

impl<'a> ArtIter<'a> {
    /// The trie the cursor is bound to.
    pub closed spec fn art(&self) -> Art {
        *self.art
    }

    /// The key the cursor stands on.
    pub closed spec fn current(&self) -> Option<Seq<u8>> {
        key_view(self.key)
    }

    /// The trie is well formed and the key the cursor stands on is stored in it.
    pub closed spec fn wf(&self) -> bool {
        &&& self.art.wf()
        &&& self.current() matches Some(key) ==> self.art@.contains_key(key)
    }

    /// Whether the cursor stands on a key.
    pub fn valid(&self) -> (valid: bool)
        ensures
            valid == (self.current() is Some),
    {
        self.key.is_some()
    }

    /// The key the cursor stands on.
    pub fn key(&self) -> (key: &[u8])
        requires
            self.wf(),
            self.current() is Some,
        ensures
            Some(key@) == self.current(),
    {
        match &self.key {
            Some(key) => key.as_slice(),
            None => vstd::pervasive::unreached(),
        }
    }

    /// The value stored under the key the cursor stands on.
    pub fn value(&self) -> (value: &[u8])
        requires
            self.wf(),
            self.current() is Some,
        ensures
            value@ == self.art()@[self.current().unwrap()],
    {
        match &self.key {
            Some(key) => match self.art.get(key.as_slice()) {
                Some(value) => value,
                None => vstd::pervasive::unreached(),
            },
            None => vstd::pervasive::unreached(),
        }
    }

    /// Moves to the next greater stored key; off the trie after the greatest.
    pub fn next(&mut self)
        requires
            old(self).wf(),
            old(self).current() is Some,
        ensures
            final(self).wf(),
            final(self).art() == old(self).art(),
            least_above(
                final(self).art()@,
                old(self).current().unwrap(),
                false,
                final(self).current(),
            ),
    {
        let found = match &self.key {
            Some(key) => self.art.ceiling(key.as_slice(), false),
            None => None,
        };
        self.key = found;
    }

    /// Moves to the next smaller stored key; off the trie before the smallest.
    pub fn prev(&mut self)
        requires
            old(self).wf(),
            old(self).current() is Some,
        ensures
            final(self).wf(),
            final(self).art() == old(self).art(),
            greatest_below(
                final(self).art()@,
                old(self).current().unwrap(),
                false,
                final(self).current(),
            ),
    {
        let found = match &self.key {
            Some(key) => self.art.floor(key.as_slice(), false),
            None => None,
        };
        self.key = found;
    }

    /// Places the cursor on the smallest stored key that does not sort
    /// before `target`; off the trie if there is none.
    pub fn seek(&mut self, target: &[u8])
        requires
            old(self).wf(),
        ensures
            final(self).wf(),
            final(self).art() == old(self).art(),
            least_above(final(self).art()@, target@, true, final(self).current()),
    {
        let found = self.art.ceiling(target, true);
        self.key = found;
    }

    /// Places the cursor on the greatest stored key that does not sort
    /// after `target`; off the trie if there is none.
    pub fn seek_for_prev(&mut self, target: &[u8])
        requires
            old(self).wf(),
        ensures
            final(self).wf(),
            final(self).art() == old(self).art(),
            greatest_below(final(self).art()@, target@, true, final(self).current()),
    {
        let found = self.art.floor(target, true);
        self.key = found;
    }

    /// Places the cursor on the smallest stored key; off an empty trie.
    pub fn seek_to_first(&mut self)
        requires
            old(self).wf(),
        ensures
            final(self).wf(),
            final(self).art() == old(self).art(),
            least_above(final(self).art()@, Seq::<u8>::empty(), true, final(self).current()),
    {
        let found = self.art.first_key();
        self.key = found;
    }

    /// Places the cursor on the greatest stored key; off an empty trie.
    pub fn seek_to_last(&mut self)
        requires
            old(self).wf(),
        ensures
            final(self).wf(),
            final(self).art() == old(self).art(),
            greatest(final(self).art()@, final(self).current()),
    {
        let found = self.art.last_key();
        self.key = found;
    }
}

} // verus!
