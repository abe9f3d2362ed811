use vstd::prelude::*;
use crate::keys::{
    compare_keys, lemma_lex_asymmetric, lemma_lex_irreflexive, lemma_lex_total, lex_lt, KeyOrder,
};
use crate::skiplist::list::{lower_bound, upper_bound, Skiplist};

verus! {

/// A cursor over a list. It stands on one entry or on none; it is moved by
/// `next` and `prev` and placed by the seeks.
pub struct IterRef<'a> {
    list: &'a Skiplist,
    cursor: usize,
}

impl Skiplist {
    /// A cursor over the list that stands on no entry yet.
    pub fn iter_ref(&self) -> (iter: IterRef<'_>)
        requires
            self.wf(),
        ensures
            iter.wf(),
            iter.list() == *self,
            iter.index() is None,
    {
        proof {
            self.lemma_head();
        }
        IterRef { list: self, cursor: 0 }
    }
}

impl<'a> IterRef<'a> {
    /// The list the cursor is bound to.
    pub closed spec fn list(&self) -> Skiplist {
        *self.list
    }

    /// The list is well formed and the cursor names one of its nodes.
    pub closed spec fn wf(&self) -> bool {
        self.list.wf() && self.list.holds(self.cursor)
    }

    /// The index, among the entries in key order, of the entry the cursor
    /// stands on.
    pub closed spec fn index(&self) -> Option<int> {
        if self.cursor == 0 {
            None
        } else {
            Some(self.list.position(self.cursor))
        }
    }

    /// Whether the cursor stands on an entry.
    pub fn valid(&self) -> (valid: bool)
        ensures
            valid == (self.index() is Some),
    {
        self.cursor != 0
    }

    /// The key of the entry the cursor stands on.
    pub fn key(&self) -> (key: &'a [u8])
        requires
            self.wf(),
            self.index() is Some,
        ensures
            key@ == self.list().entries()[self.index().unwrap()].0,
    {
        self.list.key_at(self.cursor)
    }

    /// The value of the entry the cursor stands on.
    pub fn value(&self) -> (value: &'a [u8])
        requires
            self.wf(),
            self.index() is Some,
        ensures
            value@ == self.list().entries()[self.index().unwrap()].1,
    {
        self.list.value_at(self.cursor)
    }

    /// Moves to the entry with the next greater key; off the list after the last.
    pub fn next(&mut self)
        requires
            old(self).wf(),
            old(self).index() is Some,
        ensures
            final(self).wf(),
            final(self).list() == old(self).list(),
            final(self).index() == if old(self).index().unwrap() + 1 < old(
                self,
            ).list().entries().len() {
                Some(old(self).index().unwrap() + 1)
            } else {
                None
            },
    {
        let after = self.list.successor(self.cursor);
        proof {
            self.list.lemma_position(self.cursor);
            self.list.lemma_position(after);
        }
        self.cursor = after;
    }

    /// Moves to the entry with the next smaller key; off the list before the first.
    pub fn prev(&mut self)
        requires
            old(self).wf(),
            old(self).index() is Some,
        ensures
            final(self).wf(),
            final(self).list() == old(self).list(),
            final(self).index() == if old(self).index().unwrap() > 0 {
                Some(old(self).index().unwrap() - 1)
            } else {
                None
            },
    {
        let key = self.list.key_at(self.cursor);
        let before = self.list.find_less(key);
        proof {
            let entries = self.list.entries();
            let i = self.list.position(self.cursor);
            let at = self.list.position(before) + 1;
            self.list.lemma_position(self.cursor);
            self.list.lemma_position(before);
            self.list.lemma_entries();
            lemma_lex_irreflexive(entries[i].0);
            if at > i {
                assert(lex_lt(entries[i].0, key@));
            }
            if at < i {
                assert(!lex_lt(entries[at].0, key@));
            }
        }
        self.cursor = before;
    }

    /// Places the cursor on the entry with the smallest key that does not
    /// sort before `target`; off the list if there is none.
    pub fn seek(&mut self, target: &[u8])
        requires
            old(self).wf(),
        ensures
            final(self).wf(),
            final(self).list() == old(self).list(),
            match final(self).index() {
                Some(i) => i < final(self).list().entries().len() && lower_bound(
                    final(self).list().entries(),
                    i,
                    target@,
                ),
                None => lower_bound(
                    final(self).list().entries(),
                    final(self).list().entries().len() as int,
                    target@,
                ),
            },
    {
        let before = self.list.find_less(target);
        let node = self.list.successor(before);
        proof {
            self.list.lemma_position(before);
            self.list.lemma_position(node);
        }
        self.cursor = node;
    }

    /// Places the cursor on the entry with the greatest key that does not
    /// sort after `target`; off the list if there is none.
    pub fn seek_for_prev(&mut self, target: &[u8])
        requires
            old(self).wf(),
        ensures
            final(self).wf(),
            final(self).list() == old(self).list(),
            match final(self).index() {
                Some(i) => i < final(self).list().entries().len() && upper_bound(
                    final(self).list().entries(),
                    i + 1,
                    target@,
                ),
                None => upper_bound(final(self).list().entries(), 0, target@),
            },
    {
        let before = self.list.find_less(target);
        let node = self.list.successor(before);
        let ghost entries = self.list.entries();
        let ghost at = self.list.position(before) + 1;
        proof {
            self.list.lemma_position(before);
            self.list.lemma_position(node);
            self.list.lemma_entries();
        }
        if node != 0 {
            match compare_keys(self.list.key_at(node), target) {
                KeyOrder::Equal => {
                    proof {
                        lemma_lex_irreflexive(target@);
                        assert forall|j: int| 0 <= j < at + 1 implies !lex_lt(
                            target@,
                            #[trigger] entries[j].0,
                        ) by {
                            if j < at {
                                lemma_lex_asymmetric(entries[j].0, target@);
                            }
                        }
                    }
                    self.cursor = node;
                    return;
                },
                _ => {},
            }
        }
        proof {
            assert forall|j: int| 0 <= j < at implies !lex_lt(
                target@,
                #[trigger] entries[j].0,
            ) by {
                lemma_lex_asymmetric(entries[j].0, target@);
            }
            assert forall|j: int| at <= j < entries.len() implies lex_lt(
                target@,
                #[trigger] entries[j].0,
            ) by {
                lemma_lex_total(entries[j].0, target@);
                if j > at && entries[j].0 == target@ {
                    assert(lex_lt(entries[at].0, entries[j].0));
                }
            }
        }
        self.cursor = before;
    }

    /// Places the cursor on the entry with the smallest key; off an empty list.
    pub fn seek_to_first(&mut self)
        requires
            old(self).wf(),
        ensures
            final(self).wf(),
            final(self).list() == old(self).list(),
            final(self).index() == if final(self).list().entries().len() > 0 {
                Some(0int)
            } else {
                None
            },
    {
        proof {
            self.list.lemma_head();
        }
        let first = self.list.successor(0);
        proof {
            self.list.lemma_position(0);
            self.list.lemma_position(first);
        }
        self.cursor = first;
    }

    /// Places the cursor on the entry with the greatest key; off an empty list.
    pub fn seek_to_last(&mut self)
        requires
            old(self).wf(),
        ensures
            final(self).wf(),
            final(self).list() == old(self).list(),
            final(self).index() == if final(self).list().entries().len() > 0 {
                Some(final(self).list().entries().len() - 1)
            } else {
                None
            },
    {
        let last = self.list.find_last();
        proof {
            self.list.lemma_position(last);
        }
        self.cursor = last;
    }
}

} // verus!
