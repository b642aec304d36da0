//! A table keyed by block.

use vstd::prelude::*;

use crate::assoc::{
    assoc_map, has_key, keys_distinct, lemma_assoc_absent, lemma_assoc_index, lemma_assoc_push,
    lemma_assoc_remove, lemma_assoc_update,
};
use crate::file::BlockId;

verus! {

/// A table from blocks to values, kept in the order in which the blocks were
/// first entered. No block is entered twice.
pub struct BlockMap<V> {
    keys: Vec<BlockId>,
    values: Vec<V>,
}

impl<V> BlockMap<V> {
    /// The entries in the order in which their blocks were first entered.
    pub closed spec fn entries(&self) -> Seq<((Seq<char>, usize), V)> {
        Seq::new(self.keys@.len(), |i: int| (self.keys@[i]@, self.values@[i]))
    }

    /// The table holds a value for each of its blocks, and no block twice.
    pub closed spec fn wf(&self) -> bool {
        &&& self.keys@.len() == self.values@.len()
        &&& keys_distinct(self.entries())
    }

    /// The map that the table stands for.
    pub open spec fn map(&self) -> Map<(Seq<char>, usize), V> {
        assoc_map(self.entries())
    }

    /// What holds of the entries of a table.
    pub proof fn lemma_entries(&self)
        requires
            self.wf(),
        ensures
            keys_distinct(self.entries()),
            forall|i: int|
                0 <= i < self.entries().len() ==> self.map().contains_key(
                    (#[trigger] self.entries()[i]).0,
                ) && self.map()[self.entries()[i].0] == self.entries()[i].1,
            forall|k: (Seq<char>, usize)|
                self.map().contains_key(k) ==> has_key(self.entries(), k),
    {
        assert forall|i: int| 0 <= i < self.entries().len() implies self.map().contains_key(
            (#[trigger] self.entries()[i]).0,
        ) && self.map()[self.entries()[i].0] == self.entries()[i].1 by {
            lemma_assoc_index(self.entries(), i);
        }
    }

    /// An empty table.
    pub fn new() -> (m: Self)
        ensures
            m.wf(),
            m.entries() == Seq::<((Seq<char>, usize), V)>::empty(),
            m.map() == Map::<(Seq<char>, usize), V>::empty(),
    {
        let m = BlockMap { keys: Vec::new(), values: Vec::new() };
        assert(m.entries() =~= Seq::<((Seq<char>, usize), V)>::empty());
        assert(m.map() =~= Map::<(Seq<char>, usize), V>::empty());
        m
    }

    /// The number of entries.
    pub fn len(&self) -> (n: usize)
        requires
            self.wf(),
        ensures
            n == self.entries().len(),
    {
        self.keys.len()
    }

    /// The position of `block` among the entries, if it is entered.
    pub fn position(&self, block: &BlockId) -> (r: Option<usize>)
        requires
            self.wf(),
        ensures
            match r {
                Some(i) => i < self.entries().len() && self.entries()[i as int].0 == block@
                    && self.map().contains_key(block@) && self.map()[block@]
                    == self.entries()[i as int].1,
                None => !self.map().contains_key(block@),
            },
    {
        let mut i: usize = 0;
        while i < self.keys.len()
            invariant
                i <= self.keys@.len(),
                self.wf(),
                forall|j: int| 0 <= j < i ==> (#[trigger] self.entries()[j]).0 != block@,
            decreases self.keys@.len() - i,
        {
            if self.keys[i] == *block {
                proof {
                    lemma_assoc_index(self.entries(), i as int);
                }
                return Some(i);
            }
            i += 1;
        }
        proof {
            lemma_assoc_absent(self.entries(), block@);
        }
        None
    }

    /// The block of the entry at position `i`.
    pub fn key_at(&self, i: usize) -> (block: &BlockId)
        requires
            self.wf(),
            i < self.entries().len(),
        ensures
            block@ == self.entries()[i as int].0,
    {
        &self.keys[i]
    }

    /// The value of the entry at position `i`.
    pub fn value_at(&self, i: usize) -> (v: &V)
        requires
            self.wf(),
            i < self.entries().len(),
        ensures
            *v == self.entries()[i as int].1,
    {
        &self.values[i]
    }

    /// The value entered for `block`, if there is one.
    pub fn get(&self, block: &BlockId) -> (r: Option<&V>)
        requires
            self.wf(),
        ensures
            match r {
                Some(v) => self.map().contains_key(block@) && *v == self.map()[block@],
                None => !self.map().contains_key(block@),
            },
    {
        match self.position(block) {
            Some(i) => Some(&self.values[i]),
            None => None,
        }
    }

    /// Enters `value` for `block`, in place of the value that was entered for it,
    /// if there was one; a block that is new goes to the end.
    pub fn insert(&mut self, block: &BlockId, value: V)
        requires
            old(self).wf(),
        ensures
            final(self).wf(),
            final(self).map() == old(self).map().insert(block@, value),
            forall|i: int|
                0 <= i < old(self).entries().len() && (#[trigger] old(self).entries()[i]).0
                    == block@ ==> final(self).entries() == old(self).entries().update(
                    i,
                    (block@, value),
                ),
            !old(self).map().contains_key(block@) ==> final(self).entries() == old(
                self,
            ).entries().push((block@, value)),
    {
        let ghost before = self.entries();
        match self.position(block) {
            Some(i) => {
                self.values.set(i, value);
                proof {
                    assert(self.entries() =~= before.update(i as int, (block@, value)));
                    lemma_assoc_update(before, i as int, value);
                }
            },
            None => {
                self.keys.push(block.clone());
                self.values.push(value);
                proof {
                    assert(self.entries() =~= before.push((block@, value)));
                    lemma_assoc_push(before, block@, value);
                    assert forall|i: int| 0 <= i < before.len() implies (#[trigger] before[i]).0
                        != block@ by {
                        lemma_assoc_index(before, i);
                    }
                }
            },
        }
    }

    /// Takes the entry at position `i` out.
    pub fn remove_at(&mut self, i: usize) -> (r: V)
        requires
            old(self).wf(),
            i < old(self).entries().len(),
        ensures
            final(self).wf(),
            r == old(self).entries()[i as int].1,
            final(self).entries() == old(self).entries().remove(i as int),
            final(self).map() == old(self).map().remove(old(self).entries()[i as int].0),
    {
        let ghost before = self.entries();
        let _ = self.keys.remove(i);
        let v = self.values.remove(i);
        proof {
            assert(self.entries() =~= before.remove(i as int));
            lemma_assoc_remove(before, i as int);
        }
        v
    }

    /// Takes the entry of `block` out, if there is one.
    pub fn remove(&mut self, block: &BlockId) -> (r: Option<V>)
        requires
            old(self).wf(),
        ensures
            final(self).wf(),
            final(self).map() == old(self).map().remove(block@),
            match r {
                Some(v) => old(self).map().contains_key(block@) && v == old(self).map()[block@],
                None => !old(self).map().contains_key(block@) && final(self).entries() == old(
                    self,
                ).entries(),
            },
            forall|i: int|
                0 <= i < old(self).entries().len() && (#[trigger] old(self).entries()[i]).0
                    == block@ ==> final(self).entries() == old(self).entries().remove(i),
    {
        proof {
            self.lemma_entries();
        }
        match self.position(block) {
            Some(i) => Some(self.remove_at(i)),
            None => {
                assert(self.map().remove(block@) =~= self.map());
                None
            },
        }
    }

    /// Takes every entry out.
    pub fn clear(&mut self)
        ensures
            final(self).wf(),
            final(self).entries() == Seq::<((Seq<char>, usize), V)>::empty(),
            final(self).map() == Map::<(Seq<char>, usize), V>::empty(),
    {
        self.keys.clear();
        self.values.clear();
        assert(self.entries() =~= Seq::<((Seq<char>, usize), V)>::empty());
        assert(self.map() =~= Map::<(Seq<char>, usize), V>::empty());
    }
}

} // verus!
