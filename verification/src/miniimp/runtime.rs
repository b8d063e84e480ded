//! The memory of a running MiniImp program.
use vstd::prelude::*;
use crate::common::bindings::{
    bindings_map, last_binding, lemma_bindings_map_lookup, lemma_bindings_map_update,
    lemma_last_binding_found,
};

verus! {

/// The memory of a running MiniImp program: the value of each variable
/// that has one.
pub struct Memory {
    entries: Vec<(String, i64)>,
}

impl View for Memory {
    type V = Map<Seq<char>, i64>;

    closed spec fn view(&self) -> Map<Seq<char>, i64> {
        bindings_map(self.entries@)
    }
}

impl Memory {
    /// An empty memory.
    pub fn new() -> (r: Memory)
        ensures
            r@ == Map::<Seq<char>, i64>::empty(),
    {
        let r = Memory { entries: Vec::new() };
        assert(r.entries@.len() == 0);
        r
    }

    /// Where the last binding of `name` is, if any.
    fn find(&self, name: &String) -> (r: Option<usize>)
        ensures
            match r {
                Some(i) => last_binding(self.entries@, name@, self.entries@.len() as int) == Some(
                    i as int,
                ),
                None => last_binding(self.entries@, name@, self.entries@.len() as int) is None,
            },
    {
        let mut i = self.entries.len();
        while i > 0
            invariant
                i <= self.entries@.len(),
                last_binding(self.entries@, name@, self.entries@.len() as int)
                    == last_binding(self.entries@, name@, i as int),
            decreases i,
        {
            if self.entries[i - 1].0.eq(name) {
                return Some(i - 1);
            }
            i = i - 1;
        }
        None
    }

    /// Gives `name` the value `value`.
    pub fn insert(&mut self, name: String, value: i64)
        ensures
            final(self)@ == old(self)@.insert(name@, value),
    {
        match self.find(&name) {
            Some(i) => {
                proof {
                    lemma_last_binding_found(self.entries@, name@, self.entries@.len() as int);
                    lemma_bindings_map_update(self.entries@, i as int, name, value);
                }
                self.entries.set(i, (name, value));
            },
            None => {
                self.entries.push((name, value));
                assert(self.entries@.drop_last() =~= old(self).entries@);
            },
        }
    }

    /// The value of `name`, if it has one.
    pub fn get(&self, name: &String) -> (r: Option<i64>)
        ensures
            match r {
                Some(v) => self@.dom().contains(name@) && v == self@[name@],
                None => !self@.dom().contains(name@),
            },
    {
        proof {
            lemma_bindings_map_lookup(self.entries@, name@);
        }
        match self.find(name) {
            Some(i) => {
                proof {
                    lemma_last_binding_found(self.entries@, name@, self.entries@.len() as int);
                }
                Some(self.entries[i].1)
            },
            None => None,
        }
    }

    /// A copy of the memory.
    pub fn copy(&self) -> (r: Memory)
        ensures
            r@ == self@,
    {
        let mut entries: Vec<(String, i64)> = Vec::new();
        let mut i: usize = 0;
        while i < self.entries.len()
            invariant
                i <= self.entries@.len(),
                entries@ == self.entries@.subrange(0, i as int),
            decreases self.entries@.len() - i,
        {
            entries.push((self.entries[i].0.clone(), self.entries[i].1));
            i = i + 1;
            assert(entries@ =~= self.entries@.subrange(0, i as int));
        }
        assert(entries@ =~= self.entries@);
        Memory { entries }
    }
}

impl Clone for Memory {
    fn clone(&self) -> (r: Memory)
        ensures
            r@ == self@,
    {
        self.copy()
    }
}

} // verus!
