//! A small set of integers, used by the interpreter as its dirty sets.
//!
//! The abstract value is a finite `Set<usize>`.

use vstd::prelude::*;

verus! {

/// Duplicate-free bag of node indices.
pub struct IntegerSet {
    items: Vec<usize>,
}

impl View for IntegerSet {
    type V = Set<usize>;

    closed spec fn view(&self) -> Set<usize> {
        self.items@.to_set()
    }
}

impl IntegerSet {
    pub closed spec fn wf(&self) -> bool {
        self.items@.no_duplicates()
    }

    pub fn new() -> (r: IntegerSet)
        ensures
            r.wf(),
            r@ =~= Set::<usize>::empty(),
    {
        let r = IntegerSet { items: Vec::new() };
        proof {
            assert(r.items@.to_set() =~= Set::<usize>::empty());
        }
        r
    }

    pub fn contains(&self, n: usize) -> (r: bool)
        ensures
            r == self@.contains(n),
    {
        let mut i: usize = 0;
        while i < self.items.len()
            invariant
                i <= self.items@.len(),
                forall|j: int| 0 <= j < i ==> self.items@[j] != n,
            decreases self.items@.len() - i,
        {
            if self.items[i] == n {
                proof {
                    assert(self.items@.to_set().contains(n));
                }
                return true;
            }
            i = i + 1;
        }
        proof {
            if self.items@.to_set().contains(n) {
                assert(self.items@.contains(n));
            }
        }
        false
    }

    pub fn insert(&mut self, n: usize)
        requires
            old(self).wf(),
        ensures
            final(self).wf(),
            final(self)@ == old(self)@.insert(n),
    {
        if !self.contains(n) {
            self.items.push(n);
            proof {
                assert(self.items@.drop_last() == old(self).items@);
                assert(self.items@.to_set() =~= old(self).items@.to_set().insert(n)) by {
                    assert forall|x: usize| #[trigger]
                        self.items@.to_set().contains(x) implies old(
                        self,
                    ).items@.to_set().insert(n).contains(x) by {
                        let k = choose|k: int|
                            0 <= k < self.items@.len() && self.items@[k] == x;
                        if k < self.items@.len() - 1 {
                            assert(old(self).items@[k] == x);
                        }
                    }
                    assert forall|x: usize| old(self).items@.to_set().insert(n).contains(
                        x,
                    ) implies #[trigger] self.items@.to_set().contains(x) by {
                        if x == n {
                            assert(self.items@[self.items@.len() - 1] == n);
                        } else {
                            let k = choose|k: int|
                                0 <= k < old(self).items@.len() && old(self).items@[k] == x;
                            assert(self.items@[k] == x);
                        }
                    }
                }
            }
        } else {
            proof {
                assert(self.items@.to_set() =~= old(self).items@.to_set().insert(n));
            }
        }
    }

    pub fn len(&self) -> (r: usize)
        requires
            self.wf(),
        ensures
            r == self@.len(),
    {
        proof {
            self.items@.unique_seq_to_set();
        }
        self.items.len()
    }

    pub fn is_empty(&self) -> (r: bool)
        requires
            self.wf(),
        ensures
            r == (self@.len() == 0),
    {
        proof {
            self.items@.unique_seq_to_set();
        }
        self.items.len() == 0
    }

    /// Remove every element.
    pub fn clear(&mut self)
        ensures
            final(self).wf(),
            final(self)@ =~= Set::<usize>::empty(),
    {
        self.items.clear();
        proof {
            assert(self.items@.to_set() =~= Set::<usize>::empty());
        }
    }
}

impl Default for IntegerSet {
    fn default() -> (r: Self)
        ensures
            r.wf(),
            r@ =~= Set::<usize>::empty(),
    {
        IntegerSet::new()
    }
}

} // verus!
