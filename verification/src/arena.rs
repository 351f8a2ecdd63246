//! Generational-free index store backing graph nodes and nexuses.
//!
//! An [`Arena`] is a dense sequence with an embedded free-list. Each slot is
//! either free (holding the next free slot) or occupied by a value. Insertion
//! reuses the free-list head; removal pushes the slot onto the free-list.

use vstd::prelude::*;

verus! {

enum Entry<T> {
    Free { next: Option<usize> },
    Occupied { value: T },
}

/// Opaque, stable index into an [`Arena`].
#[derive(Clone, Copy, Debug, PartialEq, Eq, Structural, Hash)]
pub struct Handle(pub usize);

impl Handle {
    pub fn index(self) -> (r: usize)
        ensures
            r == self.0,
    {
        self.0
    }
}

/// Dense store with an embedded free-list and stable handles.
///
/// The abstract value is a sequence of optional values, one per slot;
/// free slots are `None`.
pub struct Arena<T> {
    list: Vec<Entry<T>>,
    free: Option<usize>,
    free_order: Ghost<Seq<usize>>,
}

impl<T> View for Arena<T> {
    type V = Seq<Option<T>>;

    closed spec fn view(&self) -> Seq<Option<T>> {
        self.list@.map(
            |_i: int, e: Entry<T>|
                match e {
                    Entry::Occupied { value } => Some(value),
                    Entry::Free { .. } => None,
                },
        )
    }
}

impl<T> Arena<T> {
    /// Slot `fo[k]` is free and chains to the following free slot.
    spec fn chain_ok(list: Seq<Entry<T>>, fo: Seq<usize>, k: int) -> bool {
        &&& fo[k] < list.len()
        &&& list[fo[k] as int] matches Entry::Free { next } && next == (if k + 1 < fo.len() {
            Some(fo[k + 1])
        } else {
            None
        })
    }

    /// The head of the free-list: the slot the next insertion reuses.
    pub closed spec fn spec_free_head(&self) -> Option<usize> {
        self.free
    }

    /// The free-list is a duplicate-free chain covering exactly the free slots.
    pub closed spec fn wf(&self) -> bool {
        let fo = self.free_order@;
        &&& match self.free {
            Some(i) => fo.len() > 0 && fo[0] == i,
            None => fo.len() == 0,
        }
        &&& forall|k: int| #![trigger fo[k]] 0 <= k < fo.len() ==> Self::chain_ok(self.list@, fo, k)
        &&& fo.no_duplicates()
        &&& forall|j: usize|
            j < self.list@.len() && (#[trigger] self.list@[j as int]) is Free ==> fo.contains(j)
    }

    pub fn new() -> (r: Arena<T>)
        ensures
            r.wf(),
            r@ =~= Seq::<Option<T>>::empty(),
    {
        Arena { list: Vec::new(), free: None, free_order: Ghost(Seq::empty()) }
    }

    pub fn get(&self, handle: Handle) -> (r: Option<&T>)
        ensures
            match r {
                Some(v) => handle.0 < self@.len() && self@[handle.0 as int] == Some(*v),
                None => handle.0 >= self@.len() || self@[handle.0 as int] is None,
            },
    {
        match self.list.get(handle.0) {
            Some(Entry::Occupied { value }) => Some(value),
            _ => None,
        }
    }

    pub fn get_mut(&mut self, handle: Handle) -> (r: Option<&mut T>)
        requires
            old(self).wf(),
        ensures
            match r {
                Some(v) => {
                    &&& handle.0 < old(self)@.len()
                    &&& old(self)@[handle.0 as int] == Some(*v)
                    &&& final(self)@ =~= old(self)@.update(handle.0 as int, Some(*final(v)))
                },
                None => {
                    &&& handle.0 >= old(self)@.len() || old(self)@[handle.0 as int] is None
                    &&& final(self)@ == old(self)@
                },
            },
            final(self).wf(),
    {
        if handle.0 < self.list.len() {
            let is_occ = match &self.list[handle.0] {
                Entry::Occupied { .. } => true,
                _ => false,
            };
            if is_occ {
                let entry = &mut self.list[handle.0];
                match entry {
                    Entry::Occupied { value } => Some(value),
                    _ => {
                        proof {
                            assert(false);
                        }
                        None
                    },
                }
            } else {
                None
            }
        } else {
            None
        }
    }

    /// Insert a value, reusing the most recently freed slot if one exists.
    pub fn insert(&mut self, element: T) -> (r: Handle)
        requires
            old(self).wf(),
        ensures
            final(self).wf(),
            old(self).spec_free_head() matches Some(i) ==> r.0 == i,
            old(self).spec_free_head() is None ==> r.0 == old(self)@.len(),
            r.0 < final(self)@.len(),
            final(self)@[r.0 as int] == Some(element),
            r.0 < old(self)@.len() ==> old(self)@[r.0 as int] is None && final(self)@ == old(self)@.update(r.0 as int, Some(element)),
            r.0 >= old(self)@.len() ==> r.0 == old(self)@.len() && final(self)@ == old(self)@.push(Some(element)),
    {
        match self.free {
            Some(free) => {
                proof {
                    assert(self.free_order@[0] == free);
                    assert(Self::chain_ok(self.list@, self.free_order@, 0));
                }
                let handle = Handle(free);
                let next = match &self.list[free] {
                    Entry::Free { next } => *next,
                    _ => {
                        proof {
                            assert(false);
                        }
                        None
                    },
                };
                self.free = next;
                self.list[free] = Entry::Occupied { value: element };
                proof {
                    let fo = self.free_order@;
                    self.free_order = Ghost(fo.drop_first());
                    assert forall|k: int|
                        0 <= k < self.free_order@.len() implies Self::chain_ok(
                        self.list@,
                        self.free_order@,
                        k,
                    ) by {
                        assert(self.free_order@[k] == fo[k + 1]);
                        assert(Self::chain_ok(old(self).list@, fo, k + 1));
                        assert(fo[k + 1] != fo[0]);
                    }
                    assert forall|j: usize|
                        j < self.list@.len() && (#[trigger] self.list@[j as int])
                            is Free implies self.free_order@.contains(j) by {
                        assert(old(self).list@[j as int] is Free);
                        assert(fo.contains(j));
                        let k = choose|k: int| 0 <= k < fo.len() && fo[k] == j;
                        assert(k != 0) by {
                            if k == 0 {
                                assert(j == free);
                                assert(self.list@[j as int] is Occupied);
                            }
                        }
                        assert(self.free_order@[k - 1] == j);
                    }
                    assert(self@ =~= old(self)@.update(free as int, Some(element)));
                }
                handle
            },
            None => {
                let handle = Handle(self.list.len());
                self.list.push(Entry::Occupied { value: element });
                proof {
                    assert(self@ =~= old(self)@.push(Some(element)));
                }
                handle
            },
        }
    }

    /// Insert a value that learns its own handle before storage completes.
    ///
    /// The handle passed to `f` is the handle under which the produced value
    /// is stored, valid for reads as soon as this call returns.
    pub fn insert_with<F: FnOnce(Handle) -> T>(&mut self, f: F) -> (r: Handle)
        requires
            old(self).wf(),
            forall|h: Handle| #[trigger] call_requires(f, (h,)),
        ensures
            final(self).wf(),
            old(self).spec_free_head() matches Some(i) ==> r.0 == i,
            old(self).spec_free_head() is None ==> r.0 == old(self)@.len(),
            r.0 < final(self)@.len(),
            exists|v: T|
                #[trigger] call_ensures(f, (r,), v) && final(self)@[r.0 as int] == Some(v)
                    && final(self)@ == (if r.0 < old(self)@.len() {
                    old(self)@.update(r.0 as int, Some(v))
                } else {
                    old(self)@.push(Some(v))
                }),
            r.0 < old(self)@.len() ==> old(self)@[r.0 as int] is None && final(self)@.len() == old(self)@.len(),
            r.0 >= old(self)@.len() ==> r.0 == old(self)@.len() && final(self)@.len() == old(self)@.len() + 1,
    {
        match self.free {
            Some(free) => {
                proof {
                    assert(self.free_order@[0] == free);
                    assert(Self::chain_ok(self.list@, self.free_order@, 0));
                }
                let handle = Handle(free);
                let next = match &self.list[free] {
                    Entry::Free { next } => *next,
                    _ => {
                        proof {
                            assert(false);
                        }
                        None
                    },
                };
                let value = f(handle);
                self.free = next;
                self.list[free] = Entry::Occupied { value };
                proof {
                    let fo = self.free_order@;
                    self.free_order = Ghost(fo.drop_first());
                    assert forall|k: int|
                        0 <= k < self.free_order@.len() implies Self::chain_ok(
                        self.list@,
                        self.free_order@,
                        k,
                    ) by {
                        assert(self.free_order@[k] == fo[k + 1]);
                        assert(Self::chain_ok(old(self).list@, fo, k + 1));
                        assert(fo[k + 1] != fo[0]);
                    }
                    assert forall|j: usize|
                        j < self.list@.len() && (#[trigger] self.list@[j as int])
                            is Free implies self.free_order@.contains(j) by {
                        assert(old(self).list@[j as int] is Free);
                        assert(fo.contains(j));
                        let k = choose|k: int| 0 <= k < fo.len() && fo[k] == j;
                        assert(k != 0) by {
                            if k == 0 {
                                assert(j == free);
                                assert(self.list@[j as int] is Occupied);
                            }
                        }
                        assert(self.free_order@[k - 1] == j);
                    }
                }
                handle
            },
            None => {
                let handle = Handle(self.list.len());
                let value = f(handle);
                self.list.push(Entry::Occupied { value });
                handle
            },
        }
    }

    /// Remove a value; the freed slot becomes the head of the free-list.
    #[verifier::rlimit(50)]
    pub fn remove(&mut self, handle: Handle) -> (r: Option<T>)
        requires
            old(self).wf(),
        ensures
            final(self).wf(),
            r is Some ==> final(self).spec_free_head() == Some(handle.0),
            r is None ==> final(self).spec_free_head() == old(self).spec_free_head(),
            match r {
                Some(v) => {
                    &&& handle.0 < old(self)@.len()
                    &&& old(self)@[handle.0 as int] == Some(v)
                    &&& final(self)@ == old(self)@.update(handle.0 as int, None::<T>)
                },
                None => {
                    &&& handle.0 >= old(self)@.len() || old(self)@[handle.0 as int] is None
                    &&& final(self)@ == old(self)@
                },
            },
    {
        if handle.0 >= self.list.len() {
            return None;
        }
        let is_occ = match &self.list[handle.0] {
            Entry::Occupied { .. } => true,
            _ => false,
        };
        if !is_occ {
            return None;
        }
        let mut taken = Entry::Free { next: self.free };
        core::mem::swap(&mut self.list[handle.0], &mut taken);
        self.free = Some(handle.0);
        proof {
            let fo = self.free_order@;
            self.free_order = Ghost(seq![handle.0].add(fo));
            assert(!fo.contains(handle.0)) by {
                if fo.contains(handle.0) {
                    let k = choose|k: int| 0 <= k < fo.len() && fo[k] == handle.0;
                    assert(Self::chain_ok(old(self).list@, fo, k));
                    assert(false);
                }
            }
            assert forall|k: int|
                0 <= k < self.free_order@.len() implies Self::chain_ok(
                self.list@,
                self.free_order@,
                k,
            ) by {
                if k > 0 {
                    assert(self.free_order@[k] == fo[k - 1]);
                    assert(Self::chain_ok(old(self).list@, fo, k - 1));
                    assert(fo[k - 1] != handle.0);
                    assert(self.list@[fo[k - 1] as int] == old(self).list@[fo[k - 1] as int]);
                } else {
                    assert(self.free_order@[0] == handle.0);
                    if fo.len() > 0 {
                        assert(self.free_order@[1] == fo[0]);
                    }
                }
            }
            assert(self.free_order@.no_duplicates());
            assert forall|j: usize|
                j < self.list@.len() && (#[trigger] self.list@[j as int])
                    is Free implies self.free_order@.contains(j) by {
                if j == handle.0 {
                    assert(self.free_order@[0] == handle.0);
                } else {
                    assert(old(self).list@[j as int] is Free);
                    assert(fo.contains(j));
                    let k = choose|k: int| 0 <= k < fo.len() && fo[k] == j;
                    assert(self.free_order@[k + 1] == j);
                }
            }
            assert(self@ =~= old(self)@.update(handle.0 as int, None::<T>));
        }
        match taken {
            Entry::Occupied { value } => Some(value),
            _ => {
                proof {
                    assert(false);
                }
                None
            },
        }
    }

    /// Number of slots (occupied and free) this arena has ever allocated.
    pub fn slot_count(&self) -> (r: usize)
        ensures
            r == self@.len(),
    {
        self.list.len()
    }

    /// Iteration over live slots, in handle order.
    pub fn iter(&self) -> (r: Iter<'_, T>)
        ensures
            r.spec_arena() == self@,
            r.spec_index() == 0,
    {
        Iter { arena: self, index: 0 }
    }
}

impl<T> Default for Arena<T> {
    fn default() -> (r: Self)
        ensures
            r.wf(),
            r@ =~= Seq::<Option<T>>::empty(),
    {
        Arena::new()
    }
}

/// Cursor over the occupied slots of an [`Arena`], in handle order.
pub struct Iter<'a, T> {
    arena: &'a Arena<T>,
    index: usize,
}

impl<'a, T> Iter<'a, T> {
    pub closed spec fn spec_arena(&self) -> Seq<Option<T>> {
        self.arena@
    }

    pub closed spec fn spec_index(&self) -> usize {
        self.index
    }

    /// The next occupied slot at or after the cursor, if any.
    pub fn next(&mut self) -> (r: Option<(Handle, &'a T)>)
        requires
            old(self).spec_index() <= old(self).spec_arena().len(),
        ensures
            final(self).spec_arena() == old(self).spec_arena(),
            match r {
                Some((h, v)) => {
                    &&& old(self).spec_index() <= h.0 < old(self).spec_arena().len()
                    &&& old(self).spec_arena()[h.0 as int] == Some(*v)
                    &&& forall|j: int|
                        old(self).spec_index() <= j < h.0 ==> old(self).spec_arena()[j] is None
                    &&& final(self).spec_index() == h.0 + 1
                },
                None => {
                    &&& forall|j: int|
                        old(self).spec_index() <= j < old(self).spec_arena().len() ==> old(self).spec_arena()[j] is None
                    &&& final(self).spec_index() == old(self).spec_arena().len()
                },
            },
    {
        while self.index < self.arena.list.len()
            invariant
                self.arena@ == old(self).spec_arena(),
                self.arena == old(self).arena,
                old(self).spec_index() <= self.index <= self.arena.list.len(),
                forall|j: int| old(self).spec_index() <= j < self.index ==> self.arena@[j] is None,
            decreases self.arena.list@.len() - self.index,
        {
            let i = self.index;
            self.index = i + 1;
            match &self.arena.list[i] {
                Entry::Occupied { value } => {
                    return Some((Handle(i), value));
                },
                _ => {},
            }
        }
        None
    }
}

} // verus!
