//! A slot arena: values live in numbered slots, and a freed slot is handed out
//! again before the arena grows.

use vstd::prelude::*;

verus! {

/// Index of a slot in a [`Pool`].
pub type PoolId = usize;

/// Slot-indexed storage with O(1) allocate and free.
///
/// Freed slots go on a stack and are handed out again, the most recently freed
/// first; only when the stack is empty does the pool grow by one slot.
pub struct Pool<T> {
    slots: Vec<T>,
    live: Vec<bool>,
    free: Vec<PoolId>,
    object_count: usize,
}

impl<T> Pool<T> {
    /// The allocated slots and what they hold.
    pub closed spec fn view(&self) -> Map<PoolId, T> {
        Map::new(
            |id: PoolId| id < self.slots.len() && self.live[id as int],
            |id: PoolId| self.slots[id as int],
        )
    }

    /// The freed slots, the one to be reused next at the end.
    pub closed spec fn free_list(&self) -> Seq<PoolId> {
        self.free@
    }

    /// How many slots exist, allocated or freed.
    pub closed spec fn slot_count(&self) -> nat {
        self.slots.len() as nat
    }

    pub closed spec fn wf(&self) -> bool {
        &&& self.live.len() == self.slots.len()
        &&& self.free@.no_duplicates()
        &&& forall|i: int|
            0 <= i < self.free.len() ==> (#[trigger] self.free[i]) < self.slots.len()
                && !self.live[self.free[i] as int]
        &&& forall|id: int|
            0 <= id < self.slots.len() && !(#[trigger] self.live[id]) ==> self.free@.contains(
                id as usize,
            )
        &&& self.object_count + self.free.len() == self.slots.len()
        &&& self@.dom().finite()
        &&& self@.dom().len() == self.object_count
    }

    /// The id that the next allocation returns.
    pub open spec fn next_id(&self) -> PoolId {
        if self.free_list().len() > 0 {
            self.free_list().last()
        } else {
            self.slot_count() as usize
        }
    }

    /// An allocation can be served: a freed slot waits, or the pool can grow.
    pub open spec fn has_room(&self) -> bool {
        self.free_list().len() > 0 || self.slot_count() < usize::MAX
    }

    /// The free list once the next allocation has been served.
    pub open spec fn free_list_after_allocate(&self) -> Seq<PoolId> {
        if self.free_list().len() > 0 {
            self.free_list().drop_last()
        } else {
            self.free_list()
        }
    }

    /// The slot count once the next allocation has been served.
    pub open spec fn slot_count_after_allocate(&self) -> nat {
        if self.free_list().len() > 0 {
            self.slot_count()
        } else {
            self.slot_count() + 1
        }
    }

    /// Every allocated id is below the slot count, which fits a `usize`; so no
    /// allocated id is `usize::MAX`.
    pub proof fn lemma_id_in_range(&self, id: PoolId)
        requires
            self.wf(),
            self@.contains_key(id),
        ensures
            id < self.slot_count() <= usize::MAX,
    {
    }

    /// Every slot is allocated or freed, and none is both.
    pub proof fn lemma_count(&self)
        requires
            self.wf(),
        ensures
            self@.dom().finite(),
            self@.dom().len() + self.free_list().len() == self.slot_count(),
    {
    }

    /// The slot count fits a `usize`.
    pub proof fn lemma_slot_count_fits(&self)
        ensures
            self.slot_count() <= usize::MAX,
    {
    }

    pub fn new() -> (pool: Pool<T>)
        ensures
            pool.wf(),
            pool@ == Map::<PoolId, T>::empty(),
            pool.free_list() == Seq::<PoolId>::empty(),
            pool.slot_count() == 0,
    {
        let pool = Pool { slots: Vec::new(), live: Vec::new(), free: Vec::new(), object_count: 0 };
        assert(pool@ =~= Map::<PoolId, T>::empty());
        assert(pool@.dom() =~= Set::<PoolId>::empty());
        pool
    }

    /// Number of allocated slots.
    pub fn len(&self) -> (n: usize)
        requires
            self.wf(),
        ensures
            n == self@.dom().len(),
            n + self.free_list().len() == self.slot_count(),
    {
        self.object_count
    }

    /// Whether `id` names an allocated slot.
    pub fn contains(&self, id: PoolId) -> (b: bool)
        requires
            self.wf(),
        ensures
            b == self@.contains_key(id),
    {
        id < self.slots.len() && self.live[id]
    }

    pub fn get(&self, id: PoolId) -> (value: &T)
        requires
            self.wf(),
            self@.contains_key(id),
        ensures
            *value == self@[id],
    {
        &self.slots[id]
    }

    pub fn get_mut(&mut self, id: PoolId) -> (value: &mut T)
        requires
            old(self).wf(),
            old(self)@.contains_key(id),
        ensures
            *value == old(self)@[id],
            final(self)@ == old(self)@.insert(id, *final(value)),
            final(self).wf(),
            final(self).free_list() == old(self).free_list(),
            final(self).slot_count() == old(self).slot_count(),
    {
        let ghost before = *self;
        let value = &mut self.slots[id];
        proof {
            let after = Pool {
                slots: after_borrow(self.slots),
                live: self.live,
                free: self.free,
                object_count: self.object_count,
            };
            assert(after@ =~= before@.insert(id, *final(value)));
            assert(after@.dom() =~= before@.dom());
        }
        value
    }

    /// Stores `value` in the slot [`Pool::next_id`] and returns that id.
    pub fn allocate_with(&mut self, value: T) -> (id: PoolId)
        requires
            old(self).wf(),
            old(self).has_room(),
        ensures
            final(self).wf(),
            id == old(self).next_id(),
            !old(self)@.contains_key(id),
            final(self)@ == old(self)@.insert(id, value),
            final(self).free_list() == old(self).free_list_after_allocate(),
            final(self).slot_count() == old(self).slot_count_after_allocate(),
    {
        let ghost before = *self;
        let id: PoolId = match self.free.pop() {
            Some(id) => {
                assert(before.free@[before.free@.len() - 1] == id);
                self.slots[id] = value;
                self.live[id] = true;
                id
            },
            None => {
                let id: PoolId = self.slots.len();
                self.slots.push(value);
                self.live.push(true);
                id
            },
        };
        self.object_count = self.object_count + 1;
        proof {
            assert(self@ =~= before@.insert(id, value));
            assert(self@.dom() =~= before@.dom().insert(id));
            assert(self.free@.no_duplicates());
            assert forall|other: int|
                0 <= other < self.slots.len() && !(#[trigger] self.live[other]) implies self.free@.contains(
                other as usize,
            ) by {
                assert(!before.live[other]);
                let i = choose|i: int| 0 <= i < before.free@.len() && before.free@[i] == other as usize;
                assert(i < self.free@.len());
                assert(self.free@[i] == other as usize);
            }
        }
        id
    }

    /// Returns slot `id` to the pool; it is the next to be handed out.
    pub fn free(&mut self, id: PoolId)
        requires
            old(self).wf(),
            old(self)@.contains_key(id),
        ensures
            final(self).wf(),
            final(self)@ == old(self)@.remove(id),
            final(self).free_list() == old(self).free_list().push(id),
            final(self).slot_count() == old(self).slot_count(),
    {
        let ghost before = *self;
        self.live[id] = false;
        self.free.push(id);
        proof {
            assert(before@.dom().len() > 0) by {
                assert(before@.dom().contains(id));
            }
        }
        self.object_count = self.object_count - 1;
        proof {
            assert(self@ =~= before@.remove(id));
            assert(self@.dom() =~= before@.dom().remove(id));
            assert forall|i: int, j: int|
                0 <= i < self.free@.len() && 0 <= j < self.free@.len() && i != j implies self.free@[i]
                != self.free@[j] by {
                if i < before.free@.len() {
                    assert(before.free@[i] == self.free@[i]);
                }
                if j < before.free@.len() {
                    assert(before.free@[j] == self.free@[j]);
                }
            }
            assert forall|other: int|
                0 <= other < self.slots.len() && !(#[trigger] self.live[other]) implies self.free@.contains(
                other as usize,
            ) by {
                if other == id {
                    assert(self.free@[self.free@.len() - 1] == id);
                } else {
                    assert(!before.live[other]);
                    let i = choose|i: int| 0 <= i < before.free@.len() && before.free@[i] == other as usize;
                    assert(self.free@[i] == other as usize);
                }
            }
        }
    }
}

impl<T: Default> Pool<T> {
    /// Stores a default value in the slot [`Pool::next_id`] and returns that id.
    pub fn allocate(&mut self) -> (id: PoolId)
        requires
            old(self).wf(),
            old(self).has_room(),
        ensures
            final(self).wf(),
            id == old(self).next_id(),
            !old(self)@.contains_key(id),
            final(self)@.contains_key(id),
            call_ensures(T::default, (), final(self)@[id]),
            final(self)@ == old(self)@.insert(id, final(self)@[id]),
            final(self).free_list() == old(self).free_list_after_allocate(),
            final(self).slot_count() == old(self).slot_count_after_allocate(),
    {
        self.allocate_with(T::default())
    }
}

impl<T> Default for Pool<T> {
    fn default() -> (pool: Pool<T>)
        ensures
            pool.wf(),
            pool@ == Map::<PoolId, T>::empty(),
            pool.free_list() == Seq::<PoolId>::empty(),
            pool.slot_count() == 0,
    {
        Pool::new()
    }
}

} // verus!
