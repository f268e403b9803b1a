use vstd::prelude::*;

verus! {

/// A generational handle to an entity: `index` names a slot, `generation`
/// tells apart the successive occupants of that slot.
#[derive(Clone, Copy, Debug, PartialEq, Eq, Structural, Hash)]
pub struct EntityId {
    pub index: u32,
    pub generation: u32,
}

/// Issues entity handles and recycles their slots.
///
/// `generations[i]` is the current generation of slot `i`; `free_list` holds
/// the slots handed back, the most recent last.
pub struct EntityAllocator {
    generations: Vec<u32>,
    free_list: Vec<u32>,
}

/// The state of an allocator after `allocate` returned `e` from state `pre`.
pub open spec fn allocated(pre: &EntityAllocator, post: &EntityAllocator, e: EntityId) -> bool {
    if pre.free_list().len() > 0 {
        &&& e.index == pre.free_list().last()
        &&& e.generation == pre.generations()[e.index as int]
        &&& post.generations() == pre.generations()
        &&& post.free_list() == pre.free_list().drop_last()
    } else {
        &&& e.index == pre.generations().len()
        &&& e.generation == 0
        &&& post.generations() == pre.generations().push(0)
        &&& post.free_list() == pre.free_list()
    }
}

/// The state of an allocator after `deallocate(e)` from state `pre`.
pub open spec fn deallocated(pre: &EntityAllocator, e: EntityId, post: &EntityAllocator) -> bool {
    if pre.spec_is_alive(e) {
        &&& post.generations() == pre.generations().update(
            e.index as int,
            (e.generation + 1) as u32,
        )
        &&& post.free_list() == pre.free_list().push(e.index)
    } else {
        &&& post.generations() == pre.generations()
        &&& post.free_list() == pre.free_list()
    }
}

impl EntityAllocator {
    /// The generation of each slot.
    pub closed spec fn generations(&self) -> Seq<u32> {
        self.generations@
    }

    /// The recycled slots, the next one to be reused last.
    pub closed spec fn free_list(&self) -> Seq<u32> {
        self.free_list@
    }

    pub open spec fn wf(&self) -> bool {
        forall|i: int|
            0 <= i < self.free_list().len() ==> (#[trigger] self.free_list()[i] as int)
                < self.generations().len()
    }

    /// A handle is alive when its slot exists and still carries its generation.
    pub open spec fn spec_is_alive(&self, e: EntityId) -> bool {
        &&& (e.index as int) < self.generations().len()
        &&& self.generations()[e.index as int] == e.generation
    }

    /// The handle the next `allocate` returns: the most recently freed
    /// slot with its current generation, or else a new slot with
    /// generation 0.
    pub open spec fn next_handle(&self) -> EntityId {
        if self.free_list().len() > 0 {
            EntityId {
                index: self.free_list().last(),
                generation: self.generations()[self.free_list().last() as int],
            }
        } else {
            EntityId { index: self.generations().len() as u32, generation: 0 }
        }
    }

    /// Whether one more handle can be issued: a slot can be recycled, or a
    /// new slot still has an index that fits in `u32`.
    pub open spec fn can_allocate(&self) -> bool {
        self.free_list().len() > 0 || self.generations().len() <= u32::MAX
    }

    pub fn new() -> (r: Self)
        ensures
            r.wf(),
            r.generations() == Seq::<u32>::empty(),
            r.free_list() == Seq::<u32>::empty(),
    {
        Self { generations: Vec::new(), free_list: Vec::new() }
    }

    /// Reuses the most recently freed slot with its current generation, or
    /// opens a new slot with generation 0.
    pub fn allocate(&mut self) -> (e: EntityId)
        requires
            old(self).wf(),
            old(self).can_allocate(),
        ensures
            final(self).wf(),
            allocated(old(self), final(self), e),
            e == old(self).next_handle(),
            final(self).spec_is_alive(e),
    {
        match self.free_list.pop() {
            Some(index) => {
                let generation = self.generations[index as usize];
                EntityId { index, generation }
            },
            None => {
                let index = self.generations.len() as u32;
                self.generations.push(0);
                EntityId { index, generation: 0 }
            },
        }
    }

    /// Ends the life of `entity`: its slot's generation goes up by one and
    /// the slot is queued for reuse. A handle that is not alive (stale, or
    /// of a slot never issued) leaves the allocator as it is.
    pub fn deallocate(&mut self, entity: EntityId)
        requires
            old(self).wf(),
            old(self).spec_is_alive(entity) ==> entity.generation < u32::MAX,
        ensures
            final(self).wf(),
            deallocated(old(self), entity, final(self)),
    {
        let index = entity.index as usize;
        if index < self.generations.len() && self.generations[index] == entity.generation {
            self.generations.set(index, entity.generation + 1);
            self.free_list.push(entity.index);
            assert forall|i: int| 0 <= i < self.free_list().len() implies (
            #[trigger] self.free_list()[i] as int) < self.generations().len() by {
                if i < old(self).free_list().len() {
                    assert(self.free_list()[i] == old(self).free_list()[i]);
                }
            }
        }
    }

    /// Whether another handle can be issued.
    pub fn has_capacity(&self) -> (r: bool)
        ensures
            r == self.can_allocate(),
    {
        self.free_list.len() > 0 || self.generations.len() <= u32::MAX as usize
    }

    /// Whether `entity` is the current occupant of its slot.
    pub fn is_alive(&self, entity: EntityId) -> (r: bool)
        ensures
            r == self.spec_is_alive(entity),
    {
        let index = entity.index as usize;
        index < self.generations.len() && self.generations[index] == entity.generation
    }
}

/// After `allocate` gave `h` and `deallocate(h)` handed it back, `h` is no
/// longer alive; the next `allocate` reuses the slot of `h` with a strictly
/// greater generation, and `h` stays dead.
pub proof fn lemma_generational_safety(
    a0: &EntityAllocator,
    a1: &EntityAllocator,
    a2: &EntityAllocator,
    a3: &EntityAllocator,
    h: EntityId,
    h2: EntityId,
)
    requires
        a0.wf(),
        allocated(a0, a1, h),
        h.generation < u32::MAX,
        deallocated(a1, h, a2),
        allocated(a2, a3, h2),
    ensures
        a1.spec_is_alive(h),
        !a2.spec_is_alive(h),
        h2.index == h.index,
        h2.generation > h.generation,
        !a3.spec_is_alive(h),
{
}

/// Where each entity lives: slot `i` holds the archetype and row of the
/// entity with index `i`, if any.
pub struct EntityLocationMap {
    slots: Vec<Option<(usize, usize)>>,
}

impl EntityLocationMap {
    /// The location recorded for each entity index.
    pub closed spec fn slots(&self) -> Seq<Option<(usize, usize)>> {
        self.slots@
    }

    /// The location of `entity`, if one is recorded.
    pub open spec fn spec_get(&self, entity: EntityId) -> Option<(usize, usize)> {
        if (entity.index as int) < self.slots().len() {
            self.slots()[entity.index as int]
        } else {
            None
        }
    }

    pub fn new() -> (r: Self)
        ensures
            r.slots() == Seq::<Option<(usize, usize)>>::empty(),
    {
        Self { slots: Vec::new() }
    }

    /// Records `location` for `entity`, growing the map with empty slots as
    /// needed.
    pub fn insert(&mut self, entity: EntityId, location: (usize, usize))
        ensures
            final(self).slots().len() == if (entity.index as int) < old(self).slots().len() {
                old(self).slots().len() as int
            } else {
                entity.index as int + 1
            },
            forall|i: int|
                0 <= i < final(self).slots().len() ==> #[trigger] final(self).slots()[i] == if i
                    == entity.index as int {
                    Some(location)
                } else if i < old(self).slots().len() {
                    old(self).slots()[i]
                } else {
                    None
                },
    {
        let idx = entity.index as usize;
        while self.slots.len() <= idx
            invariant
                old(self).slots().len() <= self.slots().len(),
                (idx as int) < old(self).slots().len() ==> self.slots() == old(self).slots(),
                old(self).slots().len() <= idx as int ==> self.slots().len() <= idx as int + 1,
                forall|i: int|
                    0 <= i < self.slots().len() ==> #[trigger] self.slots()[i] == if i < old(
                        self,
                    ).slots().len() {
                        old(self).slots()[i]
                    } else {
                        None
                    },
            decreases idx + 1 - self.slots().len(),
        {
            self.slots.push(None);
        }
        self.slots.set(idx, Some(location));
    }

    /// The location recorded for `entity`.
    pub fn get(&self, entity: EntityId) -> (r: Option<(usize, usize)>)
        ensures
            r == self.spec_get(entity),
    {
        let idx = entity.index as usize;
        if idx < self.slots.len() {
            self.slots[idx]
        } else {
            None
        }
    }

    /// Forgets the location of `entity`; an index never recorded is ignored.
    pub fn remove(&mut self, entity: EntityId)
        ensures
            final(self).slots() == if (entity.index as int) < old(self).slots().len() {
                old(self).slots().update(entity.index as int, None)
            } else {
                old(self).slots()
            },
    {
        let idx = entity.index as usize;
        if idx < self.slots.len() {
            self.slots.set(idx, None);
        }
    }
}

} // verus!
