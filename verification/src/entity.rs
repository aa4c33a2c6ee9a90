//! Entity handles and the directory that tells where each live entity is stored.

use crate::archetype::ArchetypeId;
use vstd::prelude::*;

verus! {

/// Handle of an entity: a slot of the directory and the generation the slot
/// had when the handle was issued.
#[derive(Clone, Copy, Debug, PartialEq, Eq, Structural, Hash)]
pub struct Entity {
    pub index: usize,
    pub generation: u32,
}

impl Entity {
    pub fn index(&self) -> (r: usize)
        ensures
            r == self.index,
    {
        self.index
    }

    pub fn generation(&self) -> (r: u32)
        ensures
            r == self.generation,
    {
        self.generation
    }
}

/// Where the dense components of an entity are stored.
#[derive(Clone, Copy, Debug, PartialEq, Eq, Structural, Hash)]
pub struct Location {
    pub archetype: ArchetypeId,
    pub row: usize,
}

#[derive(Clone, Copy)]
struct Slot {
    generation: u32,
    location: Option<Location>,
}

/// The entity directory.
///
/// A slot whose generation has reached `u32::MAX` is never handed out again,
/// so a generation never wraps around to one that an old handle carries.
pub struct Entities {
    slots: Vec<Slot>,
    free: Vec<usize>,
}

impl View for Entities {
    type V = Map<Entity, Location>;

    /// The live entities, each with its location.
    closed spec fn view(&self) -> Map<Entity, Location> {
        Map::new(
            |e: Entity|
                e.index < self.slots@.len() && self.slots@[e.index as int].generation
                    == e.generation && self.slots@[e.index as int].location.is_some(),
            |e: Entity| self.slots@[e.index as int].location.unwrap(),
        )
    }
}

impl Entities {
    pub closed spec fn wf(&self) -> bool {
        &&& forall|i: int|
            0 <= i < self.slots@.len() && (#[trigger] self.slots@[i]).location.is_some()
                ==> self.slots@[i].generation < u32::MAX
        &&& forall|k: int|
            0 <= k < self.free@.len() ==> (#[trigger] self.free@[k]) < self.slots@.len()
                && self.slots@[self.free@[k] as int].location.is_none()
                && self.slots@[self.free@[k] as int].generation < u32::MAX
        &&& forall|j: int, k: int|
            0 <= j < k < self.free@.len() ==> #[trigger] self.free@[j] != #[trigger] self.free@[k]
    }

    /// The handle was issued once and its entity has been despawned since.
    /// Such a handle never becomes live again.
    pub closed spec fn is_retired(&self, e: Entity) -> bool {
        e.index < self.slots@.len() && e.generation < self.slots@[e.index as int].generation
    }

    /// The handle that the next `spawn` hands out: the slot that was freed
    /// last, with the generation it has now, or a new slot if none is free.
    pub closed spec fn next_handle(&self) -> Entity {
        if self.free@.len() > 0 {
            Entity {
                index: self.free@.last(),
                generation: self.slots@[self.free@.last() as int].generation,
            }
        } else {
            Entity { index: self.slots@.len() as usize, generation: 0 }
        }
    }

    /// A retired handle is not live.
    pub proof fn lemma_retired_not_live(&self, e: Entity)
        requires
            self.is_retired(e),
        ensures
            !self@.contains_key(e),
    {
    }

    /// At most one live handle exists per slot.
    pub proof fn lemma_one_live_per_index(&self, a: Entity, b: Entity)
        requires
            self@.contains_key(a),
            self@.contains_key(b),
            a.index == b.index,
        ensures
            a == b,
    {
    }

    pub fn new() -> (r: Self)
        ensures
            r.wf(),
            r@ == Map::<Entity, Location>::empty(),
            r.next_handle() == (Entity { index: 0, generation: 0 }),
            forall|e: Entity| !r.is_retired(e),
    {
        let r = Entities { slots: Vec::new(), free: Vec::new() };
        assert(r@ =~= Map::<Entity, Location>::empty());
        r
    }

    /// Where `entity` is stored, or `None` for a handle that is not live.
    pub fn resolve(&self, entity: Entity) -> (r: Option<Location>)
        ensures
            r == if self@.contains_key(entity) {
                Some(self@[entity])
            } else {
                None
            },
    {
        if entity.index < self.slots.len() {
            let slot = self.slots[entity.index];
            if slot.generation == entity.generation {
                return slot.location;
            }
        }
        None
    }

    pub fn contains(&self, entity: Entity) -> (r: bool)
        ensures
            r == self@.contains_key(entity),
    {
        self.resolve(entity).is_some()
    }

    /// The live entity that occupies slot `index`, if there is one.
    pub fn live_at(&self, index: usize) -> (r: Option<Entity>)
        ensures
            match r {
                Some(e) => e.index == index && self@.contains_key(e),
                None => forall|e: Entity| e.index == index ==> !self@.contains_key(e),
            },
    {
        if index < self.slots.len() {
            let slot = self.slots[index];
            if slot.location.is_some() {
                return Some(Entity { index, generation: slot.generation });
            }
        }
        None
    }

    /// Makes a new live entity stored at `location`.  A freed slot is reused
    /// if there is one.
    pub fn spawn(&mut self, location: Location) -> (e: Entity)
        requires
            old(self).wf(),
        ensures
            final(self).wf(),
            e == old(self).next_handle(),
            forall|x: Entity| x.index == e.index ==> !old(self)@.contains_key(x),
            !old(self).is_retired(e),
            final(self)@ == old(self)@.insert(e, location),
            forall|x: Entity| final(self).is_retired(x) == old(self).is_retired(x),
    {
        match self.free.pop() {
            Some(index) => {
                let generation: u32 = self.slots[index].generation;
                self.slots[index] = Slot { generation, location: Some(location) };
                let e = Entity { index, generation };
                proof {
                    let last = old(self).free@.len() - 1;
                    assert(old(self).free@[last] == index);
                    assert forall|k: int| 0 <= k < self.free@.len() implies self.free@[k]
                        != index by {
                        assert(self.free@[k] == old(self).free@[k]);
                    }
                    assert(final(self)@ =~= old(self)@.insert(e, location));
                }
                e
            },
            None => {
                let index: usize = self.slots.len();
                self.slots.push(Slot { generation: 0, location: Some(location) });
                let e = Entity { index, generation: 0 };
                proof {
                    assert(final(self)@ =~= old(self)@.insert(e, location));
                }
                e
            },
        }
    }

    /// Ends the life of `entity` and returns where it was stored.  A handle
    /// that is not live changes nothing.
    pub fn despawn(&mut self, entity: Entity) -> (r: Option<Location>)
        requires
            old(self).wf(),
        ensures
            final(self).wf(),
            r == if old(self)@.contains_key(entity) {
                Some(old(self)@[entity])
            } else {
                None
            },
            final(self)@ == old(self)@.remove(entity),
            final(self).next_handle() == if old(self)@.contains_key(entity) && entity.generation + 1
                < u32::MAX {
                Entity { index: entity.index, generation: (entity.generation + 1) as u32 }
            } else {
                old(self).next_handle()
            },
            forall|x: Entity|
                final(self).is_retired(x) == (old(self).is_retired(x) || (x == entity
                    && old(self)@.contains_key(entity))),
    {
        match self.resolve(entity) {
            Some(location) => {
                let index: usize = entity.index;
                let generation: u32 = entity.generation + 1;
                self.slots[index] = Slot { generation, location: None };
                if generation < u32::MAX {
                    self.free.push(index);
                }
                proof {
                    assert(final(self)@ =~= old(self)@.remove(entity));
                }
                Some(location)
            },
            None => {
                proof {
                    assert(final(self)@ =~= old(self)@.remove(entity));
                }
                None
            },
        }
    }

    /// Records that the live `entity` is now stored at `location`.
    pub fn set_location(&mut self, entity: Entity, location: Location)
        requires
            old(self).wf(),
            old(self)@.contains_key(entity),
        ensures
            final(self).wf(),
            final(self)@ == old(self)@.insert(entity, location),
            final(self).next_handle() == old(self).next_handle(),
            forall|x: Entity| final(self).is_retired(x) == old(self).is_retired(x),
    {
        self.slots[entity.index] = Slot {
            generation: entity.generation,
            location: Some(location),
        };
        proof {
            assert(final(self)@ =~= old(self)@.insert(entity, location));
        }
    }
}

} // verus!
