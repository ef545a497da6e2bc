use vstd::prelude::*;

use crate::entities_container::{EntitiesContainer, EntityCreation, ENTITY_CAPACITY_LIMIT};
use crate::entity::Entity;

verus! {

/// A dense store of values of one type, indexed by entity-like handles:
/// an id allocator with a parallel slot per id.  A slot holds a value
/// exactly while its handle is alive.
pub struct ResourceStore<T> {
    pub elements: Vec<Option<T>>,
    pub entities_container: EntitiesContainer,
}

impl<T> ResourceStore<T> {
    /// The value stored under an alive handle's id.
    pub open spec fn spec_resource(self, id: int) -> T {
        self.elements@[id].unwrap()
    }

    /// Whether the handle refers to a live resource.
    pub open spec fn spec_is_alive(self, entity: Entity) -> bool {
        self.entities_container.spec_is_alive(entity)
    }

    /// The store's invariant: one slot per id, filled exactly while the
    /// id is alive.
    pub open spec fn wf(self) -> bool {
        &&& self.entities_container.wf()
        &&& self.elements@.len() == self.entities_container.capacity
        &&& forall|i: int|
            0 <= i < self.elements@.len() ==> ((#[trigger] self.elements@[i]) is Some
                <==> self.entities_container.spec_alive(i))
    }

    /// Whether one more resource can be created.
    pub open spec fn can_create(self) -> bool {
        self.entities_container.can_create()
    }

    /// An empty store.
    pub fn new() -> (r: ResourceStore<T>)
        ensures
            r.wf(),
            r.entities_container.capacity == 0,
    {
        ResourceStore { elements: Vec::new(), entities_container: EntitiesContainer::new(0) }
    }

    /// An empty store with room for `capacity` resources before the
    /// first growth.
    pub fn with_capacity(capacity: usize) -> (r: ResourceStore<T>)
        requires
            capacity <= ENTITY_CAPACITY_LIMIT,
        ensures
            r.wf(),
            r.entities_container.capacity == capacity,
            forall|i: int| 0 <= i < capacity ==> !r.entities_container.spec_alive(i),
    {
        let entities_container = EntitiesContainer::new(capacity);
        let mut elements: Vec<Option<T>> = Vec::new();
        let mut i: usize = 0;
        while i < capacity
            invariant
                0 <= i <= capacity,
                elements@.len() == i,
                forall|j: int| 0 <= j < i ==> (#[trigger] elements@[j]) is None,
            decreases capacity - i,
        {
            elements.push(None);
            i = i + 1;
        }
        ResourceStore { elements, entities_container }
    }

    /// Stores a value and hands out its handle.
    pub fn create(&mut self, resource: T) -> (r: Entity)
        requires
            old(self).wf(),
            old(self).can_create(),
        ensures
            final(self).wf(),
            final(self).spec_is_alive(r),
            (r.id as int) < final(self).entities_container.capacity,
            final(self).spec_resource(r.id as int) == resource,
            r.id == old(self).entities_container.spec_next_id(),
            r.version == old(self).entities_container.spec_version_or_zero(r.id as int) + 1,
            forall|i: int|
                0 <= i < old(self).entities_container.capacity && i != r.id ==> final(self).elements@[i] == old(self).elements@[i],
            forall|i: int|
                0 <= i < old(self).entities_container.entity_to_is_alive_bitvec@.len() * 32 && i
                    != r.id ==> final(self).entities_container.spec_alive(i) == old(self).entities_container.spec_alive(i),
    {
        let creation = self.entities_container.create_entity();
        let capacity_after = self.entities_container.capacity();
        let ghost ec = self.entities_container;
        while self.elements.len() < capacity_after
            invariant
                self.elements@.len() <= capacity_after,
                old(self).elements@.len() <= self.elements@.len(),
                self.entities_container == ec,
                forall|i: int|
                    0 <= i < old(self).elements@.len() && i < self.elements@.len() ==> (
                    #[trigger] self.elements@[i]) == old(self).elements@[i],
                forall|i: int|
                    old(self).elements@.len() <= i < self.elements@.len() ==> (
                    #[trigger] self.elements@[i]) is None,
            decreases capacity_after - self.elements.len(),
    {
            self.elements.push(None);
        }
        let entity = creation.entity;
        self.elements.set(entity.id as usize, Some(resource));
        proof {
            crate::bitvec_utils::lemma_bit_range(
                entity.id as int,
                self.entities_container.capacity as int,
            );
            assert forall|i: int|
                0 <= i < self.elements@.len() implies ((#[trigger] self.elements@[i]) is Some
                <==> self.entities_container.spec_alive(i)) by {
                if i != entity.id {
                    crate::bitvec_utils::lemma_bit_range(
                        i,
                        self.entities_container.capacity as int,
                    );
                    if i < old(self).elements@.len() {
                        assert(self.elements@[i] == old(self).elements@[i]);
                    } else {
                        assert(self.elements@[i] is None);
                        assert(self.entities_container.spec_alive(i) == (i < old(self).entities_container.entity_to_is_alive_bitvec@.len() * 32 && old(self).entities_container.spec_alive(i)));
                        if i < old(self).entities_container.entity_to_is_alive_bitvec@.len()
                            * 32 {
                            assert(!old(self).entities_container.spec_alive(i)) by {
                                assert(i >= old(self).entities_container.next_free_id);
                            }
                        }
                    }
                }
            }
        }
        entity
    }

    /// Releases the handle and returns its value; the slot empties and
    /// the id goes back to the allocator.
    pub fn release(&mut self, entity: Entity) -> (r: T)
        requires
            old(self).wf(),
            old(self).spec_is_alive(entity),
        ensures
            final(self).wf(),
            r == old(self).spec_resource(entity.id as int),
            !final(self).spec_is_alive(entity),
            forall|i: int|
                0 <= i < old(self).entities_container.capacity && i != entity.id ==> final(self).elements@[i] == old(self).elements@[i],
    {
        let id = entity.id as usize;
        let slot = self.elements.remove(id);
        self.elements.insert(id, None);
        proof {
            assert(self.elements@ =~= old(self).elements@.update(id as int, None));
        }
        self.entities_container.destroy_entity(entity);
        proof {
            assert forall|i: int|
                0 <= i < self.elements@.len() implies ((#[trigger] self.elements@[i]) is Some
                <==> self.entities_container.spec_alive(i)) by {
                crate::bitvec_utils::lemma_bit_range(
                    i,
                    self.entities_container.capacity as int,
                );
                if i != entity.id {
                    assert(self.elements@[i] == old(self).elements@[i]);
                }
            }
        }
        slot.unwrap()
    }

    /// The value stored under an alive handle.
    pub fn get(&self, entity: Entity) -> (r: &T)
        requires
            self.wf(),
            self.spec_is_alive(entity),
        ensures
            *r == self.spec_resource(entity.id as int),
    {
        self.elements[entity.id as usize].as_ref().unwrap()
    }

    /// Replaces the value stored under an alive handle.
    pub fn set(&mut self, entity: Entity, resource: T)
        requires
            old(self).wf(),
            old(self).spec_is_alive(entity),
        ensures
            final(self).wf(),
            final(self).spec_resource(entity.id as int) == resource,
            final(self).entities_container == old(self).entities_container,
            forall|i: int|
                0 <= i < old(self).entities_container.capacity && i != entity.id ==> final(self).elements@[i] == old(self).elements@[i],
    {
        self.elements.set(entity.id as usize, Some(resource));
    }

    /// Whether the handle refers to a live resource.
    pub fn is_alive(&self, entity: Entity) -> (r: bool)
        requires
            self.wf(),
        ensures
            r == self.spec_is_alive(entity),
    {
        self.entities_container.is_alive(entity)
    }
}

} // verus!
