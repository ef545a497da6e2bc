use vstd::prelude::*;

use crate::bitvec_utils;
use crate::entity::Entity;

verus! {

/// The most entity slots a container will ever manage; growth doubles the
/// capacity and must stay below this bound.
pub const ENTITY_CAPACITY_LIMIT: usize = 0x1000_0000;

/// The id allocator: a version counter and an alive bit per entity id,
/// a list of freed ("gap") ids to reuse, and the watermark of the next
/// never-used id.
#[derive(Debug)]
pub struct EntitiesContainer {
    pub gap_ids: Vec<u32>,
    pub capacity: usize,
    pub entity_to_version: Vec<u32>,
    pub entity_to_is_alive_bitvec: Vec<u32>,
    pub next_free_id: u32,
}

/// What `create_entity` reports: the new handle, and the capacity before
/// and after, so the owner can grow its parallel tables.
pub struct EntityCreation {
    pub entity: Entity,
    pub capacity_before: usize,
    pub capacity_after: usize,
}

impl EntitiesContainer {
    /// Whether entity id `id` is currently alive.
    pub open spec fn spec_alive(self, id: int) -> bool {
        bitvec_utils::spec_bit_on(self.entity_to_is_alive_bitvec@, id)
    }

    /// The stored version for entity id `id`.
    pub open spec fn spec_version(self, id: int) -> u32 {
        self.entity_to_version@[id]
    }

    /// What `is_alive` decides: the id is in range, the handle's version
    /// matches the stored one, and the alive bit is set.
    pub open spec fn spec_is_alive(self, entity: Entity) -> bool {
        &&& (entity.id as int) < self.capacity
        &&& self.spec_version(entity.id as int) == entity.version
        &&& self.spec_alive(entity.id as int)
    }

    /// The container's invariant.
    pub open spec fn wf(self) -> bool {
        &&& self.capacity <= ENTITY_CAPACITY_LIMIT
        &&& self.entity_to_version@.len() == self.capacity
        &&& self.entity_to_is_alive_bitvec@.len() == crate::bitvec_utils::spec_word_count(
            self.capacity as int,
        )
        &&& self.next_free_id <= self.capacity
        &&& forall|i: int|
            0 <= i < self.gap_ids@.len() ==> (#[trigger] self.gap_ids@[i]) < self.next_free_id
                && !self.spec_alive(self.gap_ids@[i] as int)
        &&& forall|i: int, j: int|
            0 <= i < j < self.gap_ids@.len() ==> self.gap_ids@[i] != self.gap_ids@[j]
        &&& forall|i: int|
            self.next_free_id <= i < self.entity_to_is_alive_bitvec@.len() * 32
                ==> !self.spec_alive(i)
        &&& forall|i: int| 0 <= i < self.capacity && self.spec_alive(i) ==> self.spec_version(i) >= 1
    }

    /// The id the next `create_entity` hands out.
    pub open spec fn spec_next_id(self) -> u32 {
        if self.gap_ids@.len() > 0 {
            self.gap_ids@.last()
        } else {
            self.next_free_id
        }
    }

    /// The version stored for an id, or 0 for an id beyond the capacity
    /// (never used).
    pub open spec fn spec_version_or_zero(self, id: int) -> u32 {
        if id < self.capacity {
            self.spec_version(id)
        } else {
            0u32
        }
    }

    /// Whether `create_entity` can run: the new handle's version must not
    /// wrap, and a needed growth must stay under the capacity limit.
    pub open spec fn can_create(self) -> bool {
        &&& self.spec_version_or_zero(self.spec_next_id() as int) < u32::MAX
        &&& (self.gap_ids@.len() == 0 && self.next_free_id == self.capacity ==> self.capacity * 2
            <= ENTITY_CAPACITY_LIMIT)
        &&& self.next_free_id < u32::MAX
    }

    /// A container with `capacity` slots: no entity alive, all versions 0.
    pub fn new(capacity: usize) -> (r: EntitiesContainer)
        requires
            capacity <= ENTITY_CAPACITY_LIMIT,
        ensures
            r.wf(),
            r.capacity == capacity,
            r.next_free_id == 0,
            r.gap_ids@.len() == 0,
            forall|i: int| 0 <= i < capacity ==> !r.spec_alive(i) && r.spec_version(i) == 0,
    {
        let r = EntitiesContainer {
            gap_ids: Vec::new(),
            capacity,
            entity_to_version: vec![0u32; capacity],
            entity_to_is_alive_bitvec: bitvec_utils::alloc_bit_vec(capacity),
            next_free_id: 0,
        };
        r
    }

    /// How many entity slots the container manages.
    #[inline]
    pub fn capacity(&self) -> (r: usize)
        ensures
            r == self.capacity,
    {
        self.capacity
    }

    /// Grows the container to `new_capacity` slots (no-op when already as
    /// large): versions and alive bits carry over, new slots start dead
    /// with version 0.
    pub fn grow(&mut self, new_capacity: usize)
        requires
            old(self).wf(),
            new_capacity <= ENTITY_CAPACITY_LIMIT,
        ensures
            final(self).wf(),
            final(self).capacity == if new_capacity <= old(self).capacity {
                old(self).capacity
            } else {
                new_capacity
            },
            final(self).next_free_id == old(self).next_free_id,
            final(self).gap_ids@ == old(self).gap_ids@,
            forall|i: int|
                0 <= i < old(self).capacity ==> final(self).spec_version(i) == old(self).spec_version(i),
            forall|i: int|
                old(self).capacity <= i < final(self).capacity ==> final(self).spec_version(i)
                    == 0,
            forall|i: int|
                0 <= i < final(self).entity_to_is_alive_bitvec@.len() * 32 ==> final(self).spec_alive(i) == (i < old(self).entity_to_is_alive_bitvec@.len() * 32
                    && old(self).spec_alive(i)),
    {
        if new_capacity <= self.capacity {
            return ;
        }

        let old_capacity = self.capacity;
        self.entity_to_version.resize(new_capacity, 0u32);
        bitvec_utils::realloc(&mut self.entity_to_is_alive_bitvec, old_capacity, new_capacity);
        self.capacity = new_capacity;
        proof {
            let ow = old(self).entity_to_is_alive_bitvec@;
            let nw = self.entity_to_is_alive_bitvec@;
            assert forall|i: int|
                0 <= i < nw.len() * 32 implies self.spec_alive(i) == (i < ow.len() * 32
                && old(self).spec_alive(i)) by {
                crate::bitvec_utils::lemma_bit_positions(i, (i % 32) as u32, nw.len() as nat);
                if i / 32 < ow.len() {
                    bitvec_utils::lemma_same_word_same_bit(ow, nw, i);
                    crate::bitvec_utils::lemma_bit_positions(i, (i % 32) as u32, ow.len() as nat);
                    assert(i < ow.len() * 32) by (nonlinear_arith)
                        requires
                            i / 32 < ow.len(),
                            i == (i / 32) * 32 + (i % 32),
                            0 <= i % 32 < 32,
                    ;
                } else {
                    bitvec_utils::lemma_zero_word_bit(nw, i);
                    assert(!(i < ow.len() * 32)) by (nonlinear_arith)
                        requires
                            i / 32 >= ow.len(),
                            i == (i / 32) * 32 + (i % 32),
                            0 <= i % 32 < 32,
                    ;
                }
            }
        }
    }

    /// Allocates an entity: reuses the youngest gap id if there is one,
    /// else takes the next fresh id, growing (by doubling) when the fresh
    /// id is past the capacity.  The handle's version is the stored
    /// version plus one.
    pub fn create_entity(&mut self) -> (r: EntityCreation)
        requires
            old(self).wf(),
            old(self).can_create(),
        ensures
            final(self).wf(),
            r.entity.id == old(self).spec_next_id(),
            r.entity.version == old(self).spec_version_or_zero(r.entity.id as int) + 1,
            r.capacity_before == old(self).capacity,
            r.capacity_after == final(self).capacity,
            final(self).capacity >= old(self).capacity,
            // growth doubles, and only when a fresh id runs past the end
            final(self).capacity == (if old(self).gap_ids@.len() > 0 || old(self).next_free_id
                < old(self).capacity {
                old(self).capacity as int
            } else if old(self).capacity == 0 {
                2
            } else {
                old(self).capacity * 2
            }),
            final(self).spec_is_alive(r.entity),
            final(self).spec_version(r.entity.id as int) == r.entity.version,
            r.entity.id < final(self).capacity,
            // every other id keeps its state
            forall|i: int|
                0 <= i < final(self).capacity && i != r.entity.id ==> final(self).spec_version(i)
                    == old(self).spec_version_or_zero(i),
            forall|i: int|
                0 <= i < final(self).entity_to_is_alive_bitvec@.len() * 32 && i != r.entity.id
                    ==> final(self).spec_alive(i) == (i
                    < old(self).entity_to_is_alive_bitvec@.len() * 32 && old(self).spec_alive(i)),
            // gap bookkeeping
            final(self).gap_ids@ == if old(self).gap_ids@.len() > 0 {
                old(self).gap_ids@.drop_last()
            } else {
                old(self).gap_ids@
            },
            final(self).next_free_id == if old(self).gap_ids@.len() > 0 {
                old(self).next_free_id
            } else {
                (old(self).next_free_id + 1) as u32
            },
    {
        let capacity_before = self.capacity;
        let id: u32;
        if self.gap_ids.len() > 0 {
            id = self.gap_ids.pop().unwrap();
            proof {
                assert(id == old(self).gap_ids@.last());
                assert(old(self).gap_ids@[old(self).gap_ids@.len() - 1] == id);
                assert(id < old(self).next_free_id);
            }
        } else {
            id = self.next_free_id;
            if id as usize >= self.capacity {
                let doubled = if self.capacity == 0 {
                    2
                } else {
                    self.capacity * 2
                };
                self.grow(doubled);
                proof {
                    assert(self.spec_version(id as int) == 0);
                    assert forall|i: int|
                        0 <= i < self.entity_to_is_alive_bitvec@.len() * 32 implies
                        bitvec_utils::spec_bit_on(self.entity_to_is_alive_bitvec@, i) == (i < old(
                        self,
                    ).entity_to_is_alive_bitvec@.len() * 32 && bitvec_utils::spec_bit_on(
                        old(self).entity_to_is_alive_bitvec@,
                        i,
                    )) by {
                        assert(self.spec_alive(i) == (i < old(
                            self,
                        ).entity_to_is_alive_bitvec@.len() * 32 && old(self).spec_alive(i)));
                    }
                    assert forall|i: int|
                        0 <= i < old(self).capacity implies self.entity_to_version@[i] == old(
                        self,
                    ).entity_to_version@[i] by {
                        assert(self.spec_version(i) == old(self).spec_version(i));
                    }
                    assert forall|i: int|
                        old(self).capacity <= i < self.capacity implies self.entity_to_version@[i]
                        == 0 by {
                        assert(self.spec_version(i) == 0);
                    }
                }
            }
            self.next_free_id = id + 1;
        }

        let ghost vs_mid = self.entity_to_version@;
        let ghost ws_mid = self.entity_to_is_alive_bitvec@;
        proof {
            assert(id == old(self).spec_next_id());
            assert(id < self.capacity);
            assert(vs_mid[id as int] == old(self).spec_version_or_zero(id as int));
            assert(vs_mid[id as int] < u32::MAX);
            vstd::arithmetic::div_mod::lemma_div_is_ordered(id as int, self.capacity as int, 32);
        }
        let old_version = self.entity_to_version[id as usize];
        let version = old_version + 1;
        bitvec_utils::set_bit_on(&mut self.entity_to_is_alive_bitvec, id as usize);
        self.entity_to_version.set(id as usize, version);

        proof {
            let ws = self.entity_to_is_alive_bitvec@;
            let vs = self.entity_to_version@;
            assert(ws.len() == ws_mid.len());
            assert(vs == vs_mid.update(id as int, version));
            // frame: other bits and versions are as the (possibly grown)
            // middle state left them
            assert forall|i: int|
                0 <= i < ws.len() * 32 && i != id implies self.spec_alive(i) == (i < old(
                self,
            ).entity_to_is_alive_bitvec@.len() * 32 && old(self).spec_alive(i)) by {
                assert(bitvec_utils::spec_bit_on(ws, i) == bitvec_utils::spec_bit_on(ws_mid, i));
            }
            assert forall|i: int|
                0 <= i < self.capacity && i != id implies self.spec_version(i) == old(
                self,
            ).spec_version_or_zero(i) by {
                assert(vs[i] == vs_mid[i]);
                if i < old(self).capacity {
                    assert(vs_mid[i] == old(self).entity_to_version@[i]);
                } else {
                    assert(vs_mid[i] == 0);
                }
            }
            assert forall|i: int|
                0 <= i < self.gap_ids@.len() implies (#[trigger] self.gap_ids@[i])
                < self.next_free_id && !self.spec_alive(self.gap_ids@[i] as int) by {
                if old(self).gap_ids@.len() > 0 {
                    assert(self.gap_ids@[i] == old(self).gap_ids@[i]);
                    assert(old(self).gap_ids@[i] != id) by {
                        assert(forall|a: int, b: int|
                            0 <= a < b < old(self).gap_ids@.len() ==> old(self).gap_ids@[a] != old(
                                self,
                            ).gap_ids@[b]);
                    }
                    assert(self.spec_alive(self.gap_ids@[i] as int) == old(self).spec_alive(
                        old(self).gap_ids@[i] as int,
                    ));
                }
            }
            assert forall|i: int|
                self.next_free_id <= i < self.entity_to_is_alive_bitvec@.len() * 32 implies
                !self.spec_alive(i) by {
                assert(i != id);
            }
        }
        EntityCreation {
            entity: Entity { id, version },
            capacity_before,
            capacity_after: self.capacity,
        }
    }

    /// Frees an alive entity: its alive bit is cleared, its version stays.
    /// The top id lowers the fresh-id watermark; any other id becomes a
    /// gap for reuse.
    pub fn destroy_entity(&mut self, entity: Entity)
        requires
            old(self).wf(),
            old(self).spec_is_alive(entity),
        ensures
            final(self).wf(),
            final(self).capacity == old(self).capacity,
            !final(self).spec_alive(entity.id as int),
            forall|i: int|
                0 <= i < final(self).capacity ==> final(self).spec_version(i) == old(self).spec_version(i),
            forall|i: int|
                0 <= i < final(self).entity_to_is_alive_bitvec@.len() * 32 && i != entity.id
                    ==> final(self).spec_alive(i) == old(self).spec_alive(i),
            final(self).next_free_id == if entity.id + 1 == old(self).next_free_id {
                entity.id
            } else {
                old(self).next_free_id
            },
            final(self).gap_ids@ == if entity.id + 1 == old(self).next_free_id {
                old(self).gap_ids@
            } else {
                old(self).gap_ids@.push(entity.id)
            },
    {
        let id = entity.id;
        proof {
            vstd::arithmetic::div_mod::lemma_div_is_ordered(id as int, self.capacity as int, 32);
            bitvec_utils::lemma_bit_range(id as int, self.capacity as int);
            assert(self.spec_alive(id as int));
            assert(id < self.next_free_id);
        }
        bitvec_utils::set_bit_off(&mut self.entity_to_is_alive_bitvec, id as usize);

        if id + 1 == self.next_free_id {
            self.next_free_id = id;
        } else {
            self.gap_ids.push(id);
        }
        proof {
            let ws = self.entity_to_is_alive_bitvec@;
            assert forall|i: int|
                0 <= i < self.gap_ids@.len() implies (#[trigger] self.gap_ids@[i])
                < self.next_free_id && !self.spec_alive(self.gap_ids@[i] as int) by {
                if i < old(self).gap_ids@.len() {
                    assert(old(self).gap_ids@[i] < old(self).next_free_id);
                    assert(!old(self).spec_alive(old(self).gap_ids@[i] as int));
                    assert(old(self).gap_ids@[i] != id);
                    bitvec_utils::lemma_bit_range(
                        old(self).gap_ids@[i] as int,
                        self.capacity as int,
                    );
                } else {
                    assert(self.gap_ids@[i] == id);
                }
            }
            assert forall|i: int, j: int|
                0 <= i < j < self.gap_ids@.len() implies self.gap_ids@[i] != self.gap_ids@[j] by {
                if j >= old(self).gap_ids@.len() {
                    assert(self.gap_ids@[j] == id);
                    assert(!old(self).spec_alive(old(self).gap_ids@[i] as int));
                    assert(self.gap_ids@[i] == old(self).gap_ids@[i]);
                }
            }
            assert forall|i: int|
                self.next_free_id <= i < ws.len() * 32 implies !self.spec_alive(i) by {
                if i != id {
                    assert(bitvec_utils::spec_bit_on(ws, i) == old(self).spec_alive(i));
                    assert(i >= old(self).next_free_id);
                }
            }
            assert forall|i: int|
                0 <= i < self.capacity && self.spec_alive(i) implies self.spec_version(i)
                >= 1 by {
                assert(i != id);
                bitvec_utils::lemma_bit_range(i, self.capacity as int);
                assert(old(self).spec_alive(i));
            }
        }
    }

    /// Whether the handle refers to a currently alive entity: its id is
    /// in range, its version matches, and the alive bit is set.
    pub fn is_alive(&self, entity: Entity) -> (r: bool)
        requires
            self.wf(),
        ensures
            r == self.spec_is_alive(entity),
    {
        if (entity.id as usize) < self.capacity {
            proof {
                vstd::arithmetic::div_mod::lemma_div_is_ordered(
                    entity.id as int,
                    self.capacity as int,
                    32,
                );
            }
            let version_matches = self.entity_to_version[entity.id as usize] == entity.version;
            version_matches && bitvec_utils::is_bit_on(
                &self.entity_to_is_alive_bitvec,
                entity.id as usize,
            )
        } else {
            false
        }
    }

    /// Whether the alive bit of slot `index` is set.
    pub(crate) fn is_alive_at_index(&self, index: usize) -> (r: bool)
        requires
            self.wf(),
            index < self.capacity,
        ensures
            r == self.spec_alive(index as int),
    {
        proof {
            vstd::arithmetic::div_mod::lemma_div_is_ordered(
                index as int,
                self.capacity as int,
                32,
            );
        }
        bitvec_utils::is_bit_on(&self.entity_to_is_alive_bitvec, index)
    }

    /// Whether the id indexes a managed slot.
    #[inline(always)]
    pub fn validate_id(&self, id: u32) -> (r: bool)
        ensures
            r == ((id as int) < self.capacity),
    {
        (id as usize) < self.capacity
    }

    /// A guard for callers that treat an out-of-range id as a programming
    /// error: such an id is ruled out by contract.
    #[inline(always)]
    pub fn debug_validate_id_with_panic(&self, id: u32)
        requires
            (id as int) < self.capacity,
    {
    }
}

/// Destroying an entity keeps its version, and a later creation that
/// reuses the id hands out the stored version plus one — so a handle to
/// the destroyed entity is never equal to the new one: versions only
/// grow for a reused id.
pub proof fn lemma_recreated_handle_is_newer(
    after_destroy: EntitiesContainer,
    destroyed: Entity,
    recreated: Entity,
)
    requires
        after_destroy.wf(),
        (destroyed.id as int) < after_destroy.capacity,
        destroyed.version <= after_destroy.spec_version(destroyed.id as int),
        recreated.id == destroyed.id,
        recreated.version == after_destroy.spec_version_or_zero(recreated.id as int) + 1,
    ensures
        recreated.version > destroyed.version,
{
}

impl EntityCreation {
    /// Whether the creation grew the container.
    #[inline(always)]
    pub fn container_was_grow(&self) -> (r: bool)
        ensures
            r == (self.capacity_after != self.capacity_before),
    {
        self.capacity_after != self.capacity_before
    }
}

} // verus!
