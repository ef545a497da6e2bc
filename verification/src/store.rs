use vstd::prelude::*;

use crate::archetype::{comp_index_of, has_comp_id, Archetype};
use crate::archetype_builder::ArchetypeBuilder;
use crate::archetype_data_page::PAGE_SIZE_BYTES;
use crate::archetypes_container::{ArchetypesContainer, EntityInArchetype, PAGE_COUNT_LIMIT};
use crate::bitvec_utils;
use crate::component_type::ComponentType;
use crate::entities_container::{EntitiesContainer, ENTITY_CAPACITY_LIMIT};
use crate::entity::Entity;
use crate::order_group_container::OrderGroupContainer;
use crate::tag_container::TagContainer;

verus! {

/// How many entity slots a default store starts with.
pub const ENTITIES_DEFAULT_CAPACITY: usize = 10;

/// One component value to store: its type descriptor and its payload, a
/// byte vector of exactly `component_type.size` bytes.
pub struct ComponentData {
    pub component_type: ComponentType,
    pub bytes: Vec<u8>,
}

/// The store: the id allocator, the archetype/page pool, tag bitmaps,
/// order groups, and the per-entity side tables mapping an id to its page
/// and row.
pub struct Store {
    pub entities_container: EntitiesContainer,
    pub archetypes_container: ArchetypesContainer,
    pub tag_container: TagContainer,
    pub order_group_container: OrderGroupContainer,
    pub entity_to_page: Vec<u32>,
    pub entity_to_index_in_page: Vec<u32>,
    pub entity_has_archetype_bit_vec: Vec<u32>,
}

impl Store {
    /// The store's entity capacity.
    pub open spec fn spec_capacity(self) -> int {
        self.entities_container.capacity as int
    }

    /// Whether the handle refers to a live entity.
    pub open spec fn spec_is_alive(self, entity: Entity) -> bool {
        self.entities_container.spec_is_alive(entity)
    }

    /// Whether the entity id currently occupies a page row.
    pub open spec fn spec_has_archetype(self, id: int) -> bool {
        bitvec_utils::spec_bit_on(self.entity_has_archetype_bit_vec@, id)
    }

    /// The page holding the entity's row.
    pub open spec fn spec_page_of(self, id: int) -> int {
        self.entity_to_page@[id] as int
    }

    /// The entity's row within its page.
    pub open spec fn spec_row_of(self, id: int) -> int {
        self.entity_to_index_in_page@[id] as int
    }

    /// The archetype slot of the entity's page.
    pub open spec fn spec_arch_index_of(self, id: int) -> int {
        self.archetypes_container.spec_page_arch(self.spec_page_of(id)).unwrap() as int
    }

    /// The component list of the entity (`None` when it occupies no row).
    pub open spec fn spec_archetype_of(self, id: int) -> Option<Seq<ComponentType>> {
        if self.spec_has_archetype(id) {
            Some(self.archetypes_container.archetypes@[self.spec_arch_index_of(id)]@)
        } else {
            None
        }
    }

    /// The stored payload of the entity's component with id `type_id`.
    pub open spec fn spec_component_bytes(self, id: int, type_id: u64) -> Seq<u8> {
        let a = self.spec_arch_index_of(id);
        let arch = self.archetypes_container.archetypes@[a]@;
        let k = comp_index_of(arch, type_id);
        let start = crate::archetype_data_page::cell_start(
            self.archetypes_container.layouts@[a].offsets@,
            arch,
            k,
            self.spec_row_of(id),
        );
        self.archetypes_container.pages@[self.spec_page_of(id)].components_data@.subrange(
            start,
            start + arch[k].size,
        )
    }

    /// Whether the entity is alive and occupies a page row.
    pub open spec fn spec_valid_with_archetype(self, entity: Entity) -> bool {
        self.spec_is_alive(entity) && self.spec_has_archetype(entity.id as int)
    }

    /// The store's invariant.
    pub open spec fn wf(self) -> bool {
        let cap = self.spec_capacity();
        &&& self.entities_container.wf()
        &&& self.archetypes_container.wf()
        &&& self.tag_container.wf()
        &&& self.tag_container.entity_capacity == cap
        &&& self.order_group_container.wf()
        &&& self.order_group_container.entity_capacity == cap
        &&& self.entity_to_page@.len() == cap
        &&& self.entity_to_index_in_page@.len() == cap
        &&& self.entity_has_archetype_bit_vec@.len() == bitvec_utils::spec_word_count(cap)
        &&& forall|i: int|
            cap <= i < self.entity_has_archetype_bit_vec@.len() * 32 ==> !self.spec_has_archetype(
                i,
            )
        &&& forall|id: int|
            0 <= id < cap && self.entities_container.spec_alive(id) && self.spec_has_archetype(
                id,
            ) ==> {
                let p = self.spec_page_of(id);
                let row = self.spec_row_of(id);
                &&& 0 <= p < self.archetypes_container.pages@.len()
                &&& self.archetypes_container.spec_page_arch(p) is Some
                &&& 0 <= row < self.archetypes_container.pages@[p].entities_ids@.len()
                &&& self.archetypes_container.pages@[p].entities_ids@[row] == id
            }
        &&& forall|id: int|
            0 <= id < cap && !self.entities_container.spec_alive(id) ==> !self.spec_has_archetype(
                id,
            )
        &&& forall|p: int, row: int|
            0 <= p < self.archetypes_container.pages@.len() && 0 <= row
                < self.archetypes_container.pages@[p].entities_ids@.len() ==> {
                let id = (#[trigger] self.archetypes_container.pages@[p].entities_ids@[row]) as int;
                &&& id < cap
                &&& self.entities_container.spec_alive(id)
                &&& self.spec_has_archetype(id)
                &&& self.spec_page_of(id) == p
                &&& self.spec_row_of(id) == row
            }
    }

    /// A store with the default entity capacity.
    pub fn new() -> (r: Store)
        ensures
            r.wf(),
            r.spec_capacity() == ENTITIES_DEFAULT_CAPACITY,
            forall|id: int| 0 <= id < r.spec_capacity() ==> !r.entities_container.spec_alive(id)
                && r.entities_container.spec_version(id) == 0,
            forall|g: u64| r.order_group_container.spec_order(g) == Seq::<u32>::empty(),
            forall|t: u64, i: int| !r.tag_container.spec_has_tag(t, i),
            r.entities_container.next_free_id == 0,
            r.entities_container.gap_ids@.len() == 0,
            r.archetypes_container.archetypes@.len() == 0,
            r.archetypes_container.pages@.len()
                == crate::archetypes_container::ARCHETYPE_PAGE_DEFAULT_CAPACITY,
            forall|p: int|
                0 <= p < r.archetypes_container.pages@.len() ==> r.archetypes_container.spec_page_arch(p) is None,
    {
        Store::with_capacity(ENTITIES_DEFAULT_CAPACITY)
    }

    /// A store with room for `capacity` entities before the first growth.
    pub fn with_capacity(capacity: usize) -> (r: Store)
        requires
            capacity <= ENTITY_CAPACITY_LIMIT,
        ensures
            r.wf(),
            r.spec_capacity() == capacity,
            forall|id: int| 0 <= id < r.spec_capacity() ==> !r.entities_container.spec_alive(id)
                && r.entities_container.spec_version(id) == 0,
            forall|g: u64| r.order_group_container.spec_order(g) == Seq::<u32>::empty(),
            forall|t: u64, i: int| !r.tag_container.spec_has_tag(t, i),
            r.entities_container.next_free_id == 0,
            r.entities_container.gap_ids@.len() == 0,
            r.archetypes_container.archetypes@.len() == 0,
            r.archetypes_container.pages@.len()
                == crate::archetypes_container::ARCHETYPE_PAGE_DEFAULT_CAPACITY,
            forall|p: int|
                0 <= p < r.archetypes_container.pages@.len() ==> r.archetypes_container.spec_page_arch(p) is None,
    {
        let r = Store {
            entities_container: EntitiesContainer::new(capacity),
            archetypes_container: ArchetypesContainer::new(),
            tag_container: TagContainer::new(capacity),
            order_group_container: OrderGroupContainer::new(capacity),
            entity_to_page: vec![0u32; capacity],
            entity_to_index_in_page: vec![0u32; capacity],
            entity_has_archetype_bit_vec: bitvec_utils::alloc_bit_vec(capacity),
        };
        r
    }

    /// The fixed byte size of one component data page.
    pub fn data_page_size() -> (r: usize)
        ensures
            r == PAGE_SIZE_BYTES,
    {
        PAGE_SIZE_BYTES
    }

    /// How many entity slots the store currently manages.
    #[inline(always)]
    pub fn entities_capacity(&self) -> (r: usize)
        ensures
            r == self.spec_capacity(),
    {
        self.entities_container.capacity()
    }

    /// Whether the handle refers to a live entity.
    #[inline(always)]
    pub fn is_alive(&self, entity: Entity) -> (r: bool)
        requires
            self.wf(),
        ensures
            r == self.spec_is_alive(entity),
    {
        self.entities_container.is_alive(entity)
    }

    /// Whether the entity is alive and occupies a page row.
    #[inline]
    pub fn is_valid_entity_with_archetype(&self, entity: Entity) -> (r: bool)
        requires
            self.wf(),
        ensures
            r == self.spec_valid_with_archetype(entity),
    {
        if self.entities_container.is_alive(entity) {
            proof {
                bitvec_utils::lemma_bit_range(
                    entity.id as int,
                    self.entities_container.capacity as int,
                );
            }
            bitvec_utils::is_bit_on(&self.entity_has_archetype_bit_vec, entity.id as usize)
        } else {
            false
        }
    }

    /// Whether the store can register one more entity (version counters
    /// and capacity growth stay in range).
    pub open spec fn can_create(self) -> bool {
        self.entities_container.can_create()
    }

    /// Registers a fresh entity and grows every parallel table in step
    /// with the id allocator.
    fn register_new_entity(&mut self) -> (r: Entity)
        requires
            old(self).wf(),
            old(self).can_create(),
        ensures
            final(self).wf(),
            r.id == old(self).entities_container.spec_next_id(),
            r.version == old(self).entities_container.spec_version_or_zero(r.id as int) + 1,
            final(self).entities_container.spec_is_alive(r),
            (r.id as int) < final(self).spec_capacity(),
            final(self).spec_capacity() >= old(self).spec_capacity(),
            final(self).entities_container.spec_version(r.id as int) == r.version,
            // everything but the id allocator and table sizes is preserved
            final(self).archetypes_container == old(self).archetypes_container,
            forall|i: int|
                0 <= i < final(self).spec_capacity() && i != r.id ==> final(self).entities_container.spec_version(i) == old(self).entities_container.spec_version_or_zero(i),
            forall|i: int|
                0 <= i < final(self).entities_container.entity_to_is_alive_bitvec@.len() * 32 && i
                    != r.id ==> final(self).entities_container.spec_alive(i) == (i < old(self).entities_container.entity_to_is_alive_bitvec@.len() * 32 && old(self).entities_container.spec_alive(i)),
            forall|i: int|
                0 <= i < old(self).spec_capacity() ==> final(self).spec_has_archetype(i) == old(self).spec_has_archetype(i),
            forall|i: int|
                old(self).spec_capacity() <= i < final(self).entity_has_archetype_bit_vec@.len()
                    * 32 ==> !final(self).spec_has_archetype(i),
            forall|i: int|
                0 <= i < old(self).spec_capacity() ==> final(self).spec_page_of(i) == old(self).spec_page_of(i) && final(self).spec_row_of(i) == old(self).spec_row_of(i),
            forall|t: u64, i: int|
                0 <= i < old(self).spec_capacity() ==> final(self).tag_container.spec_has_tag(t, i)
                    == old(self).tag_container.spec_has_tag(t, i),
            forall|t: u64, i: int|
                old(self).spec_capacity() <= i ==> !final(self).tag_container.spec_has_tag(t, i),
            forall|g: u64|
                final(self).order_group_container.spec_order(g) == old(self).order_group_container.spec_order(g),
            final(self).entities_container.gap_ids@ == (if old(self).entities_container.gap_ids@.len() > 0 {
                old(self).entities_container.gap_ids@.drop_last()
            } else {
                old(self).entities_container.gap_ids@
            }),
            final(self).entities_container.next_free_id == (if old(self).entities_container.gap_ids@.len() > 0 {
                old(self).entities_container.next_free_id as int
            } else {
                old(self).entities_container.next_free_id + 1
            }),
            final(self).spec_capacity() == (if old(self).entities_container.gap_ids@.len() > 0
                || old(self).entities_container.next_free_id < old(self).spec_capacity() {
                old(self).spec_capacity()
            } else if old(self).spec_capacity() == 0 {
                2
            } else {
                old(self).spec_capacity() * 2
            }),
            !final(self).spec_has_archetype(r.id as int),
    {
        let ghost pre = *self;
        let creation = self.entities_container.create_entity();
        let capacity_before = creation.capacity_before;
        let capacity_after = creation.capacity_after;
        if creation.container_was_grow() {
            self.entity_to_page.resize(capacity_after, 0u32);
            self.entity_to_index_in_page.resize(capacity_after, 0u32);
            bitvec_utils::realloc(
                &mut self.entity_has_archetype_bit_vec,
                capacity_before,
                capacity_after,
            );
            self.tag_container.grow(capacity_after);
            self.order_group_container.grow(capacity_after);
        }
        let r = creation.entity;
        proof {
            let cap = self.spec_capacity();
            assert forall|i: int|
                cap <= i < self.entity_has_archetype_bit_vec@.len() * 32
                    implies !self.spec_has_archetype(i) by {
                lemma_grown_bits(
                    pre.entity_has_archetype_bit_vec@,
                    self.entity_has_archetype_bit_vec@,
                    pre.spec_capacity(),
                    i,
                );
                if i < pre.entity_has_archetype_bit_vec@.len() * 32 {
                    assert(!pre.spec_has_archetype(i));
                }
            }
            assert forall|i: int|
                0 <= i < pre.spec_capacity() implies self.spec_has_archetype(i)
                == pre.spec_has_archetype(i) by {
                bitvec_utils::lemma_bit_range(i, pre.spec_capacity());
                lemma_grown_bits(
                    pre.entity_has_archetype_bit_vec@,
                    self.entity_has_archetype_bit_vec@,
                    pre.spec_capacity(),
                    i,
                );
            }
            assert forall|i: int|
                pre.spec_capacity() <= i < self.entity_has_archetype_bit_vec@.len() * 32
                    implies !self.spec_has_archetype(i) by {
                lemma_grown_bits(
                    pre.entity_has_archetype_bit_vec@,
                    self.entity_has_archetype_bit_vec@,
                    pre.spec_capacity(),
                    i,
                );
                if i < pre.entity_has_archetype_bit_vec@.len() * 32 {
                    assert(!pre.spec_has_archetype(i));
                }
            }
            assert((r.id as int) < pre.spec_capacity() ==> !pre.entities_container.spec_alive(
                r.id as int,
            )) by {
                if (r.id as int) < pre.spec_capacity() {
                    if pre.entities_container.gap_ids@.len() > 0 {
                        assert(pre.entities_container.gap_ids@[pre.entities_container.gap_ids@.len()
                            - 1] == r.id);
                    } else {
                        let pcap = pre.entities_container.capacity as int;
                        crate::bitvec_utils::lemma_bit_range(r.id as int, pcap);
                        assert((r.id as int)
                            < pre.entities_container.entity_to_is_alive_bitvec@.len() * 32);
                    }
                }
            }
            lemma_store_wf_after_register(pre, *self, r.id as int);
            assert(!self.spec_has_archetype(r.id as int)) by {
                if (r.id as int) < pre.spec_capacity() {
                    crate::bitvec_utils::lemma_bit_range(r.id as int, pre.spec_capacity());
                    assert(!pre.spec_has_archetype(r.id as int));
                }
            }
        }
        r
    }

    /// Creates an entity with no archetype: it owns no components and no
    /// page row until components are added.
    pub fn create_entity(&mut self) -> (r: Entity)
        requires
            old(self).wf(),
            old(self).can_create(),
        ensures
            final(self).wf(),
            r.id == old(self).entities_container.spec_next_id(),
            r.version == old(self).entities_container.spec_version_or_zero(r.id as int) + 1,
            final(self).spec_is_alive(r),
            (r.id as int) < final(self).spec_capacity(),
            final(self).spec_capacity() >= old(self).spec_capacity(),
            !final(self).spec_has_archetype(r.id as int),
            final(self).spec_archetype_of(r.id as int) is None,
            final(self).archetypes_container == old(self).archetypes_container,
            final(self).entities_container.spec_version(r.id as int) == r.version,
            forall|i: int|
                0 <= i < final(self).spec_capacity() && i != r.id ==> final(self).entities_container.spec_version(i) == old(self).entities_container.spec_version_or_zero(i),
            forall|i: int|
                0 <= i < final(self).entities_container.entity_to_is_alive_bitvec@.len() * 32 && i
                    != r.id ==> final(self).entities_container.spec_alive(i) == (i < old(self).entities_container.entity_to_is_alive_bitvec@.len() * 32 && old(self).entities_container.spec_alive(i)),
            forall|i: int|
                0 <= i < old(self).spec_capacity() && i != r.id ==> final(self).spec_has_archetype(i) == old(self).spec_has_archetype(i),
            forall|i: int|
                0 <= i < old(self).spec_capacity() ==> final(self).spec_page_of(i) == old(self).spec_page_of(i) && final(self).spec_row_of(i) == old(self).spec_row_of(i),
            forall|t: u64, i: int|
                0 <= i < old(self).spec_capacity() ==> final(self).tag_container.spec_has_tag(t, i)
                    == old(self).tag_container.spec_has_tag(t, i),
            forall|g: u64|
                final(self).order_group_container.spec_order(g) == old(self).order_group_container.spec_order(g),
            final(self).entities_container.gap_ids@ == (if old(self).entities_container.gap_ids@.len() > 0 {
                old(self).entities_container.gap_ids@.drop_last()
            } else {
                old(self).entities_container.gap_ids@
            }),
            final(self).entities_container.next_free_id == (if old(self).entities_container.gap_ids@.len() > 0 {
                old(self).entities_container.next_free_id as int
            } else {
                old(self).entities_container.next_free_id + 1
            }),
            final(self).spec_capacity() == (if old(self).entities_container.gap_ids@.len() > 0
                || old(self).entities_container.next_free_id < old(self).spec_capacity() {
                old(self).spec_capacity()
            } else if old(self).spec_capacity() == 0 {
                2
            } else {
                old(self).spec_capacity() * 2
            }),
    {
        let entity = self.register_new_entity();
        let ghost mid = *self;
        proof {
            bitvec_utils::lemma_bit_range(entity.id as int, self.spec_capacity());
        }
        bitvec_utils::set_bit_off(&mut self.entity_has_archetype_bit_vec, entity.id as usize);
        proof {
            assert forall|id: int|
                0 <= id < self.spec_capacity() && self.entities_container.spec_alive(id)
                    && self.spec_has_archetype(id) implies {
                let p = self.spec_page_of(id);
                let row = self.spec_row_of(id);
                &&& 0 <= p < self.archetypes_container.pages@.len()
                &&& self.archetypes_container.spec_page_arch(p) is Some
                &&& 0 <= row < self.archetypes_container.pages@[p].entities_ids@.len()
                &&& self.archetypes_container.pages@[p].entities_ids@[row] == id
            } by {
                assert(id != entity.id);
                bitvec_utils::lemma_bit_range(id, self.spec_capacity());
                assert(mid.spec_has_archetype(id));
                assert(mid.entities_container.spec_alive(id));
            }
            assert forall|id: int|
                0 <= id < self.spec_capacity() && !self.entities_container.spec_alive(id)
                    implies !self.spec_has_archetype(id) by {
                assert(id != entity.id);
                bitvec_utils::lemma_bit_range(id, self.spec_capacity());
                assert(!mid.spec_has_archetype(id));
            }
            assert forall|p: int, row: int|
                0 <= p < self.archetypes_container.pages@.len() && 0 <= row
                    < self.archetypes_container.pages@[p].entities_ids@.len() implies {
                let id = (#[trigger] self.archetypes_container.pages@[p].entities_ids@[
                    row
                ]) as int;
                &&& id < self.spec_capacity()
                &&& self.entities_container.spec_alive(id)
                &&& self.spec_has_archetype(id)
                &&& self.spec_page_of(id) == p
                &&& self.spec_row_of(id) == row
            } by {
                let id = mid.archetypes_container.pages@[p].entities_ids@[row] as int;
                assert(mid.spec_has_archetype(id));
                assert(id != entity.id) by {
                    assert(!mid.spec_has_archetype(entity.id as int));
                }
                bitvec_utils::lemma_bit_range(id, self.spec_capacity());
            }
            assert forall|i: int|
                self.spec_capacity() <= i < self.entity_has_archetype_bit_vec@.len() * 32
                    implies !self.spec_has_archetype(i) by {
                assert(i != entity.id);
                assert(!mid.spec_has_archetype(i));
            }
        }
        entity
    }
}

impl Store {
    /// Creates an entity and seats it in the given archetype; its
    /// component payloads start out unspecified until written.
    pub fn create_entity_with_archetype(&mut self, archetype: &Archetype) -> (r: Entity)
        requires
            old(self).wf(),
            old(self).can_create(),
            archetype.wf(),
            archetype@.len() >= 1,
            crate::archetype_layout::layout_fits(archetype@),
            old(self).archetypes_container.pages@.len() < PAGE_COUNT_LIMIT,
        ensures
            final(self).wf(),
            r.id == old(self).entities_container.spec_next_id(),
            r.version == old(self).entities_container.spec_version_or_zero(r.id as int) + 1,
            final(self).spec_is_alive(r),
            (r.id as int) < final(self).spec_capacity(),
            final(self).spec_has_archetype(r.id as int),
            final(self).spec_archetype_of(r.id as int) matches Some(arch)
                && crate::archetype::comps_equiv(arch, archetype@),
            final(self).archetypes_container.pages@.len() <= old(self).archetypes_container.pages@.len() + 1,
            final(self).entities_container.spec_version(r.id as int) == r.version,
            forall|i: int|
                0 <= i < final(self).spec_capacity() && i != r.id ==> final(self).entities_container.spec_version(i) == old(self).entities_container.spec_version_or_zero(i),
            forall|i: int|
                0 <= i < old(self).entities_container.entity_to_is_alive_bitvec@.len() * 32 && i
                    != r.id ==> final(self).entities_container.spec_alive(i) == old(self).entities_container.spec_alive(i),
            // no other entity's archetype or component payloads change
            forall|i: int|
                0 <= i < old(self).spec_capacity() && i != r.id && old(self).entities_container.spec_alive(i) ==> final(self).spec_archetype_of(i) == old(self).spec_archetype_of(i),
            forall|i: int, t: u64|
                0 <= i < old(self).spec_capacity() && i != r.id && old(self).entities_container.spec_alive(i) && old(self).spec_has_archetype(i)
                    ==> final(self).spec_component_bytes(i, t) == old(self).spec_component_bytes(i, t),
            forall|t: u64, i: int|
                0 <= i < old(self).spec_capacity() ==> final(self).tag_container.spec_has_tag(t, i)
                    == old(self).tag_container.spec_has_tag(t, i),
            forall|g: u64|
                final(self).order_group_container.spec_order(g) == old(self).order_group_container.spec_order(g),
            final(self).entities_container.gap_ids@ == (if old(self).entities_container.gap_ids@.len() > 0 {
                old(self).entities_container.gap_ids@.drop_last()
            } else {
                old(self).entities_container.gap_ids@
            }),
            final(self).entities_container.next_free_id == (if old(self).entities_container.gap_ids@.len() > 0 {
                old(self).entities_container.next_free_id as int
            } else {
                old(self).entities_container.next_free_id + 1
            }),
            final(self).spec_capacity() == (if old(self).entities_container.gap_ids@.len() > 0
                || old(self).entities_container.next_free_id < old(self).spec_capacity() {
                old(self).spec_capacity()
            } else if old(self).spec_capacity() == 0 {
                2
            } else {
                old(self).spec_capacity() * 2
            }),
    {
        let entity = self.register_new_entity();
        let ghost mid = *self;
        let entity_in_arch = self.archetypes_container.add_entity(entity.id, archetype);
        let ghost mid2 = *self;
        self.entity_to_page.set(entity.id as usize, entity_in_arch.page_index);
        self.entity_to_index_in_page.set(entity.id as usize, entity_in_arch.index_in_page);
        proof {
            bitvec_utils::lemma_bit_range(entity.id as int, self.spec_capacity());
        }
        bitvec_utils::set_bit_on(&mut self.entity_has_archetype_bit_vec, entity.id as usize);
        proof {
            lemma_store_wf_after_seat(mid, *self, entity.id as int, entity_in_arch);
        }
        entity
    }

    /// Destroys an alive entity: its page row (if any) is swap-removed
    /// with the moved row's side table rewritten, its tags and order
    /// links are cleared, and its id returns to the allocator.  Its
    /// version stays, so stale handles are detected.
    #[verifier::rlimit(100)]
    #[verifier::spinoff_prover]
    pub fn destroy_entity(&mut self, entity: Entity)
        requires
            old(self).wf(),
            old(self).spec_is_alive(entity),
        ensures
            final(self).wf(),
            final(self).spec_capacity() == old(self).spec_capacity(),
            !final(self).entities_container.spec_alive(entity.id as int),
            !final(self).spec_is_alive(entity),
            forall|i: int|
                0 <= i < final(self).spec_capacity() ==> final(self).entities_container.spec_version(i) == old(self).entities_container.spec_version(
                    i,
                ),
            forall|i: int|
                0 <= i < final(self).entities_container.entity_to_is_alive_bitvec@.len() * 32 && i
                    != entity.id ==> final(self).entities_container.spec_alive(i) == old(self).entities_container.spec_alive(i),
            forall|t: u64| !final(self).tag_container.spec_has_tag(t, entity.id as int),
            forall|t: u64, i: int|
                i != entity.id ==> final(self).tag_container.spec_has_tag(t, i) == old(self).tag_container.spec_has_tag(t, i),
            forall|g: u64|
                final(self).order_group_container.spec_order(g)
                    == crate::order_group_container::seq_remove_elem(
                    old(self).order_group_container.spec_order(g),
                    entity.id,
                ),
            // the id goes back to the allocator: the top id lowers the
            // watermark, any other becomes a gap
            final(self).entities_container.next_free_id == (if entity.id + 1 == old(self).entities_container.next_free_id {
                entity.id as int
            } else {
                old(self).entities_container.next_free_id as int
            }),
            final(self).entities_container.gap_ids@ == (if entity.id + 1 == old(self).entities_container.next_free_id {
                old(self).entities_container.gap_ids@
            } else {
                old(self).entities_container.gap_ids@.push(entity.id)
            }),
            // every other entity keeps its occupancy, archetype and bytes
            forall|i: int|
                0 <= i < old(self).spec_capacity() && i != entity.id && old(self).entities_container.spec_alive(i) ==> final(self).spec_has_archetype(i)
                    == old(self).spec_has_archetype(i) && (old(self).spec_has_archetype(i)
                    ==> final(self).spec_archetype_of(i) == old(self).spec_archetype_of(i)),
            forall|i: int, t: u64|
                0 <= i < old(self).spec_capacity() && i != entity.id && old(self).entities_container.spec_alive(i) && old(self).spec_has_archetype(i) && has_comp_id(
                    old(self).spec_archetype_of(i).unwrap(),
                    t,
                ) ==> final(self).spec_component_bytes(i, t) == old(self).spec_component_bytes(
                    i,
                    t,
                ),
    {
        let id = entity.id;
        proof {
            bitvec_utils::lemma_bit_range(id as int, self.spec_capacity());
        }
        let has_row = bitvec_utils::is_bit_on(&self.entity_has_archetype_bit_vec, id as usize);
        if has_row {
            let loc = EntityInArchetype {
                page_index: self.entity_to_page[id as usize],
                index_in_page: self.entity_to_index_in_page[id as usize],
            };
            let ghost pre = *self;
            proof {
                assert(pre.entities_container.spec_alive(id as int));
                assert(pre.spec_has_archetype(id as int));
                assert(0 <= pre.spec_page_of(id as int)
                    < pre.archetypes_container.pages@.len());
                assert(pre.archetypes_container.spec_page_arch(pre.spec_page_of(id as int))
                    is Some);
                assert(0 <= pre.spec_row_of(id as int) < pre.archetypes_container.pages@[
                    pre.spec_page_of(id as int)
                ].entities_ids@.len());
            }
            let swap = self.archetypes_container.swap_remove_entity(loc);
            match swap {
                Some(info) => {
                    proof {
                        let p = loc.page_index as int;
                        let old_ids =
                            pre.archetypes_container.pages@[p].entities_ids@;
                        assert(info.id_to_replace == old_ids.last());
                        assert((info.id_to_replace as int) < self.spec_capacity()) by {
                            assert(old_ids[old_ids.len() - 1] == old_ids.last());
                        }
                    }
                    self.entity_to_index_in_page.set(
                        info.id_to_replace as usize,
                        loc.index_in_page,
                    );
                },
                None => {},
            }
            bitvec_utils::set_bit_off(&mut self.entity_has_archetype_bit_vec, id as usize);
            proof {
                assert(pre == *old(self));
                lemma_store_wf_after_unseat(pre, *self, id as int, loc, swap);
                lemma_unseat_bytes(*old(self), *self, id as int, loc, swap);
            }
        }
        let ghost mid = *self;
        self.tag_container.remove_all_tags_for_entity(id);
        self.order_group_container.remove_all_orders_for_id(id);
        self.entities_container.destroy_entity(entity);
        proof {
            let cap = self.spec_capacity();
            assert forall|i: int|
                cap <= i < self.entity_has_archetype_bit_vec@.len() * 32
                    implies !self.spec_has_archetype(i) by {
                assert(!mid.spec_has_archetype(i));
            }
            assert forall|i: int|
                0 <= i < cap && !self.entities_container.spec_alive(i)
                    implies !self.spec_has_archetype(i) by {
                bitvec_utils::lemma_bit_range(i, cap);
                if i != id {
                    assert(mid.entities_container.spec_alive(i)
                        == self.entities_container.spec_alive(i));
                    assert(!mid.spec_has_archetype(i));
                } else {
                    assert(!mid.spec_has_archetype(id as int));
                }
            }
            assert forall|i: int|
                0 <= i < cap && self.entities_container.spec_alive(i) && self.spec_has_archetype(
                    i,
                ) implies {
                let p = self.spec_page_of(i);
                let row = self.spec_row_of(i);
                &&& 0 <= p < self.archetypes_container.pages@.len()
                &&& self.archetypes_container.spec_page_arch(p) is Some
                &&& 0 <= row < self.archetypes_container.pages@[p].entities_ids@.len()
                &&& self.archetypes_container.pages@[p].entities_ids@[row] == i
            } by {
                assert(i != id);
                bitvec_utils::lemma_bit_range(i, cap);
                assert(mid.entities_container.spec_alive(i) && mid.spec_has_archetype(i));
            }
            assert forall|p: int, row: int|
                0 <= p < self.archetypes_container.pages@.len() && 0 <= row
                    < self.archetypes_container.pages@[p].entities_ids@.len() implies {
                let i = (#[trigger] self.archetypes_container.pages@[p].entities_ids@[row]) as int;
                &&& i < cap
                &&& self.entities_container.spec_alive(i)
                &&& self.spec_has_archetype(i)
                &&& self.spec_page_of(i) == p
                &&& self.spec_row_of(i) == row
            } by {
                let i = (mid.archetypes_container.pages@[p].entities_ids@[row]) as int;
                assert(mid.entities_container.spec_alive(i) && mid.spec_has_archetype(i));
                bitvec_utils::lemma_bit_range(i, cap);
                assert(i != id) by {
                    assert(!mid.spec_has_archetype(id as int));
                }
            }
            // the survivors' occupancy, archetypes and bytes carry from the
            // vacating step to the final state untouched
            assert forall|i: int|
                0 <= i < cap && i != id && old(self).entities_container.spec_alive(i)
                    implies self.spec_has_archetype(i) == old(self).spec_has_archetype(i) && (
            old(self).spec_has_archetype(i) ==> self.spec_archetype_of(i) == old(self).spec_archetype_of(i)) by {
                bitvec_utils::lemma_bit_range(i, cap);
                assert(mid.spec_has_archetype(i) == old(self).spec_has_archetype(i));
                if old(self).spec_has_archetype(i) {
                    assert(mid.spec_archetype_of(i) == old(self).spec_archetype_of(i));
                }
            }
            assert forall|i: int, t: u64|
                0 <= i < cap && i != id && old(self).entities_container.spec_alive(i) && old(
                    self,
                ).spec_has_archetype(i) && has_comp_id(
                    old(self).spec_archetype_of(i).unwrap(),
                    t,
                ) implies self.spec_component_bytes(i, t) == old(self).spec_component_bytes(
                i,
                t,
            ) by {
                bitvec_utils::lemma_bit_range(i, cap);
                assert(mid.spec_component_bytes(i, t) == old(self).spec_component_bytes(i, t));
            }
        }
    }

    /// The canonical archetype of the entity, if it is alive and occupies
    /// a row.
    pub fn get_entity_archetype(&self, entity: Entity) -> (r: Option<&Archetype>)
        requires
            self.wf(),
        ensures
            r is Some <==> self.spec_valid_with_archetype(entity),
            r matches Some(arch) ==> Some(arch@) == self.spec_archetype_of(entity.id as int),
    {
        if !self.is_valid_entity_with_archetype(entity) {
            return None;
        }
        let page_index = self.entity_to_page[entity.id as usize] as usize;
        let arch_index = self.archetypes_container.get_archetype_index_by_page(page_index);
        Some(&self.archetypes_container.archetypes[arch_index])
    }

    /// The stored payloads of the requested component types, in the order
    /// requested: `Some` exactly when the entity is alive, occupies a row,
    /// and its archetype carries every requested id.
    #[verifier::loop_isolation(false)]
    #[verifier::rlimit(100)]
    #[verifier::spinoff_prover]
    pub fn get_components_refs(&self, entity: Entity, component_types: &[ComponentType]) -> (r:
        Option<Vec<Vec<u8>>>)
        requires
            self.wf(),
        ensures
            r is Some <==> (self.spec_valid_with_archetype(entity) && forall|k: int|
                0 <= k < component_types@.len() ==> has_comp_id(
                    self.spec_archetype_of(entity.id as int).unwrap(),
                    component_types@[k].id,
                )),
            r matches Some(values) ==> values@.len() == component_types@.len() && forall|k: int|
                0 <= k < component_types@.len() ==> (#[trigger] values@[k])@
                    == self.spec_component_bytes(entity.id as int, component_types@[k].id),
    {
        if !self.is_valid_entity_with_archetype(entity) {
            return None;
        }
        let id = entity.id as usize;
        let page_index = self.entity_to_page[id] as usize;
        let row = self.entity_to_index_in_page[id] as usize;
        let arch_index = self.archetypes_container.get_archetype_index_by_page(page_index);
        let ghost arch = self.archetypes_container.archetypes@[arch_index as int]@;
        let n = component_types.len();
        let mut values: Vec<Vec<u8>> = Vec::new();
        let mut k: usize = 0;
        while k < n
            invariant
                0 <= k <= n,
                values@.len() == k,
                forall|j: int| 0 <= j < k ==> has_comp_id(arch, component_types@[j].id),
                forall|j: int|
                    0 <= j < k ==> (#[trigger] values@[j])@ == self.spec_component_bytes(
                        id as int,
                        component_types@[j].id,
                    ),
            decreases n - k,
        {
            let ty = component_types[k];
            let archetype = &self.archetypes_container.archetypes[arch_index];
            match archetype.find_component_index(ty.id) {
                Some(idx) => {
                    proof {
                        crate::archetype::lemma_comp_index_of(arch, ty.id);
                        assert(idx == comp_index_of(arch, ty.id)) by {
                            let ci = comp_index_of(arch, ty.id);
                            if ci != idx {
                                assert(arch[ci].id == arch[idx as int].id);
                            }
                        }
                        crate::archetype_data_page::lemma_cell_bounds(
                            arch,
                            self.archetypes_container.layouts@[arch_index as int],
                            idx as int,
                            row as int,
                        );
                    }
                    let offset = self.archetypes_container.layouts[arch_index].offsets[idx];
                    let size = archetype.component_at(idx).size;
                    let bytes = self.archetypes_container.pages[page_index].get_component_data(
                        row,
                        offset,
                        size,
                    );
                    proof {
                        assert(bytes@ =~= self.spec_component_bytes(id as int, ty.id));
                    }
                    values.push(bytes);
                },
                None => {
                    return None;
                },
            }
            k = k + 1;
        }
        Some(values)
    }

    /// The same payload copies as [`Self::get_components_refs`]; the
    /// store itself is not changed.
    pub fn get_components_refs_mut(&mut self, entity: Entity, component_types: &[ComponentType])
        -> (r: Option<Vec<Vec<u8>>>)
        requires
            old(self).wf(),
        ensures
            *final(self) == *old(self),
            r is Some <==> (old(self).spec_valid_with_archetype(entity) && forall|k: int|
                0 <= k < component_types@.len() ==> has_comp_id(
                    old(self).spec_archetype_of(entity.id as int).unwrap(),
                    component_types@[k].id,
                )),
            r matches Some(values) ==> values@.len() == component_types@.len() && forall|k: int|
                0 <= k < component_types@.len() ==> (#[trigger] values@[k])@ == old(self).spec_component_bytes(entity.id as int, component_types@[k].id),
    {
        self.get_components_refs(entity, component_types)
    }

    /// Marks the entity with tag `tag`.
    #[inline(always)]
    pub fn add_tag(&mut self, entity: Entity, tag: u64)
        requires
            old(self).wf(),
            (entity.id as int) < old(self).spec_capacity(),
        ensures
            final(self).wf(),
            final(self).tag_container.spec_has_tag(tag, entity.id as int),
            forall|t: u64, i: int|
                !(t == tag && i == entity.id) ==> final(self).tag_container.spec_has_tag(t, i)
                    == old(self).tag_container.spec_has_tag(t, i),
            *final(self) == (Store { tag_container: final(self).tag_container, ..*old(self) }),
    {
        self.tag_container.add_tag(tag, entity.id);
        proof {
            lemma_wf_tag_only(*old(self), *self);
        }
    }

    /// Clears tag `tag` from the entity.
    #[inline(always)]
    pub fn remove_tag(&mut self, entity: Entity, tag: u64)
        requires
            old(self).wf(),
            (entity.id as int) < old(self).spec_capacity(),
        ensures
            final(self).wf(),
            !final(self).tag_container.spec_has_tag(tag, entity.id as int),
            forall|t: u64, i: int|
                !(t == tag && i == entity.id) ==> final(self).tag_container.spec_has_tag(t, i)
                    == old(self).tag_container.spec_has_tag(t, i),
            *final(self) == (Store { tag_container: final(self).tag_container, ..*old(self) }),
    {
        self.tag_container.remove_tag(tag, entity.id);
        proof {
            lemma_wf_tag_only(*old(self), *self);
        }
    }

    /// Whether the entity carries tag `tag`.
    #[inline(always)]
    pub fn has_tag(&self, entity: Entity, tag: u64) -> (r: bool)
        requires
            self.wf(),
            (entity.id as int) < self.spec_capacity(),
        ensures
            r == self.tag_container.spec_has_tag(tag, entity.id as int),
    {
        self.tag_container.has_tag(tag, entity.id)
    }

    /// Appends the entity at the tail of order group `group`.
    pub fn add_entity_order_by(&mut self, entity: Entity, group: u64)
        requires
            old(self).wf(),
            (entity.id as int) < old(self).spec_capacity(),
            !old(self).order_group_container.spec_member(group, entity.id),
        ensures
            final(self).wf(),
            final(self).order_group_container.spec_order(group) == old(self).order_group_container.spec_order(group).push(entity.id),
            forall|g: u64|
                g != group ==> final(self).order_group_container.spec_order(g) == old(self).order_group_container.spec_order(g),
            *final(self) == (Store {
                order_group_container: final(self).order_group_container,
                ..*old(self)
            }),
    {
        self.order_group_container.add_id_ordered_by(group, entity.id);
        proof {
            lemma_wf_order_only(*old(self), *self);
        }
    }

    /// Inserts the entity directly after `next_to_entity` in group
    /// `group`'s order.
    pub fn add_entity_next_to_order_by(&mut self, entity: Entity, next_to_entity: Entity, group: u64)
        requires
            old(self).wf(),
            (entity.id as int) < old(self).spec_capacity(),
            old(self).order_group_container.spec_member(group, next_to_entity.id),
            !old(self).order_group_container.spec_member(group, entity.id),
        ensures
            final(self).wf(),
            final(self).order_group_container.spec_order(group) == old(self).order_group_container.spec_order(group).insert(
                crate::order_group_container::seq_index_of(
                    old(self).order_group_container.spec_order(group),
                    next_to_entity.id,
                ) + 1,
                entity.id,
            ),
            forall|g: u64|
                g != group ==> final(self).order_group_container.spec_order(g) == old(self).order_group_container.spec_order(g),
            *final(self) == (Store {
                order_group_container: final(self).order_group_container,
                ..*old(self)
            }),
    {
        self.order_group_container.add_id_next_to_ordered_by(group, entity.id, next_to_entity.id);
        proof {
            lemma_wf_order_only(*old(self), *self);
        }
    }

    /// Inserts the entity directly before `previous_to_entity` in group
    /// `group`'s order.
    pub fn add_entity_previous_to_order_by(
        &mut self,
        entity: Entity,
        previous_to_entity: Entity,
        group: u64,
    )
        requires
            old(self).wf(),
            (entity.id as int) < old(self).spec_capacity(),
            old(self).order_group_container.spec_member(group, previous_to_entity.id),
            !old(self).order_group_container.spec_member(group, entity.id),
        ensures
            final(self).wf(),
            final(self).order_group_container.spec_order(group) == old(self).order_group_container.spec_order(group).insert(
                crate::order_group_container::seq_index_of(
                    old(self).order_group_container.spec_order(group),
                    previous_to_entity.id,
                ),
                entity.id,
            ),
            forall|g: u64|
                g != group ==> final(self).order_group_container.spec_order(g) == old(self).order_group_container.spec_order(g),
            *final(self) == (Store {
                order_group_container: final(self).order_group_container,
                ..*old(self)
            }),
    {
        self.order_group_container.add_id_previous_to_ordered_by(
            group,
            entity.id,
            previous_to_entity.id,
        );
        proof {
            lemma_wf_order_only(*old(self), *self);
        }
    }

    /// Splices the entity out of order group `group`.
    pub fn remove_entity_order_by(&mut self, entity: Entity, group: u64)
        requires
            old(self).wf(),
            (entity.id as int) < old(self).spec_capacity(),
        ensures
            final(self).wf(),
            final(self).order_group_container.spec_order(group)
                == crate::order_group_container::seq_remove_elem(
                old(self).order_group_container.spec_order(group),
                entity.id,
            ),
            forall|g: u64|
                g != group ==> final(self).order_group_container.spec_order(g) == old(self).order_group_container.spec_order(g),
            *final(self) == (Store {
                order_group_container: final(self).order_group_container,
                ..*old(self)
            }),
    {
        self.order_group_container.remove_id_ordered_by(group, entity.id);
        proof {
            lemma_wf_order_only(*old(self), *self);
        }
    }

    /// The entity linked after this one in group `group`, if any, with
    /// its current version.
    pub fn get_next_entity_ordered_by(&self, entity: Entity, group: u64) -> (r: Option<Entity>)
        requires
            self.wf(),
            (entity.id as int) < self.spec_capacity(),
        ensures
            r matches Some(e) ==> self.order_group_container.spec_next(group, entity.id) == Some(
                e.id,
            ) && e.version == self.entities_container.spec_version(e.id as int),
            r is None <==> self.order_group_container.spec_next(group, entity.id) is None,
    {
        match self.order_group_container.get_next_id_ordered_by(group, entity.id) {
            Some(id) => Some(self.entity_by_id(id)),
            None => None,
        }
    }

    /// The entity linked before this one in group `group`, if any.
    pub fn get_previous_entity_ordered_by(&self, entity: Entity, group: u64) -> (r: Option<Entity>)
        requires
            self.wf(),
            (entity.id as int) < self.spec_capacity(),
        ensures
            r matches Some(e) ==> self.order_group_container.spec_previous(group, entity.id)
                == Some(e.id) && e.version == self.entities_container.spec_version(e.id as int),
            r is None <==> self.order_group_container.spec_previous(group, entity.id) is None,
    {
        match self.order_group_container.get_previous_id_ordered_by(group, entity.id) {
            Some(id) => Some(self.entity_by_id(id)),
            None => None,
        }
    }

    /// The first entity of group `group`'s order, if any.
    pub fn get_first_entity_ordered_by(&self, group: u64) -> (r: Option<Entity>)
        requires
            self.wf(),
        ensures
            r matches Some(e) ==> self.order_group_container.spec_order(group).len() > 0 && e.id
                == self.order_group_container.spec_order(group)[0] && e.version
                == self.entities_container.spec_version(e.id as int),
            r is None <==> self.order_group_container.spec_order(group).len() == 0,
    {
        match self.order_group_container.get_head_id(group) {
            Some(id) => Some(self.entity_by_id(id)),
            None => None,
        }
    }

    /// The last entity of group `group`'s order, if any.
    pub fn get_last_entity_ordered_by(&self, group: u64) -> (r: Option<Entity>)
        requires
            self.wf(),
        ensures
            r matches Some(e) ==> self.order_group_container.spec_order(group).len() > 0 && e.id
                == self.order_group_container.spec_order(group).last() && e.version
                == self.entities_container.spec_version(e.id as int),
            r is None <==> self.order_group_container.spec_order(group).len() == 0,
    {
        match self.order_group_container.get_tail_id(group) {
            Some(id) => Some(self.entity_by_id(id)),
            None => None,
        }
    }

    /// The handle for an id currently tracked by the store.
    pub(crate) fn entity_by_id(&self, id: u32) -> (r: Entity)
        requires
            self.wf(),
            (id as int) < self.spec_capacity(),
        ensures
            r.id == id,
            r.version == self.entities_container.spec_version(id as int),
    {
        Entity { id, version: self.entity_to_version_at(id) }
    }

    /// The stored version counter of an id.
    fn entity_to_version_at(&self, id: u32) -> (r: u32)
        requires
            self.wf(),
            (id as int) < self.spec_capacity(),
        ensures
            r == self.entities_container.spec_version(id as int),
    {
        self.entities_container.entity_to_version[id as usize]
    }
}


/// A change confined to the tag container preserves the store invariant.
proof fn lemma_wf_tag_only(pre: Store, post: Store)
    requires
        pre.wf(),
        post.tag_container.wf(),
        post.tag_container.entity_capacity == pre.tag_container.entity_capacity,
        post == (Store { tag_container: post.tag_container, ..pre }),
    ensures
        post.wf(),
{
    let cap = post.spec_capacity();
    assert(cap == pre.spec_capacity());
    assert forall|i: int|
        cap <= i < post.entity_has_archetype_bit_vec@.len() * 32
            implies !post.spec_has_archetype(i) by {
        assert(!pre.spec_has_archetype(i));
    }
    assert forall|id: int|
        0 <= id < cap && post.entities_container.spec_alive(id) && post.spec_has_archetype(
            id,
        ) implies {
        let p = post.spec_page_of(id);
        let row = post.spec_row_of(id);
        &&& 0 <= p < post.archetypes_container.pages@.len()
        &&& post.archetypes_container.spec_page_arch(p) is Some
        &&& 0 <= row < post.archetypes_container.pages@[p].entities_ids@.len()
        &&& post.archetypes_container.pages@[p].entities_ids@[row] == id
    } by {
        assert(pre.entities_container.spec_alive(id) && pre.spec_has_archetype(id));
    }
    assert forall|id: int|
        0 <= id < cap && !post.entities_container.spec_alive(id)
            implies !post.spec_has_archetype(id) by {
        assert(!pre.entities_container.spec_alive(id));
        assert(!pre.spec_has_archetype(id));
    }
    assert forall|p: int, row: int|
        0 <= p < post.archetypes_container.pages@.len() && 0 <= row
            < post.archetypes_container.pages@[p].entities_ids@.len() implies {
        let id = (#[trigger] post.archetypes_container.pages@[p].entities_ids@[row]) as int;
        &&& id < cap
        &&& post.entities_container.spec_alive(id)
        &&& post.spec_has_archetype(id)
        &&& post.spec_page_of(id) == p
        &&& post.spec_row_of(id) == row
    } by {
        let id = (pre.archetypes_container.pages@[p].entities_ids@[row]) as int;
        assert(pre.entities_container.spec_alive(id) && pre.spec_has_archetype(id));
    }
}

/// A change confined to the order groups preserves the store invariant.
proof fn lemma_wf_order_only(pre: Store, post: Store)
    requires
        pre.wf(),
        post.order_group_container.wf(),
        post.order_group_container.entity_capacity == pre.order_group_container.entity_capacity,
        post == (Store { order_group_container: post.order_group_container, ..pre }),
    ensures
        post.wf(),
{
    let cap = post.spec_capacity();
    assert(cap == pre.spec_capacity());
    assert forall|i: int|
        cap <= i < post.entity_has_archetype_bit_vec@.len() * 32
            implies !post.spec_has_archetype(i) by {
        assert(!pre.spec_has_archetype(i));
    }
    assert forall|id: int|
        0 <= id < cap && post.entities_container.spec_alive(id) && post.spec_has_archetype(
            id,
        ) implies {
        let p = post.spec_page_of(id);
        let row = post.spec_row_of(id);
        &&& 0 <= p < post.archetypes_container.pages@.len()
        &&& post.archetypes_container.spec_page_arch(p) is Some
        &&& 0 <= row < post.archetypes_container.pages@[p].entities_ids@.len()
        &&& post.archetypes_container.pages@[p].entities_ids@[row] == id
    } by {
        assert(pre.entities_container.spec_alive(id) && pre.spec_has_archetype(id));
    }
    assert forall|id: int|
        0 <= id < cap && !post.entities_container.spec_alive(id)
            implies !post.spec_has_archetype(id) by {
        assert(!pre.entities_container.spec_alive(id));
        assert(!pre.spec_has_archetype(id));
    }
    assert forall|p: int, row: int|
        0 <= p < post.archetypes_container.pages@.len() && 0 <= row
            < post.archetypes_container.pages@[p].entities_ids@.len() implies {
        let id = (#[trigger] post.archetypes_container.pages@[p].entities_ids@[row]) as int;
        &&& id < cap
        &&& post.entities_container.spec_alive(id)
        &&& post.spec_has_archetype(id)
        &&& post.spec_page_of(id) == p
        &&& post.spec_row_of(id) == row
    } by {
        let id = (pre.archetypes_container.pages@[p].entities_ids@[row]) as int;
        assert(pre.entities_container.spec_alive(id) && pre.spec_has_archetype(id));
    }
}

/// After a zero-extending growth of a bit vector, every bit reads as it
/// did (or false beyond the old words).
proof fn lemma_grown_bits(ow: Seq<u32>, nw: Seq<u32>, old_cap: int, i: int)
    requires
        0 <= i < nw.len() * 32,
        ow.len() <= nw.len(),
        forall|k: int| 0 <= k < ow.len() ==> nw[k] == ow[k],
        forall|k: int| ow.len() <= k < nw.len() ==> nw[k] == 0u32,
    ensures
        bitvec_utils::spec_bit_on(nw, i) == (i < ow.len() * 32 && bitvec_utils::spec_bit_on(
            ow,
            i,
        )),
{
    crate::bitvec_utils::lemma_bit_positions(i, (i % 32) as u32, nw.len() as nat);
    if i / 32 < ow.len() {
        bitvec_utils::lemma_same_word_same_bit(ow, nw, i);
        assert(i < ow.len() * 32) by (nonlinear_arith)
            requires
                i / 32 < ow.len(),
                i == (i / 32) * 32 + (i % 32),
                0 <= i % 32 < 32,
        ;
    } else {
        bitvec_utils::lemma_zero_word_bit(nw, i);
        assert(!(i < ow.len() * 32)) by (nonlinear_arith)
            requires
                i / 32 >= ow.len(),
                i == (i / 32) * 32 + (i % 32),
                0 <= i % 32 < 32,
        ;
    }
}

/// Registering an entity (with the side tables grown in step) preserves
/// the store invariant: the new entity has no row yet, and every row
/// still maps to its live owner.
proof fn lemma_store_wf_after_register(pre: Store, post: Store, new_id: int)
    requires
        pre.wf(),
        post.archetypes_container == pre.archetypes_container,
        post.entities_container.wf(),
        post.tag_container.wf(),
        post.order_group_container.wf(),
        post.tag_container.entity_capacity == post.spec_capacity(),
        post.order_group_container.entity_capacity == post.spec_capacity(),
        post.entity_to_page@.len() == post.spec_capacity(),
        post.entity_to_index_in_page@.len() == post.spec_capacity(),
        post.entity_has_archetype_bit_vec@.len() == crate::bitvec_utils::spec_word_count(
            post.spec_capacity(),
        ),
        post.spec_capacity() >= pre.spec_capacity(),
        0 <= new_id < post.spec_capacity(),
        forall|i: int|
            post.spec_capacity() <= i < post.entity_has_archetype_bit_vec@.len() * 32
                ==> !post.spec_has_archetype(i),
        forall|i: int|
            0 <= i < pre.spec_capacity() ==> post.spec_has_archetype(i) == pre.spec_has_archetype(
                i,
            ),
        forall|i: int|
            pre.spec_capacity() <= i < post.entity_has_archetype_bit_vec@.len() * 32
                ==> !post.spec_has_archetype(i),
        forall|i: int|
            0 <= i < pre.spec_capacity() ==> post.spec_page_of(i) == pre.spec_page_of(i)
                && post.spec_row_of(i) == pre.spec_row_of(i),
        forall|i: int|
            0 <= i < post.entities_container.entity_to_is_alive_bitvec@.len() * 32 && i != new_id
                ==> post.entities_container.spec_alive(i) == (i
                < pre.entities_container.entity_to_is_alive_bitvec@.len() * 32
                && pre.entities_container.spec_alive(i)),
        new_id < pre.spec_capacity() ==> !pre.entities_container.spec_alive(new_id),
        post.entities_container.spec_alive(new_id),
    ensures
        post.wf(),
{
    assert forall|id: int|
        0 <= id < post.spec_capacity() && !post.entities_container.spec_alive(id)
            implies !post.spec_has_archetype(id) by {
        if id < pre.spec_capacity() {
            crate::bitvec_utils::lemma_bit_range(id, pre.spec_capacity());
            assert(id != new_id);
            if pre.entities_container.spec_alive(id) {
                assert(post.entities_container.spec_alive(id));
            } else {
                assert(!pre.spec_has_archetype(id));
            }
        }
    }
    assert forall|id: int|
        0 <= id < post.spec_capacity() && post.entities_container.spec_alive(id)
            && post.spec_has_archetype(id) implies {
        let p = post.spec_page_of(id);
        let row = post.spec_row_of(id);
        &&& 0 <= p < post.archetypes_container.pages@.len()
        &&& post.archetypes_container.spec_page_arch(p) is Some
        &&& 0 <= row < post.archetypes_container.pages@[p].entities_ids@.len()
        &&& post.archetypes_container.pages@[p].entities_ids@[row] == id
    } by {
        assert(id < pre.spec_capacity());
        if id == new_id {
            // the id was dead (or fresh) before, so its bit was clear
            if id < pre.spec_capacity() {
                assert(!pre.spec_has_archetype(id));
            }
            assert(false);
        } else {
            assert(pre.entities_container.spec_alive(id)) by {
                crate::bitvec_utils::lemma_bit_range(id, pre.spec_capacity());
            }
        }
    }
    assert forall|p: int, row: int|
        0 <= p < post.archetypes_container.pages@.len() && 0 <= row
            < post.archetypes_container.pages@[p].entities_ids@.len() implies {
        let id = (#[trigger] post.archetypes_container.pages@[p].entities_ids@[row]) as int;
        &&& id < post.spec_capacity()
        &&& post.entities_container.spec_alive(id)
        &&& post.spec_has_archetype(id)
        &&& post.spec_page_of(id) == p
        &&& post.spec_row_of(id) == row
    } by {
        let id = pre.archetypes_container.pages@[p].entities_ids@[row] as int;
        assert(id < pre.spec_capacity());
        assert(pre.entities_container.spec_alive(id));
        crate::bitvec_utils::lemma_bit_range(id, pre.spec_capacity());
        assert(id != new_id) by {
            if id == new_id {
                assert(new_id < pre.spec_capacity());
                assert(!pre.entities_container.spec_alive(new_id));
            }
        }
        assert(post.entities_container.spec_alive(id));
    }
}

} // verus!

verus! {

/// Seating a freshly registered entity in a page row (side tables and
/// the occupancy bit set in step) restores the store invariant.
#[verifier::rlimit(100)]
#[verifier::spinoff_prover]
proof fn lemma_store_wf_after_seat(mid: Store, post: Store, new_id: int, loc: EntityInArchetype)
    requires
        mid.wf(),
        0 <= new_id < mid.spec_capacity(),
        mid.entities_container.spec_alive(new_id),
        !mid.spec_has_archetype(new_id),
        // the container accepted the entity at `loc`
        post.archetypes_container.wf(),
        post.archetypes_container.pages@.len() >= mid.archetypes_container.pages@.len(),
        post.archetypes_container.pages@.len() <= mid.archetypes_container.pages@.len() + 1,
        post.archetypes_container.pages@.len() > mid.archetypes_container.pages@.len()
            ==> loc.page_index as int == mid.archetypes_container.pages@.len(),
        (loc.page_index as int) < post.archetypes_container.pages@.len(),
        post.archetypes_container.spec_page_arch(loc.page_index as int) is Some,
        post.archetypes_container.pages@[loc.page_index as int].entities_ids@ == (if (
        loc.page_index as int) < mid.archetypes_container.pages@.len() {
            mid.archetypes_container.pages@[loc.page_index as int].entities_ids@
        } else {
            Seq::<u32>::empty()
        }).push(new_id as u32),
        loc.index_in_page as int == (if (loc.page_index as int)
            < mid.archetypes_container.pages@.len() {
            mid.archetypes_container.pages@[loc.page_index as int].entities_ids@.len() as int
        } else {
            0
        }),
        forall|q: int|
            0 <= q < mid.archetypes_container.pages@.len() && q != loc.page_index ==> (
            #[trigger] post.archetypes_container.pages@[q])
                == mid.archetypes_container.pages@[q]
                && post.archetypes_container.page_to_archetype@[q]
                == mid.archetypes_container.page_to_archetype@[q],
        // the side tables and the occupancy bit were updated for `new_id`
        post.entities_container == mid.entities_container,
        post.tag_container == mid.tag_container,
        post.order_group_container == mid.order_group_container,
        post.entity_to_page@ == mid.entity_to_page@.update(new_id, loc.page_index),
        post.entity_to_index_in_page@ == mid.entity_to_index_in_page@.update(
            new_id,
            loc.index_in_page,
        ),
        post.entity_has_archetype_bit_vec@.len() == mid.entity_has_archetype_bit_vec@.len(),
        post.spec_has_archetype(new_id),
        forall|i: int|
            0 <= i < post.entity_has_archetype_bit_vec@.len() * 32 && i != new_id
                ==> post.spec_has_archetype(i) == mid.spec_has_archetype(i),
    ensures
        post.wf(),
{
    let cap = post.spec_capacity();
    assert(cap == mid.spec_capacity());
    assert forall|i: int|
        cap <= i < post.entity_has_archetype_bit_vec@.len() * 32
            implies !post.spec_has_archetype(i) by {
        assert(i != new_id);
        assert(!mid.spec_has_archetype(i));
    }
    assert forall|id: int|
        0 <= id < cap && !post.entities_container.spec_alive(id)
            implies !post.spec_has_archetype(id) by {
        assert(id != new_id);
        crate::bitvec_utils::lemma_bit_range(id, cap);
        assert(!mid.spec_has_archetype(id));
    }
    assert forall|id: int|
        0 <= id < cap && post.entities_container.spec_alive(id) && post.spec_has_archetype(
            id,
        ) implies {
        let p = post.spec_page_of(id);
        let row = post.spec_row_of(id);
        &&& 0 <= p < post.archetypes_container.pages@.len()
        &&& post.archetypes_container.spec_page_arch(p) is Some
        &&& 0 <= row < post.archetypes_container.pages@[p].entities_ids@.len()
        &&& post.archetypes_container.pages@[p].entities_ids@[row] == id
    } by {
        if id == new_id {
            assert(post.spec_page_of(new_id) == loc.page_index as int);
            assert(post.spec_row_of(new_id) == loc.index_in_page as int);
            let ids = post.archetypes_container.pages@[loc.page_index as int].entities_ids@;
            assert(ids[ids.len() - 1] == new_id as u32);
        } else {
            crate::bitvec_utils::lemma_bit_range(id, cap);
            assert(mid.spec_has_archetype(id));
            assert(mid.entities_container.spec_alive(id));
            let p = mid.spec_page_of(id);
            let row = mid.spec_row_of(id);
            assert(post.spec_page_of(id) == p && post.spec_row_of(id) == row);
            if p == loc.page_index as int {
                let oldids = mid.archetypes_container.pages@[p].entities_ids@;
                assert(post.archetypes_container.pages@[p].entities_ids@[row] == oldids[row]);
                assert(post.archetypes_container.spec_page_arch(p) is Some);
            } else {
                assert(post.archetypes_container.pages@[p] == mid.archetypes_container.pages@[p]);
                assert(post.archetypes_container.page_to_archetype@[p]
                    == mid.archetypes_container.page_to_archetype@[p]);
            }
        }
    }
    assert forall|p: int, row: int|
        0 <= p < post.archetypes_container.pages@.len() && 0 <= row
            < post.archetypes_container.pages@[p].entities_ids@.len() implies {
        let id = (#[trigger] post.archetypes_container.pages@[p].entities_ids@[row]) as int;
        &&& id < cap
        &&& post.entities_container.spec_alive(id)
        &&& post.spec_has_archetype(id)
        &&& post.spec_page_of(id) == p
        &&& post.spec_row_of(id) == row
    } by {
        if p == loc.page_index as int {
            let newids = post.archetypes_container.pages@[p].entities_ids@;
            if row == newids.len() - 1 {
                assert(newids[row] == new_id as u32);
            } else {
                let oldids = mid.archetypes_container.pages@[p].entities_ids@;
                assert((p as int) < mid.archetypes_container.pages@.len()) by {
                    if (p as int) >= mid.archetypes_container.pages@.len() {
                        assert(newids.len() == 1);
                    }
                }
                let id = oldids[row] as int;
                assert(newids[row] == oldids[row]);
                assert(mid.entities_container.spec_alive(id));
                assert(mid.spec_has_archetype(id));
                crate::bitvec_utils::lemma_bit_range(id, cap);
                assert(id != new_id) by {
                    assert(!mid.spec_has_archetype(new_id));
                }
            }
        } else {
            assert((p as int) < mid.archetypes_container.pages@.len());
            let id = mid.archetypes_container.pages@[p].entities_ids@[row] as int;
            assert(mid.entities_container.spec_alive(id));
            assert(mid.spec_has_archetype(id));
            crate::bitvec_utils::lemma_bit_range(id, cap);
            assert(id != new_id) by {
                assert(!mid.spec_has_archetype(new_id));
            }
        }
    }
}

} // verus!

verus! {

/// Vacating an entity's row (swap-remove with side-table fix-up and the
/// occupancy bit cleared) restores the store invariant; the entity
/// itself is left alive for the caller to free.
#[verifier::rlimit(100)]
#[verifier::spinoff_prover]
proof fn lemma_store_wf_after_unseat(
    pre: Store,
    post: Store,
    id: int,
    loc: EntityInArchetype,
    swap: Option<crate::archetype_data_page::SwapRemoveInfo>,
)
    requires
        pre.wf(),
        0 <= id < pre.spec_capacity(),
        pre.entities_container.spec_alive(id),
        pre.spec_has_archetype(id),
        loc.page_index as int == pre.spec_page_of(id),
        loc.index_in_page as int == pre.spec_row_of(id),
        // what the container's swap-remove did
        post.archetypes_container.wf(),
        post.archetypes_container.pages@.len() == pre.archetypes_container.pages@.len(),
        ({
            let p = loc.page_index as int;
            let row = loc.index_in_page as int;
            let old_ids = pre.archetypes_container.pages@[p].entities_ids@;
            &&& post.archetypes_container.pages@[p].entities_ids@ == old_ids.update(
                row,
                old_ids.last(),
            ).drop_last()
            &&& (row + 1 == old_ids.len() ==> swap is None)
            &&& (row + 1 < old_ids.len() ==> swap == Some(
                crate::archetype_data_page::SwapRemoveInfo { id_to_replace: old_ids.last() },
            ))
            &&& (post.archetypes_container.pages@[p].entities_ids@.len() > 0
                ==> post.archetypes_container.spec_page_arch(p)
                == pre.archetypes_container.spec_page_arch(p))
        }),
        forall|q: int|
            0 <= q < pre.archetypes_container.pages@.len() && q != loc.page_index ==> (
            #[trigger] post.archetypes_container.pages@[q]) == pre.archetypes_container.pages@[q]
                && post.archetypes_container.page_to_archetype@[q]
                == pre.archetypes_container.page_to_archetype@[q],
        // the side tables and occupancy bit after the fix-up
        post.entities_container == pre.entities_container,
        post.tag_container == pre.tag_container,
        post.order_group_container == pre.order_group_container,
        post.entity_to_page@ == pre.entity_to_page@,
        post.entity_to_index_in_page@ == (match swap {
            Some(info) => pre.entity_to_index_in_page@.update(
                info.id_to_replace as int,
                loc.index_in_page,
            ),
            None => pre.entity_to_index_in_page@,
        }),
        post.entity_has_archetype_bit_vec@.len() == pre.entity_has_archetype_bit_vec@.len(),
        !post.spec_has_archetype(id),
        forall|i: int|
            0 <= i < post.entity_has_archetype_bit_vec@.len() * 32 && i != id
                ==> post.spec_has_archetype(i) == pre.spec_has_archetype(i),
    ensures
        post.wf(),
{
    let cap = post.spec_capacity();
    let p = loc.page_index as int;
    let row = loc.index_in_page as int;
    let old_ids = pre.archetypes_container.pages@[p].entities_ids@;
    let new_ids = post.archetypes_container.pages@[p].entities_ids@;
    assert(old_ids[row] == id);
    assert forall|r2: int| 0 <= r2 < old_ids.len() && old_ids[r2] == id implies r2 == row by {
        assert(pre.spec_row_of(old_ids[r2] as int) == r2);
    }
    assert forall|i: int|
        cap <= i < post.entity_has_archetype_bit_vec@.len() * 32
            implies !post.spec_has_archetype(i) by {
        assert(i != id);
        assert(!pre.spec_has_archetype(i));
    }
    assert forall|i: int|
        0 <= i < cap && !post.entities_container.spec_alive(i)
            implies !post.spec_has_archetype(i) by {
        crate::bitvec_utils::lemma_bit_range(i, cap);
        if i != id {
            assert(!pre.spec_has_archetype(i));
        }
    }
    assert forall|i: int|
        0 <= i < cap && post.entities_container.spec_alive(i) && post.spec_has_archetype(
            i,
        ) implies {
        let pp = post.spec_page_of(i);
        let rr = post.spec_row_of(i);
        &&& 0 <= pp < post.archetypes_container.pages@.len()
        &&& post.archetypes_container.spec_page_arch(pp) is Some
        &&& 0 <= rr < post.archetypes_container.pages@[pp].entities_ids@.len()
        &&& post.archetypes_container.pages@[pp].entities_ids@[rr] == i
    } by {
        assert(i != id);
        crate::bitvec_utils::lemma_bit_range(i, cap);
        assert(pre.spec_has_archetype(i));
        assert(pre.entities_container.spec_alive(i));
        let pp = pre.spec_page_of(i);
        let rr = pre.spec_row_of(i);
        if swap is Some && i == swap.unwrap().id_to_replace {
            let info = swap.unwrap();
            assert(pp == p && rr == old_ids.len() - 1);
            assert(post.spec_page_of(i) == p);
            assert(post.spec_row_of(i) == row);
            assert(new_ids[row] == old_ids.last());
            assert(row < new_ids.len());
            assert(post.archetypes_container.spec_page_arch(p) is Some);
        } else {
            assert(post.spec_page_of(i) == pp);
            assert(post.spec_row_of(i) == rr) by {
                if swap is Some {
                    assert(i != swap.unwrap().id_to_replace);
                }
            }
            if pp == p {
                assert(rr != row);
                assert(rr != old_ids.len() - 1) by {
                    if rr == old_ids.len() - 1 {
                        assert(old_ids[rr] == i);
                        if swap is Some {
                            assert(swap.unwrap().id_to_replace == old_ids.last());
                        } else {
                            assert(row + 1 == old_ids.len());
                        }
                    }
                }
                assert(rr < new_ids.len());
                assert(new_ids[rr] == old_ids[rr]);
                assert(new_ids.len() > 0);
                assert(post.archetypes_container.spec_page_arch(p) is Some);
            } else {
                assert(post.archetypes_container.pages@[pp]
                    == pre.archetypes_container.pages@[pp]);
                assert(post.archetypes_container.page_to_archetype@[pp]
                    == pre.archetypes_container.page_to_archetype@[pp]);
            }
        }
    }
    assert forall|q: int, r2: int|
        0 <= q < post.archetypes_container.pages@.len() && 0 <= r2
            < post.archetypes_container.pages@[q].entities_ids@.len() implies {
        let i = (#[trigger] post.archetypes_container.pages@[q].entities_ids@[r2]) as int;
        &&& i < cap
        &&& post.entities_container.spec_alive(i)
        &&& post.spec_has_archetype(i)
        &&& post.spec_page_of(i) == q
        &&& post.spec_row_of(i) == r2
    } by {
        if q == p {
            let i = new_ids[r2] as int;
            if r2 == row && row + 1 < old_ids.len() {
                assert(new_ids[r2] == old_ids.last());
                let m = old_ids.last() as int;
                assert(pre.entities_container.spec_alive(m) && pre.spec_has_archetype(m));
                crate::bitvec_utils::lemma_bit_range(m, cap);
                assert(m != id) by {
                    assert(pre.spec_row_of(m) == old_ids.len() - 1);
                }
                assert(post.spec_has_archetype(m));
                assert(post.spec_row_of(m) == row);
                assert(post.spec_page_of(m) == p);
            } else {
                assert(new_ids[r2] == old_ids[r2]);
                assert(pre.entities_container.spec_alive(i) && pre.spec_has_archetype(i));
                crate::bitvec_utils::lemma_bit_range(i, cap);
                assert(i != id) by {
                    assert(r2 != row);
                }
                assert(post.spec_has_archetype(i));
                assert(post.spec_row_of(i) == r2) by {
                    if swap is Some {
                        let info = swap.unwrap();
                        assert(info.id_to_replace == old_ids.last());
                        assert(i != info.id_to_replace as int) by {
                            if i == info.id_to_replace as int {
                                assert(pre.spec_row_of(i) == old_ids.len() - 1);
                                assert(pre.spec_row_of(i) == r2);
                            }
                        }
                    }
                }
            }
        } else {
            let i = (pre.archetypes_container.pages@[q].entities_ids@[r2]) as int;
            assert(pre.entities_container.spec_alive(i) && pre.spec_has_archetype(i));
            crate::bitvec_utils::lemma_bit_range(i, cap);
            assert(i != id) by {
                assert(pre.spec_page_of(i) == q);
            }
            assert(post.spec_has_archetype(i));
            assert(post.spec_row_of(i) == r2) by {
                if swap is Some {
                    let info = swap.unwrap();
                    assert(i != info.id_to_replace as int) by {
                        if i == info.id_to_replace as int {
                            assert(pre.spec_page_of(old_ids.last() as int) == p);
                        }
                    }
                }
            }
        }
    }
}

/// Vacating one entity's row preserves every other seated entity's
/// archetype and stored payload bytes: the swap-moved row carries its
/// bytes along, and no other cell is touched.
#[verifier::rlimit(100)]
#[verifier::spinoff_prover]
proof fn lemma_unseat_bytes(
    pre: Store,
    post: Store,
    id: int,
    loc: EntityInArchetype,
    swap: Option<crate::archetype_data_page::SwapRemoveInfo>,
)
    requires
        pre.wf(),
        0 <= id < pre.spec_capacity(),
        pre.entities_container.spec_alive(id),
        pre.spec_has_archetype(id),
        loc.page_index as int == pre.spec_page_of(id),
        loc.index_in_page as int == pre.spec_row_of(id),
        post.archetypes_container.pages@.len() == pre.archetypes_container.pages@.len(),
        post.archetypes_container.archetypes@ == pre.archetypes_container.archetypes@,
        post.archetypes_container.layouts@ == pre.archetypes_container.layouts@,
        ({
            let p = loc.page_index as int;
            let row = loc.index_in_page as int;
            let a = pre.archetypes_container.spec_page_arch(p).unwrap() as int;
            let arch = pre.archetypes_container.archetypes@[a]@;
            let offsets = pre.archetypes_container.layouts@[a].offsets@;
            let old_ids = pre.archetypes_container.pages@[p].entities_ids@;
            &&& post.archetypes_container.pages@[p].entities_ids@ == old_ids.update(
                row,
                old_ids.last(),
            ).drop_last()
            &&& post.archetypes_container.pages@[p].components_data@.len() == PAGE_SIZE_BYTES
            &&& (row + 1 == old_ids.len() ==> swap is None
                && post.archetypes_container.pages@[p].components_data@
                == pre.archetypes_container.pages@[p].components_data@)
            &&& (row + 1 < old_ids.len() ==> {
                &&& swap == Some(
                    crate::archetype_data_page::SwapRemoveInfo { id_to_replace: old_ids.last() },
                )
                &&& forall|k: int, b: int|
                    0 <= k < arch.len() && 0 <= b < arch[k].size
                        ==> #[trigger] crate::archetype_data_page::cell_byte(
                        post.archetypes_container.pages@[p].components_data@,
                        offsets,
                        arch,
                        k,
                        row,
                        b,
                    ) == crate::archetype_data_page::cell_byte(
                        pre.archetypes_container.pages@[p].components_data@,
                        offsets,
                        arch,
                        k,
                        old_ids.len() - 1,
                        b,
                    )
                &&& forall|pos: int|
                    0 <= pos < PAGE_SIZE_BYTES && (forall|k: int|
                        0 <= k < arch.len() ==> !crate::archetype_data_page::in_cell(
                            offsets,
                            arch,
                            k,
                            row,
                            pos,
                        )) ==> post.archetypes_container.pages@[p].components_data@[pos]
                        == pre.archetypes_container.pages@[p].components_data@[pos]
            })
            &&& (post.archetypes_container.pages@[p].entities_ids@.len() > 0
                ==> post.archetypes_container.spec_page_arch(p)
                == pre.archetypes_container.spec_page_arch(p))
        }),
        forall|q: int|
            0 <= q < pre.archetypes_container.pages@.len() && q != loc.page_index ==> (
            #[trigger] post.archetypes_container.pages@[q]) == pre.archetypes_container.pages@[q]
                && post.archetypes_container.page_to_archetype@[q]
                == pre.archetypes_container.page_to_archetype@[q],
        post.entity_to_page@ == pre.entity_to_page@,
        post.entity_to_index_in_page@ == (match swap {
            Some(info) => pre.entity_to_index_in_page@.update(
                info.id_to_replace as int,
                loc.index_in_page,
            ),
            None => pre.entity_to_index_in_page@,
        }),
        post.entity_has_archetype_bit_vec@.len() == pre.entity_has_archetype_bit_vec@.len(),
        forall|i: int|
            0 <= i < post.entity_has_archetype_bit_vec@.len() * 32 && i != id
                ==> post.spec_has_archetype(i) == pre.spec_has_archetype(i),
        post.spec_capacity() == pre.spec_capacity(),
    ensures
        forall|i: int|
            0 <= i < pre.spec_capacity() && i != id && pre.entities_container.spec_alive(i)
                && pre.spec_has_archetype(i) ==> post.spec_archetype_of(i)
                == pre.spec_archetype_of(i),
        forall|i: int, t: u64|
            0 <= i < pre.spec_capacity() && i != id && pre.entities_container.spec_alive(i)
                && pre.spec_has_archetype(i) && has_comp_id(pre.spec_archetype_of(i).unwrap(), t)
                ==> post.spec_component_bytes(i, t) == pre.spec_component_bytes(i, t),
{
    let cap = pre.spec_capacity();
    let p = loc.page_index as int;
    let row = loc.index_in_page as int;
    let a = pre.archetypes_container.spec_page_arch(p).unwrap() as int;
    let arch = pre.archetypes_container.archetypes@[a]@;
    let layout = pre.archetypes_container.layouts@[a];
    let offsets = layout.offsets@;
    let old_ids = pre.archetypes_container.pages@[p].entities_ids@;
    assert(old_ids[row] == id);
    assert forall|r2: int| 0 <= r2 < old_ids.len() && old_ids[r2] == id implies r2 == row by {
        assert(pre.spec_row_of(old_ids[r2] as int) == r2);
    }
    assert(crate::archetype_layout::layout_wf(arch, layout));
    assert(pre.archetypes_container.pages@[p].capacity == layout.entities_capacity);
    assert forall|i: int|
        0 <= i < cap && i != id && pre.entities_container.spec_alive(i) && pre.spec_has_archetype(
            i,
        ) implies post.spec_archetype_of(i) == pre.spec_archetype_of(i) by {
        crate::bitvec_utils::lemma_bit_range(i, cap);
        let pp = pre.spec_page_of(i);
        assert(post.spec_page_of(i) == pp);
        if pp == p {
            assert(post.archetypes_container.pages@[p].entities_ids@.len() > 0) by {
                let rr = pre.spec_row_of(i);
                assert(rr != row);
                if swap is None {
                    assert(row + 1 == old_ids.len());
                }
            }
            assert(post.archetypes_container.spec_page_arch(p)
                == pre.archetypes_container.spec_page_arch(p));
        } else {
            assert(post.archetypes_container.pages@[pp]
                == pre.archetypes_container.pages@[pp]);
            assert(post.archetypes_container.page_to_archetype@[pp]
                == pre.archetypes_container.page_to_archetype@[pp]);
        }
    }
    assert forall|i: int, t: u64|
        0 <= i < cap && i != id && pre.entities_container.spec_alive(i) && pre.spec_has_archetype(
            i,
        ) && has_comp_id(pre.spec_archetype_of(i).unwrap(), t)
            implies post.spec_component_bytes(i, t) == pre.spec_component_bytes(i, t) by {
        crate::bitvec_utils::lemma_bit_range(i, cap);
        let pp = pre.spec_page_of(i);
        let rr = pre.spec_row_of(i);
        assert(post.spec_page_of(i) == pp);
        if pp != p {
            assert(post.archetypes_container.pages@[pp] == pre.archetypes_container.pages@[pp]);
            assert(post.archetypes_container.page_to_archetype@[pp]
                == pre.archetypes_container.page_to_archetype@[pp]);
            assert(post.spec_row_of(i) == rr) by {
                if swap is Some {
                    let m = swap.unwrap().id_to_replace as int;
                    assert(old_ids[old_ids.len() - 1] == old_ids.last());
                    assert(pre.spec_page_of(old_ids.last() as int) == p);
                    assert(i != m);
                }
            }
        } else {
            assert(rr != row);
            assert(pre.spec_arch_index_of(i) == a);
            assert(post.archetypes_container.pages@[p].entities_ids@.len() > 0) by {
                if swap is None {
                    assert(row + 1 == old_ids.len());
                }
            }
            assert(post.archetypes_container.spec_page_arch(p)
                == pre.archetypes_container.spec_page_arch(p));
            assert(post.spec_arch_index_of(i) == a);
            assert(pre.spec_archetype_of(i).unwrap() == arch);
            crate::archetype::lemma_comp_index_of(arch, t);
            let k = comp_index_of(arch, t);
            assert(0 <= k < arch.len());
            assert(rr < layout.entities_capacity) by {
                assert(pre.archetypes_container.pages@[p].wf());
            }
            assert(row < layout.entities_capacity) by {
                assert(pre.archetypes_container.pages@[p].wf());
            }
            let pre_data = pre.archetypes_container.pages@[p].components_data@;
            let post_data = post.archetypes_container.pages@[p].components_data@;
            assert(pre_data.len() == PAGE_SIZE_BYTES) by {
                assert(pre.archetypes_container.pages@[p].wf());
            }
            if swap is Some && i == swap.unwrap().id_to_replace as int {
                // the moved row: its cells were copied from the last row
                assert(rr == old_ids.len() - 1) by {
                    assert(old_ids[old_ids.len() - 1] == old_ids.last());
                    assert(pre.spec_row_of(old_ids.last() as int) == old_ids.len() - 1);
                }
                assert(row + 1 < old_ids.len()) by {
                    if row + 1 == old_ids.len() {
                        assert(swap is None);
                    }
                }
                assert(post.spec_row_of(i) == row);
                crate::archetype_data_page::lemma_cell_ranges_equal(
                    post_data,
                    arch,
                    layout,
                    k,
                    row,
                    pre_data,
                    arch,
                    layout,
                    k,
                    rr,
                );
            } else {
                // an untouched row of the same page
                assert(post.spec_row_of(i) == rr);
                if swap is None {
                    assert(post_data == pre_data);
                } else {
                    assert(row + 1 < old_ids.len()) by {
                        if row + 1 == old_ids.len() {
                            assert(swap is None);
                        }
                    }
                    assert forall|b: int|
                        0 <= b < arch[k].size implies crate::archetype_data_page::cell_byte(
                        post_data,
                        offsets,
                        arch,
                        k,
                        rr,
                        b,
                    ) == crate::archetype_data_page::cell_byte(
                        pre_data,
                        offsets,
                        arch,
                        k,
                        rr,
                        b,
                    ) by {
                        let pos = crate::archetype_data_page::cell_start(offsets, arch, k, rr)
                            + b;
                        assert(crate::archetype_data_page::in_cell(offsets, arch, k, rr, pos));
                        crate::archetype_data_page::lemma_cell_bounds(arch, layout, k, rr);
                        assert(0 <= pos < PAGE_SIZE_BYTES);
                        assert forall|k2: int|
                            0 <= k2 < arch.len()
                                implies !crate::archetype_data_page::in_cell(
                            offsets,
                            arch,
                            k2,
                            row,
                            pos,
                        ) by {
                            if crate::archetype_data_page::in_cell(offsets, arch, k2, row, pos) {
                                crate::archetype_data_page::lemma_cells_disjoint(
                                    arch,
                                    layout,
                                    k,
                                    rr,
                                    k2,
                                    row,
                                    pos,
                                );
                            }
                        }
                        assert(post_data[pos] == pre_data[pos]);
                    }
                    crate::archetype_data_page::lemma_cell_ranges_equal(
                        post_data,
                        arch,
                        layout,
                        k,
                        rr,
                        pre_data,
                        arch,
                        layout,
                        k,
                        rr,
                    );
                }
            }
        }
    }
}

} // verus!

verus! {

/// The type descriptors of a component-value list, in order.
pub open spec fn spec_component_types_of(cs: Seq<ComponentData>) -> Seq<ComponentType> {
    cs.map_values(|c: ComponentData| c.component_type)
}

impl Store {
    /// The canonical component list the entity carries after adding the
    /// types `ts`: its current list when every id is already present,
    /// else the sorted union (an entity without a row starts from the
    /// empty list).
    pub open spec fn spec_target_archetype(self, id: int, ts: Seq<ComponentType>) -> Seq<
        ComponentType,
    > {
        if self.spec_has_archetype(id) {
            let arch = self.spec_archetype_of(id).unwrap();
            if forall|k: int| 0 <= k < ts.len() ==> has_comp_id(arch, (#[trigger] ts[k]).id) {
                arch
            } else {
                crate::archetype_builder::sort_by_id_spec(
                    crate::archetype_builder::include_all(arch, ts),
                )
            }
        } else {
            crate::archetype_builder::sort_by_id_spec(
                crate::archetype_builder::include_all(Seq::<ComponentType>::empty(), ts),
            )
        }
    }

    /// Writes each given component's payload into its column of the row
    /// `(page_index, row)`; bytes outside the written cells keep their
    /// value.
    #[verifier::loop_isolation(false)]
    #[verifier::rlimit(100)]
    #[verifier::spinoff_prover]
    fn write_components(&mut self, page_index: usize, row: usize, components: &[ComponentData])
        requires
            old(self).wf(),
            page_index < old(self).archetypes_container.pages@.len(),
            old(self).archetypes_container.spec_page_arch(page_index as int) is Some,
            row < old(self).archetypes_container.pages@[page_index as int].entities_ids@.len(),
            ({
                let a = old(self).archetypes_container.spec_page_arch(
                    page_index as int,
                ).unwrap() as int;
                let arch = old(self).archetypes_container.archetypes@[a]@;
                forall|k: int|
                    0 <= k < components@.len() ==> has_comp_id(
                        arch,
                        (#[trigger] components@[k]).component_type.id,
                    ) && arch[comp_index_of(arch, components@[k].component_type.id)].size
                        == components@[k].bytes@.len()
            }),
            forall|k1: int, k2: int|
                0 <= k1 < k2 < components@.len() ==> components@[k1].component_type.id
                    != components@[k2].component_type.id,
        ensures
            final(self).wf(),
            final(self).entities_container == old(self).entities_container,
            final(self).tag_container == old(self).tag_container,
            final(self).order_group_container == old(self).order_group_container,
            final(self).entity_to_page@ == old(self).entity_to_page@,
            final(self).entity_to_index_in_page@ == old(self).entity_to_index_in_page@,
            final(self).entity_has_archetype_bit_vec@ == old(self).entity_has_archetype_bit_vec@,
            final(self).archetypes_container.archetypes@ == old(self).archetypes_container.archetypes@,
            final(self).archetypes_container.layouts@ == old(self).archetypes_container.layouts@,
            final(self).archetypes_container.archetype_to_pages@ == old(self).archetypes_container.archetype_to_pages@,
            final(self).archetypes_container.page_to_archetype@ == old(self).archetypes_container.page_to_archetype@,
            final(self).archetypes_container.free_archetypes@ == old(self).archetypes_container.free_archetypes@,
            final(self).archetypes_container.free_pages@ == old(self).archetypes_container.free_pages@,
            final(self).archetypes_container.pages@.len() == old(self).archetypes_container.pages@.len(),
            forall|q: int|
                0 <= q < old(self).archetypes_container.pages@.len() && q != page_index ==> (
                #[trigger] final(self).archetypes_container.pages@[q]) == old(self).archetypes_container.pages@[q],
            final(self).archetypes_container.pages@[page_index as int].entities_ids@ == old(self).archetypes_container.pages@[page_index as int].entities_ids@,
            final(self).archetypes_container.pages@[page_index as int].capacity == old(self).archetypes_container.pages@[page_index as int].capacity,
            final(self).archetypes_container.pages@[page_index as int].components_data@.len()
                == PAGE_SIZE_BYTES,
            ({
                let a = old(self).archetypes_container.spec_page_arch(
                    page_index as int,
                ).unwrap() as int;
                let arch = old(self).archetypes_container.archetypes@[a]@;
                let offsets = old(self).archetypes_container.layouts@[a].offsets@;
                let data = final(self).archetypes_container.pages@[
                    page_index as int
                ].components_data@;
                &&& forall|k: int, b: int|
                    0 <= k < components@.len() && 0 <= b < components@[k].bytes@.len()
                        ==> #[trigger] crate::archetype_data_page::cell_byte(
                        data,
                        offsets,
                        arch,
                        comp_index_of(arch, components@[k].component_type.id),
                        row as int,
                        b,
                    ) == components@[k].bytes@[b]
                &&& forall|pos: int|
                    0 <= pos < PAGE_SIZE_BYTES && (forall|k: int|
                        0 <= k < components@.len() ==> !crate::archetype_data_page::in_cell(
                            offsets,
                            arch,
                            comp_index_of(arch, (#[trigger] components@[k]).component_type.id),
                            row as int,
                            pos,
                        )) ==> data[pos] == old(self).archetypes_container.pages@[
                        page_index as int
                    ].components_data@[pos]
            }),
    {
        let a = self.archetypes_container.page_to_archetype[page_index].unwrap();
        let ghost arch = self.archetypes_container.archetypes@[a as int]@;
        let ghost offsets = self.archetypes_container.layouts@[a as int].offsets@;
        let ghost mid_data = self.archetypes_container.pages@[
            page_index as int
        ].components_data@;
        let n = components.len();
        let mut k: usize = 0;
        while k < n
            invariant
                0 <= k <= n,
                self.entities_container == old(self).entities_container,
                self.tag_container == old(self).tag_container,
                self.order_group_container == old(self).order_group_container,
                self.entity_to_page@ == old(self).entity_to_page@,
                self.entity_to_index_in_page@ == old(self).entity_to_index_in_page@,
                self.entity_has_archetype_bit_vec@ == old(self).entity_has_archetype_bit_vec@,
                self.archetypes_container.archetypes@ == old(self).archetypes_container.archetypes@,
                self.archetypes_container.layouts@ == old(self).archetypes_container.layouts@,
                self.archetypes_container.archetype_to_pages@ == old(self).archetypes_container.archetype_to_pages@,
                self.archetypes_container.page_to_archetype@ == old(self).archetypes_container.page_to_archetype@,
                self.archetypes_container.free_archetypes@ == old(self).archetypes_container.free_archetypes@,
                self.archetypes_container.free_pages@ == old(self).archetypes_container.free_pages@,
                self.archetypes_container.pages@.len() == old(self).archetypes_container.pages@.len(),
                forall|q: int|
                    0 <= q < old(self).archetypes_container.pages@.len() && q != page_index ==> (
                    #[trigger] self.archetypes_container.pages@[q]) == old(self).archetypes_container.pages@[q],
                self.archetypes_container.pages@[page_index as int].entities_ids@ == old(self).archetypes_container.pages@[page_index as int].entities_ids@,
                self.archetypes_container.pages@[page_index as int].capacity == old(self).archetypes_container.pages@[page_index as int].capacity,
                self.archetypes_container.pages@[page_index as int].components_data@.len()
                    == PAGE_SIZE_BYTES,
                forall|v: int, b: int|
                    0 <= v < k && 0 <= b < components@[v].bytes@.len()
                        ==> #[trigger] crate::archetype_data_page::cell_byte(
                        self.archetypes_container.pages@[page_index as int].components_data@,
                        offsets,
                        arch,
                        comp_index_of(arch, components@[v].component_type.id),
                        row as int,
                        b,
                    ) == components@[v].bytes@[b],
                forall|pos: int|
                    0 <= pos < PAGE_SIZE_BYTES && (forall|v: int|
                        0 <= v < k ==> !crate::archetype_data_page::in_cell(
                            offsets,
                            arch,
                            comp_index_of(arch, (#[trigger] components@[v]).component_type.id),
                            row as int,
                            pos,
                        )) ==> self.archetypes_container.pages@[
                        page_index as int
                    ].components_data@[pos] == mid_data[pos],
            decreases n - k,
        {
            let ty = components[k].component_type;
            let archetype = &self.archetypes_container.archetypes[a];
            let idx = archetype.find_component_index(ty.id).unwrap();
            proof {
                crate::archetype::lemma_comp_index_of(arch, ty.id);
                assert(idx == comp_index_of(arch, ty.id)) by {
                    let ci = comp_index_of(arch, ty.id);
                    if ci != idx {
                        assert(arch[ci].id == arch[idx as int].id);
                    }
                }
                crate::archetype_data_page::lemma_cell_bounds(
                    arch,
                    self.archetypes_container.layouts@[a as int],
                    idx as int,
                    row as int,
                );
            }
            let offset = self.archetypes_container.layouts[a].offsets[idx];
            let ghost before = self.archetypes_container.pages@[
                page_index as int
            ].components_data@;
            let bytes = &components[k].bytes;
            let page = &mut self.archetypes_container.pages[page_index];
            page.set_component_data(row, offset, bytes.as_slice());
            proof {
                lemma_write_step(
                    arch,
                    self.archetypes_container.layouts@[a as int],
                    mid_data,
                    before,
                    self.archetypes_container.pages@[page_index as int].components_data@,
                    components@,
                    k as int,
                    row as int,
                );
            }
            k = k + 1;
        }
        proof {
            lemma_store_wf_data_only(*old(self), *self, page_index as int);
        }
    }
}

/// One column write of a component row keeps the columns already written
/// and every byte outside the written cells, and lands the new column's
/// bytes.
#[verifier::rlimit(100)]
#[verifier::spinoff_prover]
proof fn lemma_write_step(
    arch: Seq<ComponentType>,
    layout: crate::archetype_layout::ArchetypeLayout,
    mid_data: Seq<u8>,
    before: Seq<u8>,
    after: Seq<u8>,
    components: Seq<ComponentData>,
    u: int,
    row: int,
)
    requires
        crate::archetype_layout::layout_wf(arch, layout),
        0 <= row < layout.entities_capacity,
        0 <= u < components.len(),
        forall|k: int|
            0 <= k < components.len() ==> has_comp_id(
                arch,
                (#[trigger] components[k]).component_type.id,
            ) && arch[comp_index_of(arch, components[k].component_type.id)].size == components[
                k
            ].bytes@.len(),
        forall|k1: int, k2: int|
            0 <= k1 < k2 < components.len() ==> components[k1].component_type.id != components[
                k2
            ].component_type.id,
        mid_data.len() == PAGE_SIZE_BYTES,
        before.len() == PAGE_SIZE_BYTES,
        after.len() == PAGE_SIZE_BYTES,
        // the write landed in column `comp_index_of(.., u)` and nowhere else
        ({
            let dk = comp_index_of(arch, components[u].component_type.id);
            let size = components[u].bytes@.len();
            &&& forall|b: int|
                0 <= b < size ==> after[layout.offsets@[dk] + size * row + b] == components[
                    u
                ].bytes@[b]
            &&& forall|pos: int|
                0 <= pos < PAGE_SIZE_BYTES && !(layout.offsets@[dk] + size * row <= pos
                    < layout.offsets@[dk] + size * row + size) ==> after[pos] == before[pos]
        }),
        forall|v: int, b: int|
            0 <= v < u && 0 <= b < components[v].bytes@.len()
                ==> #[trigger] crate::archetype_data_page::cell_byte(
                before,
                layout.offsets@,
                arch,
                comp_index_of(arch, components[v].component_type.id),
                row,
                b,
            ) == components[v].bytes@[b],
        forall|pos: int|
            0 <= pos < PAGE_SIZE_BYTES && (forall|v: int|
                0 <= v < u ==> !crate::archetype_data_page::in_cell(
                    layout.offsets@,
                    arch,
                    comp_index_of(arch, (#[trigger] components[v]).component_type.id),
                    row,
                    pos,
                )) ==> before[pos] == mid_data[pos],
    ensures
        forall|v: int, b: int|
            0 <= v < u + 1 && 0 <= b < components[v].bytes@.len()
                ==> #[trigger] crate::archetype_data_page::cell_byte(
                after,
                layout.offsets@,
                arch,
                comp_index_of(arch, components[v].component_type.id),
                row,
                b,
            ) == components[v].bytes@[b],
        forall|pos: int|
            0 <= pos < PAGE_SIZE_BYTES && (forall|v: int|
                0 <= v < u + 1 ==> !crate::archetype_data_page::in_cell(
                    layout.offsets@,
                    arch,
                    comp_index_of(arch, (#[trigger] components[v]).component_type.id),
                    row,
                    pos,
                )) ==> after[pos] == mid_data[pos],
{
    let offs = layout.offsets@;
    let dk = comp_index_of(arch, components[u].component_type.id);
    proof_comp_cols(arch, components);
    crate::archetype_data_page::lemma_cell_bounds(arch, layout, dk, row);
    assert forall|v: int, b: int|
        0 <= v < u + 1 && 0 <= b < components[v].bytes@.len()
            implies #[trigger] crate::archetype_data_page::cell_byte(
        after,
        offs,
        arch,
        comp_index_of(arch, components[v].component_type.id),
        row,
        b,
    ) == components[v].bytes@[b] by {
        let kv = comp_index_of(arch, components[v].component_type.id);
        crate::archetype_data_page::lemma_cell_bounds(arch, layout, kv, row);
        let q = crate::archetype_data_page::cell_start(offs, arch, kv, row) + b;
        if v < u {
            assert(kv != dk) by {
                crate::archetype::lemma_comp_index_of(arch, components[v].component_type.id);
                crate::archetype::lemma_comp_index_of(arch, components[u].component_type.id);
            }
            assert(crate::archetype_data_page::in_cell(offs, arch, kv, row, q));
            if crate::archetype_data_page::in_cell(offs, arch, dk, row, q) {
                crate::archetype_data_page::lemma_cells_disjoint(
                    arch,
                    layout,
                    kv,
                    row,
                    dk,
                    row,
                    q,
                );
            }
            assert(after[q] == before[q]);
            assert(crate::archetype_data_page::cell_byte(
                before,
                offs,
                arch,
                kv,
                row,
                b,
            ) == components[v].bytes@[b]);
        } else {
            assert(after[q] == components[u].bytes@[b]);
        }
    }
    assert forall|pos: int|
        0 <= pos < PAGE_SIZE_BYTES && (forall|v: int|
            0 <= v < u + 1 ==> !crate::archetype_data_page::in_cell(
                offs,
                arch,
                comp_index_of(arch, (#[trigger] components[v]).component_type.id),
                row,
                pos,
            )) implies after[pos] == mid_data[pos] by {
        assert(!crate::archetype_data_page::in_cell(offs, arch, dk, row, pos));
        assert(after[pos] == before[pos]);
    }
}

/// The columns named by a component-value list are in range and sized as
/// the values are.
proof fn proof_comp_cols(arch: Seq<ComponentType>, components: Seq<ComponentData>)
    requires
        forall|k: int|
            0 <= k < components.len() ==> has_comp_id(
                arch,
                (#[trigger] components[k]).component_type.id,
            ) && arch[comp_index_of(arch, components[k].component_type.id)].size == components[
                k
            ].bytes@.len(),
    ensures
        forall|k: int|
            0 <= k < components.len() ==> 0 <= comp_index_of(
                arch,
                (#[trigger] components[k]).component_type.id,
            ) < arch.len(),
{
    assert forall|k: int|
        0 <= k < components.len() implies 0 <= comp_index_of(
        arch,
        (#[trigger] components[k]).component_type.id,
    ) < arch.len() by {
        crate::archetype::lemma_comp_index_of(arch, components[k].component_type.id);
    }
}

/// A change confined to the byte contents of one page (its rows, its
/// binding and everything else untouched) preserves the store invariant.
proof fn lemma_store_wf_data_only(pre: Store, post: Store, p: int)
    requires
        pre.wf(),
        0 <= p < pre.archetypes_container.pages@.len(),
        post.entities_container == pre.entities_container,
        post.tag_container == pre.tag_container,
        post.order_group_container == pre.order_group_container,
        post.entity_to_page@ == pre.entity_to_page@,
        post.entity_to_index_in_page@ == pre.entity_to_index_in_page@,
        post.entity_has_archetype_bit_vec@ == pre.entity_has_archetype_bit_vec@,
        post.archetypes_container.archetypes@ == pre.archetypes_container.archetypes@,
        post.archetypes_container.layouts@ == pre.archetypes_container.layouts@,
        post.archetypes_container.archetype_to_pages@ == pre.archetypes_container.archetype_to_pages@,
        post.archetypes_container.page_to_archetype@ == pre.archetypes_container.page_to_archetype@,
        post.archetypes_container.free_archetypes@ == pre.archetypes_container.free_archetypes@,
        post.archetypes_container.free_pages@ == pre.archetypes_container.free_pages@,
        post.archetypes_container.pages@.len() == pre.archetypes_container.pages@.len(),
        forall|q: int|
            0 <= q < pre.archetypes_container.pages@.len() && q != p ==> (
            #[trigger] post.archetypes_container.pages@[q]) == pre.archetypes_container.pages@[q],
        post.archetypes_container.pages@[p].entities_ids@ == pre.archetypes_container.pages@[p].entities_ids@,
        post.archetypes_container.pages@[p].capacity == pre.archetypes_container.pages@[p].capacity,
        post.archetypes_container.pages@[p].wf(),
    ensures
        post.wf(),
{
    crate::archetypes_container::lemma_wf_data_change(
        pre.archetypes_container,
        post.archetypes_container,
        p,
    );
    let cap = post.spec_capacity();
    assert forall|i: int|
        cap <= i < post.entity_has_archetype_bit_vec@.len() * 32
            implies !post.spec_has_archetype(i) by {
        assert(!pre.spec_has_archetype(i));
    }
    assert forall|id: int|
        0 <= id < cap && !post.entities_container.spec_alive(id)
            implies !post.spec_has_archetype(id) by {
        assert(!pre.spec_has_archetype(id));
    }
    assert forall|id: int|
        0 <= id < cap && post.entities_container.spec_alive(id) && post.spec_has_archetype(
            id,
        ) implies {
        let pp = post.spec_page_of(id);
        let row = post.spec_row_of(id);
        &&& 0 <= pp < post.archetypes_container.pages@.len()
        &&& post.archetypes_container.spec_page_arch(pp) is Some
        &&& 0 <= row < post.archetypes_container.pages@[pp].entities_ids@.len()
        &&& post.archetypes_container.pages@[pp].entities_ids@[row] == id
    } by {
        assert(pre.entities_container.spec_alive(id) && pre.spec_has_archetype(id));
        let pp = pre.spec_page_of(id);
        if pp != p {
            assert(post.archetypes_container.pages@[pp] == pre.archetypes_container.pages@[pp]);
        }
    }
    assert forall|q: int, row: int|
        0 <= q < post.archetypes_container.pages@.len() && 0 <= row
            < post.archetypes_container.pages@[q].entities_ids@.len() implies {
        let id = (#[trigger] post.archetypes_container.pages@[q].entities_ids@[row]) as int;
        &&& id < cap
        &&& post.entities_container.spec_alive(id)
        &&& post.spec_has_archetype(id)
        &&& post.spec_page_of(id) == q
        &&& post.spec_row_of(id) == row
    } by {
        if q != p {
            assert(post.archetypes_container.pages@[q] == pre.archetypes_container.pages@[q]);
        }
        let id = (pre.archetypes_container.pages@[q].entities_ids@[row]) as int;
        assert(pre.entities_container.spec_alive(id) && pre.spec_has_archetype(id));
    }
}

} // verus!

verus! {

impl Store {
    /// Stores the given component values on the entity.  A dead handle is
    /// a no-op.  An entity without a row is seated in the archetype of
    /// the given types; one whose archetype already carries every given
    /// id is written in place (no migration); otherwise the entity
    /// migrates to the union archetype, its shared columns copied, and
    /// the vacated row is swap-removed with the moved row's side table
    /// rewritten.
    #[verifier::loop_isolation(false)]
    #[verifier::rlimit(100)]
    #[verifier::spinoff_prover]
    pub fn add_components(&mut self, entity: Entity, components: &[ComponentData])
        requires
            old(self).wf(),
            components@.len() >= 1,
            forall|k: int|
                0 <= k < components@.len() ==> (#[trigger] components@[k]).bytes@.len()
                    == components@[k].component_type.size && components@[k].component_type.size
                    >= 1 && components@[k].component_type.align >= 1,
            forall|k1: int, k2: int|
                0 <= k1 < k2 < components@.len() ==> components@[k1].component_type.id
                    != components@[k2].component_type.id,
            // stable descriptors: a given id already on the entity comes
            // with the stored size and alignment
            old(self).spec_is_alive(entity) && old(self).spec_has_archetype(entity.id as int)
                ==> (forall|k: int, j: int|
                0 <= k < components@.len() && 0 <= j < old(self).spec_archetype_of(
                    entity.id as int,
                ).unwrap().len() && (#[trigger] old(self).spec_archetype_of(
                    entity.id as int,
                ).unwrap()[j]).id == (#[trigger] components@[k]).component_type.id ==> old(self).spec_archetype_of(entity.id as int).unwrap()[j].size
                    == components@[k].component_type.size && old(self).spec_archetype_of(
                    entity.id as int,
                ).unwrap()[j].align == components@[k].component_type.align),
            old(self).spec_is_alive(entity) ==> crate::archetype_layout::layout_fits(
                old(self).spec_target_archetype(
                    entity.id as int,
                    spec_component_types_of(components@),
                ),
            ),
            old(self).archetypes_container.pages@.len() < PAGE_COUNT_LIMIT,
        ensures
            final(self).wf(),
            !old(self).spec_is_alive(entity) ==> *final(self) == *old(self),
            final(self).entities_container == old(self).entities_container,
            final(self).tag_container == old(self).tag_container,
            final(self).order_group_container == old(self).order_group_container,
            final(self).archetypes_container.pages@.len() <= old(self).archetypes_container.pages@.len() + 1,
            old(self).spec_is_alive(entity) ==> ({
                let ts = spec_component_types_of(components@);
                let id = entity.id as int;
                &&& final(self).spec_has_archetype(id)
                &&& crate::archetype::comps_equiv(
                    final(self).spec_archetype_of(id).unwrap(),
                    old(self).spec_target_archetype(id, ts),
                )
                &&& forall|k: int|
                    0 <= k < components@.len() ==> final(self).spec_component_bytes(
                        id,
                        (#[trigger] components@[k]).component_type.id,
                    ) == components@[k].bytes@
                &&& (old(self).spec_has_archetype(id) && (forall|k: int|
                    0 <= k < ts.len() ==> has_comp_id(
                        old(self).spec_archetype_of(id).unwrap(),
                        (#[trigger] ts[k]).id,
                    )) ==> final(self).spec_page_of(id) == old(self).spec_page_of(id) && final(self).spec_row_of(id) == old(self).spec_row_of(id) && final(self).spec_archetype_of(
                    id,
                ) == old(self).spec_archetype_of(id))
                &&& forall|i: int|
                    0 <= i < old(self).spec_capacity() && i != id && old(self).entities_container.spec_alive(i) ==> final(self).spec_has_archetype(i)
                        == old(self).spec_has_archetype(i) && (old(self).spec_has_archetype(i)
                        ==> final(self).spec_archetype_of(i) == old(self).spec_archetype_of(i))
                // the entity's components outside the written set keep
                // their bytes across the migration
                &&& (old(self).spec_has_archetype(id) ==> forall|t: u64|
                    has_comp_id(old(self).spec_archetype_of(id).unwrap(), t) && !has_comp_id(
                        ts,
                        t,
                    ) ==> final(self).spec_component_bytes(id, t) == old(self).spec_component_bytes(id, t))
                // no other seated entity's bytes change
                &&& forall|i: int, t: u64|
                    0 <= i < old(self).spec_capacity() && i != id && old(self).entities_container.spec_alive(i) && old(self).spec_has_archetype(i) && has_comp_id(
                        old(self).spec_archetype_of(i).unwrap(),
                        t,
                    ) ==> final(self).spec_component_bytes(i, t) == old(self).spec_component_bytes(i, t)
            }),
    {
        if !self.is_alive(entity) {
            return ;
        }
        let id = entity.id;
        let ghost ts = spec_component_types_of(components@);
        let types_vec = collect_component_types(components);
        proof {
            bitvec_utils::lemma_bit_range(id as int, self.spec_capacity());
        }
        let has_row = bitvec_utils::is_bit_on(&self.entity_has_archetype_bit_vec, id as usize);

        let write_page: usize;
        let write_row: usize;
        if !has_row {
            let arch = Archetype::with_components(types_vec.as_slice());
            proof {
                crate::archetype_builder::lemma_include_all_props(
                    Seq::<ComponentType>::empty(),
                    ts,
                );
                crate::archetype_builder::lemma_sort_by_id_spec_props(
                    crate::archetype_builder::include_all(Seq::<ComponentType>::empty(), ts),
                );
                assert(arch@.len() >= 1) by {
                    assert(has_comp_id(
                        crate::archetype_builder::include_all(
                            Seq::<ComponentType>::empty(),
                            ts,
                        ),
                        ts[0].id,
                    ));
                }
                assert(arch@ == old(self).spec_target_archetype(id as int, ts));
            }
            let ghost mid = *self;
            let entity_in_arch = self.archetypes_container.add_entity(id, &arch);
            self.entity_to_page.set(id as usize, entity_in_arch.page_index);
            self.entity_to_index_in_page.set(id as usize, entity_in_arch.index_in_page);
            bitvec_utils::set_bit_on(&mut self.entity_has_archetype_bit_vec, id as usize);
            proof {
                lemma_store_wf_after_seat(mid, *self, id as int, entity_in_arch);
                assert forall|i: int|
                    0 <= i < old(self).spec_capacity() && i != id && old(
                        self,
                    ).entities_container.spec_alive(i) implies self.spec_has_archetype(i) == old(
                    self,
                ).spec_has_archetype(i) && (old(self).spec_has_archetype(i)
                    ==> self.spec_archetype_of(i) == old(self).spec_archetype_of(i)) by {
                    bitvec_utils::lemma_bit_range(i, old(self).spec_capacity());
                    if old(self).spec_has_archetype(i) {
                        let pp = old(self).spec_page_of(i);
                        assert(self.spec_page_of(i) == pp);
                    }
                }
                assert forall|i: int, t: u64|
                    0 <= i < old(self).spec_capacity() && i != id && old(
                        self,
                    ).entities_container.spec_alive(i) && old(self).spec_has_archetype(i)
                        && has_comp_id(old(self).spec_archetype_of(i).unwrap(), t)
                        implies self.spec_component_bytes(i, t) == old(
                    self,
                ).spec_component_bytes(i, t) by {
                    bitvec_utils::lemma_bit_range(i, old(self).spec_capacity());
                    let pp = old(self).spec_page_of(i);
                    assert(self.spec_page_of(i) == pp && self.spec_row_of(i) == old(
                        self,
                    ).spec_row_of(i));
                    let b_i = old(self).spec_arch_index_of(i);
                    assert(old(self).archetypes_container.archetype_to_pages@[b_i].pages@.len()
                        > 0) by {
                        assert(old(self).archetypes_container.spec_page_arch(pp) == Some(
                            b_i as usize,
                        ));
                        assert(old(self).archetypes_container.archetype_to_pages@[
                            b_i
                        ].pages@.contains(pp as usize));
                    }
                    assert(self.archetypes_container.archetypes@[b_i] == old(
                        self,
                    ).archetypes_container.archetypes@[b_i] && self.archetypes_container.layouts@[
                        b_i
                    ] == old(self).archetypes_container.layouts@[b_i]);
                    if pp != entity_in_arch.page_index as int {
                        assert(self.archetypes_container.pages@[pp] == old(
                            self,
                        ).archetypes_container.pages@[pp]);
                        assert(self.archetypes_container.page_to_archetype@[pp] == old(
                            self,
                        ).archetypes_container.page_to_archetype@[pp]);
                    } else {
                        assert(self.archetypes_container.pages@[pp].components_data@ == old(
                            self,
                        ).archetypes_container.pages@[pp].components_data@);
                        assert(self.archetypes_container.spec_page_arch(pp) == old(
                            self,
                        ).archetypes_container.spec_page_arch(pp));
                    }
                }
                assert(write_ready(
                    *self,
                    *old(self),
                    entity,
                    components@,
                    entity_in_arch.page_index as int,
                    entity_in_arch.index_in_page as int,
                ));
            }
            write_page = entity_in_arch.page_index as usize;
            write_row = entity_in_arch.index_in_page as usize;
        } else {
            let prev_loc = EntityInArchetype {
                page_index: self.entity_to_page[id as usize],
                index_in_page: self.entity_to_index_in_page[id as usize],
            };
            proof {
                assert(old(self).entities_container.spec_alive(id as int));
                assert(old(self).spec_has_archetype(id as int));
            }
            let prev_p = prev_loc.page_index as usize;
            let prev_a = self.archetypes_container.page_to_archetype[prev_p].unwrap();
            let type_ids = crate::query::entity_component::collect_type_ids(&types_vec);
            let in_place = self.archetypes_container.archetypes[prev_a].is_include_ids(
                type_ids.as_slice(),
            );
            if in_place {
                proof {
                    assert forall|k: int|
                        0 <= k < ts.len() implies has_comp_id(
                        old(self).spec_archetype_of(id as int).unwrap(),
                        (#[trigger] ts[k]).id,
                    ) by {
                        assert(type_ids@[k] == ts[k].id);
                    }
                    let arch = old(self).spec_archetype_of(id as int).unwrap();
                    assert(old(self).spec_target_archetype(id as int, ts) == arch);
                    assert(crate::archetype::comps_equiv(arch, arch));
                    assert(write_ready(
                        *self,
                        *old(self),
                        entity,
                        components@,
                        prev_p as int,
                        prev_loc.index_in_page as int,
                    ));
                }
                write_page = prev_p;
                write_row = prev_loc.index_in_page as usize;
            } else {
                let ghost old_arch = old(self).spec_archetype_of(id as int).unwrap();
                let new_arch = {
                    let prev_archetype = &self.archetypes_container.archetypes[prev_a];
                    ArchetypeBuilder::new().include_archetype(
                        prev_archetype,
                    ).include_component_types(types_vec.as_slice()).build()
                };
                proof {
                    // the builder first replays the old archetype, then
                    // merges the new types: the same union
                    crate::archetype_builder::lemma_include_all_disjoint(
                        Seq::<ComponentType>::empty(),
                        old_arch,
                    );
                    assert(crate::archetype_builder::include_all(
                        Seq::<ComponentType>::empty(),
                        old_arch,
                    ) =~= old_arch);
                    crate::archetype_builder::lemma_include_all_props(old_arch, ts);
                    crate::archetype_builder::lemma_sort_by_id_spec_props(
                        crate::archetype_builder::include_all(old_arch, ts),
                    );
                    assert(!(forall|k: int|
                        0 <= k < ts.len() ==> has_comp_id(old_arch, (#[trigger] ts[k]).id)))
                        by {
                        if forall|k: int|
                            0 <= k < ts.len() ==> has_comp_id(old_arch, (#[trigger] ts[k]).id) {
                            assert forall|k: int|
                                0 <= k < type_ids@.len() implies old(self).archetypes_container.archetypes@[
                                prev_a as int
                            ].has_id(#[trigger] type_ids@[k]) by {
                                assert(type_ids@[k] == ts[k].id);
                                assert(has_comp_id(old_arch, ts[k].id));
                            }
                        }
                    }
                    assert(new_arch@ == old(self).spec_target_archetype(id as int, ts));
                    assert(new_arch@.len() >= 1) by {
                        assert(old_arch.len() >= 1);
                        assert(has_comp_id(
                            crate::archetype_builder::include_all(old_arch, ts),
                            old_arch[0].id,
                        ));
                    }
                    // the union differs from the old archetype
                    assert(!crate::archetype::comps_equiv(old_arch, new_arch@)) by {
                        let bad = choose|k: int|
                            0 <= k < ts.len() && !has_comp_id(old_arch, ts[k].id);
                        assert(has_comp_id(ts, ts[bad].id)) by {
                            assert(ts[bad].id == ts[bad].id);
                        }
                        assert(has_comp_id(
                            crate::archetype_builder::include_all(old_arch, ts),
                            ts[bad].id,
                        ));
                        assert(has_comp_id(new_arch@, ts[bad].id)) by {
                            crate::store::lemma_has_transfers_pub(
                                crate::archetype_builder::include_all(old_arch, ts),
                                new_arch@,
                                ts[bad].id,
                            );
                        }
                        if crate::archetype::comps_equiv(old_arch, new_arch@) {
                            let m = choose|m: int|
                                0 <= m < new_arch@.len() && new_arch@[m].id == ts[bad].id;
                            assert(old_arch[m].id == ts[bad].id);
                        }
                    }
                    // descriptors shared between the old and the union
                    // archetype agree in size
                    assert forall|i: int, j: int|
                        0 <= i < old_arch.len() && 0 <= j < new_arch@.len() && (
                        #[trigger] old_arch[i]).id == (#[trigger] new_arch@[j]).id
                            implies old_arch[i].size == new_arch@[j].size by {
                        lemma_union_entry_size(old_arch, ts, new_arch@, i, j);
                    }
                }
                let ghost pre = *self;
                let new_loc = self.archetypes_container.move_entity_to_other_archetype(
                    id,
                    prev_loc,
                    prev_a,
                    &new_arch,
                );
                self.entity_to_page.set(id as usize, new_loc.page_index);
                self.entity_to_index_in_page.set(id as usize, new_loc.index_in_page);
                let ghost mid = *self;
                proof {
                    assert(mid.archetypes_container.pages@[prev_p as int]
                        == pre.archetypes_container.pages@[prev_p as int]);
                    assert(mid.archetypes_container.page_to_archetype@[prev_p as int]
                        == pre.archetypes_container.page_to_archetype@[prev_p as int]);
                    assert((prev_loc.index_in_page as int) < mid.archetypes_container.pages@[
                        prev_p as int
                    ].entities_ids@.len());
                }
                let swap = self.archetypes_container.swap_remove_entity(prev_loc);
                match swap {
                    Some(info) => {
                        proof {
                            let old_ids = pre.archetypes_container.pages@[
                                prev_p as int
                            ].entities_ids@;
                            assert(info.id_to_replace == old_ids.last());
                            assert((info.id_to_replace as int) < self.spec_capacity()) by {
                                assert(old_ids[old_ids.len() - 1] == old_ids.last());
                            }
                        }
                        self.entity_to_index_in_page.set(
                            info.id_to_replace as usize,
                            prev_loc.index_in_page,
                        );
                    },
                    None => {},
                }
                proof {
                    lemma_store_wf_after_migrate(
                        pre,
                        mid,
                        *self,
                        id as int,
                        prev_loc,
                        new_loc,
                        swap,
                    );
                    assert(self.spec_arch_index_of(id as int)
                        == mid.spec_arch_index_of(id as int));
                    assert(crate::archetype::comps_equiv(
                        self.archetypes_container.archetypes@[self.spec_arch_index_of(
                            id as int,
                        )]@,
                        new_arch@,
                    ));
                    // the migration carried every byte along
                    assert(pre == *old(self));
                    let dst_a_g = mid.archetypes_container.spec_page_arch(
                        new_loc.page_index as int,
                    ).unwrap() as int;
                    let dst_arch = mid.archetypes_container.archetypes@[dst_a_g]@;
                    assert(pre.spec_arch_index_of(id as int) == prev_a as int);
                    assert(pre.archetypes_container.archetypes@[prev_a as int]@ == old_arch);
                    assert(crate::archetype::comps_equiv(dst_arch, new_arch@));
                    assert forall|i2: int, j: int|
                        0 <= i2 < old_arch.len() && 0 <= j < dst_arch.len() && (
                    #[trigger] old_arch[i2]).id == (#[trigger] dst_arch[j]).id
                        implies old_arch[i2].size == dst_arch[j].size by {
                        assert(dst_arch[j].id == new_arch@[j].id && dst_arch[j].size
                            == new_arch@[j].size);
                    }
                    lemma_migrate_bytes(pre, mid, *self, id as int, prev_loc, new_loc, swap);
                    assert forall|t: u64|
                        has_comp_id(old_arch, t) implies has_comp_id(
                        self.archetypes_container.archetypes@[self.spec_arch_index_of(
                            id as int,
                        )]@,
                        t,
                    ) && self.spec_component_bytes(id as int, t) == old(
                        self,
                    ).spec_component_bytes(id as int, t) by {
                        assert(has_comp_id(
                            crate::archetype_builder::include_all(old_arch, ts),
                            t,
                        )) by {
                            let m = choose|m: int|
                                0 <= m < old_arch.len() && old_arch[m].id == t;
                            assert(has_comp_id(
                                crate::archetype_builder::include_all(old_arch, ts),
                                old_arch[m].id,
                            ));
                        }
                        crate::store::lemma_has_transfers_pub(
                            crate::archetype_builder::include_all(old_arch, ts),
                            new_arch@,
                            t,
                        );
                        assert(has_comp_id(dst_arch, t)) by {
                            let j = choose|j: int|
                                0 <= j < new_arch@.len() && new_arch@[j].id == t;
                            assert(dst_arch[j].id == t);
                        }
                        assert(self.archetypes_container.archetypes@[self.spec_arch_index_of(
                            id as int,
                        )]@ == dst_arch);
                    }
                    assert(write_ready(
                        *self,
                        *old(self),
                        entity,
                        components@,
                        new_loc.page_index as int,
                        new_loc.index_in_page as int,
                    ));
                }
                write_page = new_loc.page_index as usize;
                write_row = new_loc.index_in_page as usize;
            }
        }

        let ghost before_write = *self;
        proof {
            assert(write_ready(
                before_write,
                *old(self),
                entity,
                components@,
                write_page as int,
                write_row as int,
            ));
            lemma_write_target_ok(before_write, *old(self), entity, components@, write_page as int, write_row as int);
        }
        self.write_components(write_page, write_row, components);
        proof {
            lemma_add_components_post(
                *old(self),
                before_write,
                *self,
                entity,
                components@,
                write_page as int,
                write_row as int,
            );
        }
    }
}

/// The descriptors of a component-value list, as a vector.
fn collect_component_types(components: &[ComponentData]) -> (r: Vec<ComponentType>)
    ensures
        r@ == spec_component_types_of(components@),
{
    let n = components.len();
    let mut r: Vec<ComponentType> = Vec::new();
    let mut k: usize = 0;
    while k < n
        invariant
            n == components@.len(),
            0 <= k <= n,
            r@.len() == k,
            forall|i: int| 0 <= i < k ==> r@[i] == (#[trigger] components@[i]).component_type,
        decreases n - k,
    {
        r.push(components[k].component_type);
        k = k + 1;
    }
    proof {
        assert(r@ =~= spec_component_types_of(components@));
    }
    r
}

/// An entry of the sorted union archetype that shares an id with the old
/// archetype is the old entry itself, so sizes agree.
proof fn lemma_union_entry_size(
    old_arch: Seq<ComponentType>,
    ts: Seq<ComponentType>,
    union: Seq<ComponentType>,
    i: int,
    j: int,
)
    requires
        crate::archetype::sorted_by_id(old_arch),
        crate::archetype_builder::distinct_ids(old_arch),
        union == crate::archetype_builder::sort_by_id_spec(
            crate::archetype_builder::include_all(old_arch, ts),
        ),
        0 <= i < old_arch.len(),
        0 <= j < union.len(),
        old_arch[i].id == union[j].id,
    ensures
        old_arch[i].size == union[j].size,
        old_arch[i].align == union[j].align,
{
    let merged = crate::archetype_builder::include_all(old_arch, ts);
    crate::archetype_builder::lemma_include_all_props(old_arch, ts);
    crate::archetype_builder::lemma_sort_by_id_spec_props(merged);
    assert(union.contains(union[j]));
    assert(merged.contains(union[j]));
    let m = choose|m: int| 0 <= m < merged.len() && merged[m] == union[j];
    if m < old_arch.len() {
        assert(merged[m] == old_arch[m]);
        assert(old_arch[m].id == old_arch[i].id);
        assert(m == i) by {
            if m != i {
                assert(old_arch[m].id != old_arch[i].id);
            }
        }
    } else {
        // the entry would have been a fresh id, contradicting the shared id
        assert(has_comp_id(merged, old_arch[i].id)) by {
            assert(merged[m].id == old_arch[i].id);
        }
        assert(crate::archetype_builder::distinct_ids(merged));
        assert(merged[i] == old_arch[i]);
        assert(merged[i].id != merged[m].id);
        assert(false);
    }
}

} // verus!

verus! {

/// The target archetype of an addition is sorted, duplicate-free, and
/// carries each given component with the given payload size.
proof fn lemma_target_entry(store: Store, id: int, components: Seq<ComponentData>)
    requires
        store.wf(),
        0 <= id,
        components.len() >= 1,
        forall|k: int|
            0 <= k < components.len() ==> (#[trigger] components[k]).bytes@.len() == components[
                k
            ].component_type.size,
        forall|k1: int, k2: int|
            0 <= k1 < k2 < components.len() ==> components[k1].component_type.id != components[
                k2
            ].component_type.id,
        store.spec_has_archetype(id) ==> (forall|k: int, j: int|
            0 <= k < components.len() && 0 <= j < store.spec_archetype_of(id).unwrap().len() && (
            #[trigger] store.spec_archetype_of(id).unwrap()[j]).id == (
            #[trigger] components[k]).component_type.id ==> store.spec_archetype_of(
                id,
            ).unwrap()[j].size == components[k].component_type.size),
        store.spec_has_archetype(id) ==> store.entities_container.spec_alive(id) && id
            < store.spec_capacity(),
    ensures
        ({
            let ts = spec_component_types_of(components);
            let target = store.spec_target_archetype(id, ts);
            &&& crate::archetype::sorted_by_id(target)
            &&& forall|k: int|
                0 <= k < components.len() ==> has_comp_id(
                    target,
                    (#[trigger] components[k]).component_type.id,
                ) && target[comp_index_of(target, components[k].component_type.id)].size
                    == components[k].bytes@.len()
        }),
{
    let ts = spec_component_types_of(components);
    let target = store.spec_target_archetype(id, ts);
    assert forall|k1: int, k2: int|
        0 <= k1 < k2 < ts.len() implies ts[k1].id != ts[k2].id by {}
    if store.spec_has_archetype(id) {
        let arch = store.spec_archetype_of(id).unwrap();
        assert(crate::archetype::sorted_by_id(arch)) by {
            let p = store.spec_page_of(id);
            assert(store.archetypes_container.spec_page_arch(p) is Some);
        }
        assert(crate::archetype_builder::distinct_ids(arch));
        if forall|k: int| 0 <= k < ts.len() ==> has_comp_id(arch, (#[trigger] ts[k]).id) {
            assert(target == arch);
            assert forall|k: int|
                0 <= k < components.len() implies has_comp_id(
                target,
                (#[trigger] components[k]).component_type.id,
            ) && target[comp_index_of(target, components[k].component_type.id)].size
                == components[k].bytes@.len() by {
                assert(has_comp_id(arch, ts[k].id));
                crate::archetype::lemma_comp_index_of(target, components[k].component_type.id);
                let idx = comp_index_of(target, components[k].component_type.id);
                assert(target[idx].id == components[k].component_type.id);
                assert(target[idx].size == components[k].component_type.size);
            }
        } else {
            let merged = crate::archetype_builder::include_all(arch, ts);
            crate::archetype_builder::lemma_include_all_props(arch, ts);
            crate::archetype_builder::lemma_sort_by_id_spec_props(merged);
            assert forall|k: int|
                0 <= k < components.len() implies has_comp_id(
                target,
                (#[trigger] components[k]).component_type.id,
            ) && target[comp_index_of(target, components[k].component_type.id)].size
                == components[k].bytes@.len() by {
                assert(ts[k] == components[k].component_type);
                assert(has_comp_id(merged, ts[k].id)) by {
                    assert(has_comp_id(ts, ts[k].id)) by {
                        assert(ts[k].id == ts[k].id);
                    }
                }
                lemma_has_transfers_pub(merged, target, ts[k].id);
                crate::archetype::lemma_comp_index_of(target, ts[k].id);
                let idx = comp_index_of(target, ts[k].id);
                assert(target.contains(target[idx]));
                assert(merged.contains(target[idx]));
                let m = choose|m: int| 0 <= m < merged.len() && merged[m] == target[idx];
                if m < arch.len() {
                    assert(merged[m] == arch[m]);
                    assert(arch[m].id == ts[k].id);
                    assert(arch[m].size == components[k].component_type.size);
                } else {
                    assert(merged.contains(target[idx]));
                    assert(arch.contains(target[idx]) || ts.contains(target[idx]));
                    if arch.contains(target[idx]) {
                        let a2 = choose|a2: int|
                            0 <= a2 < arch.len() && arch[a2] == target[idx];
                        assert(arch[a2].size == components[k].component_type.size);
                    } else {
                        let t2 = choose|t2: int| 0 <= t2 < ts.len() && ts[t2] == target[idx];
                        assert(ts[t2].id == ts[k].id);
                        assert(t2 == k) by {
                            if t2 != k {
                                assert(ts[t2].id != ts[k].id);
                            }
                        }
                    }
                }
            }
        }
    } else {
        let merged = crate::archetype_builder::include_all(Seq::<ComponentType>::empty(), ts);
        crate::archetype_builder::lemma_include_all_props(Seq::<ComponentType>::empty(), ts);
        crate::archetype_builder::lemma_sort_by_id_spec_props(merged);
        assert forall|k: int|
            0 <= k < components.len() implies has_comp_id(
            target,
            (#[trigger] components[k]).component_type.id,
        ) && target[comp_index_of(target, components[k].component_type.id)].size == components[
            k
        ].bytes@.len() by {
            assert(ts[k] == components[k].component_type);
            assert(has_comp_id(merged, ts[k].id)) by {
                assert(has_comp_id(ts, ts[k].id)) by {
                    assert(ts[k].id == ts[k].id);
                }
            }
            lemma_has_transfers_pub(merged, target, ts[k].id);
            crate::archetype::lemma_comp_index_of(target, ts[k].id);
            let idx = comp_index_of(target, ts[k].id);
            assert(target.contains(target[idx]));
            assert(merged.contains(target[idx]));
            assert(Seq::<ComponentType>::empty().contains(target[idx]) || ts.contains(
                target[idx],
            ));
            let t2 = choose|t2: int| 0 <= t2 < ts.len() && ts[t2] == target[idx];
            assert(ts[t2].id == ts[k].id);
            assert(t2 == k) by {
                if t2 != k {
                    assert(ts[t2].id != ts[k].id);
                }
            }
        }
    }
}

/// Membership by id transfers between sequences with the same elements.
pub proof fn lemma_has_transfers_pub(a: Seq<ComponentType>, b: Seq<ComponentType>, id: u64)
    requires
        forall|x: ComponentType| a.contains(x) <==> b.contains(x),
        has_comp_id(a, id),
    ensures
        has_comp_id(b, id),
{
    let k = choose|k: int| 0 <= k < a.len() && a[k].id == id;
    assert(a.contains(a[k]));
    assert(b.contains(a[k]));
    let m = choose|m: int| 0 <= m < b.len() && b[m] == a[k];
    assert(b[m].id == id);
}

} // verus!

verus! {

/// Migrating an entity to another archetype — a fresh row seated, side
/// tables retargeted, the vacated row swap-removed with its mover fixed
/// up — restores the store invariant; every other entity keeps its
/// archetype.
#[verifier::rlimit(100)]
#[verifier::spinoff_prover]
proof fn lemma_store_wf_after_migrate(
    pre: Store,
    mid: Store,
    post: Store,
    id: int,
    prev_loc: EntityInArchetype,
    new_loc: EntityInArchetype,
    swap: Option<crate::archetype_data_page::SwapRemoveInfo>,
)
    requires
        pre.wf(),
        0 <= id < pre.spec_capacity(),
        pre.entities_container.spec_alive(id),
        pre.spec_has_archetype(id),
        prev_loc.page_index as int == pre.spec_page_of(id),
        prev_loc.index_in_page as int == pre.spec_row_of(id),
        new_loc.page_index != prev_loc.page_index,
        // `mid`: the container accepted the entity at `new_loc` and the
        // side tables point there; nothing else changed
        mid.entities_container == pre.entities_container,
        mid.tag_container == pre.tag_container,
        mid.order_group_container == pre.order_group_container,
        mid.entity_has_archetype_bit_vec@ == pre.entity_has_archetype_bit_vec@,
        mid.entity_to_page@ == pre.entity_to_page@.update(id, new_loc.page_index),
        mid.entity_to_index_in_page@ == pre.entity_to_index_in_page@.update(
            id,
            new_loc.index_in_page,
        ),
        mid.archetypes_container.wf(),
        mid.archetypes_container.pages@.len() >= pre.archetypes_container.pages@.len(),
        mid.archetypes_container.pages@.len() <= pre.archetypes_container.pages@.len() + 1,
        mid.archetypes_container.pages@.len() > pre.archetypes_container.pages@.len()
            ==> new_loc.page_index as int == pre.archetypes_container.pages@.len(),
        (new_loc.page_index as int) < mid.archetypes_container.pages@.len(),
        mid.archetypes_container.spec_page_arch(new_loc.page_index as int) is Some,
        mid.archetypes_container.pages@[new_loc.page_index as int].entities_ids@ == (if (
        new_loc.page_index as int) < pre.archetypes_container.pages@.len() {
            pre.archetypes_container.pages@[new_loc.page_index as int].entities_ids@
        } else {
            Seq::<u32>::empty()
        }).push(id as u32),
        new_loc.index_in_page as int == (if (new_loc.page_index as int)
            < pre.archetypes_container.pages@.len() {
            pre.archetypes_container.pages@[new_loc.page_index as int].entities_ids@.len() as int
        } else {
            0
        }),
        forall|q: int|
            0 <= q < pre.archetypes_container.pages@.len() && q != new_loc.page_index ==> (
            #[trigger] mid.archetypes_container.pages@[q]) == pre.archetypes_container.pages@[q]
                && mid.archetypes_container.page_to_archetype@[q]
                == pre.archetypes_container.page_to_archetype@[q],
        crate::archetypes_container::busy_slots_unchanged(
            pre.archetypes_container,
            mid.archetypes_container,
        ),
        (new_loc.page_index as int) < pre.archetypes_container.pages@.len()
            ==> pre.archetypes_container.spec_page_arch(new_loc.page_index as int) is None
            || pre.archetypes_container.spec_page_arch(new_loc.page_index as int)
            == mid.archetypes_container.spec_page_arch(new_loc.page_index as int),
        // `post`: the vacated row was swap-removed and the moved row's
        // table rewritten
        post.entities_container == mid.entities_container,
        post.tag_container == mid.tag_container,
        post.order_group_container == mid.order_group_container,
        post.entity_has_archetype_bit_vec@ == mid.entity_has_archetype_bit_vec@,
        post.entity_to_page@ == mid.entity_to_page@,
        post.entity_to_index_in_page@ == (match swap {
            Some(info) => mid.entity_to_index_in_page@.update(
                info.id_to_replace as int,
                prev_loc.index_in_page,
            ),
            None => mid.entity_to_index_in_page@,
        }),
        post.archetypes_container.wf(),
        post.archetypes_container.pages@.len() == mid.archetypes_container.pages@.len(),
        post.archetypes_container.archetypes@ == mid.archetypes_container.archetypes@,
        ({
            let p = prev_loc.page_index as int;
            let row = prev_loc.index_in_page as int;
            let old_ids = mid.archetypes_container.pages@[p].entities_ids@;
            &&& post.archetypes_container.pages@[p].entities_ids@ == old_ids.update(
                row,
                old_ids.last(),
            ).drop_last()
            &&& (row + 1 == old_ids.len() ==> swap is None)
            &&& (row + 1 < old_ids.len() ==> swap == Some(
                crate::archetype_data_page::SwapRemoveInfo { id_to_replace: old_ids.last() },
            ))
            &&& (post.archetypes_container.pages@[p].entities_ids@.len() > 0
                ==> post.archetypes_container.spec_page_arch(p)
                == mid.archetypes_container.spec_page_arch(p))
        }),
        forall|q: int|
            0 <= q < mid.archetypes_container.pages@.len() && q != prev_loc.page_index ==> (
            #[trigger] post.archetypes_container.pages@[q])
                == mid.archetypes_container.pages@[q]
                && post.archetypes_container.page_to_archetype@[q]
                == mid.archetypes_container.page_to_archetype@[q],
    ensures
        post.wf(),
        post.spec_has_archetype(id),
        post.spec_page_of(id) == new_loc.page_index as int,
        post.spec_row_of(id) == new_loc.index_in_page as int,
        post.archetypes_container.spec_page_arch(new_loc.page_index as int)
            == mid.archetypes_container.spec_page_arch(new_loc.page_index as int),
        // other live entities keep their occupancy and archetype
        forall|i: int|
            0 <= i < pre.spec_capacity() && i != id && pre.entities_container.spec_alive(i)
                ==> post.spec_has_archetype(i) == pre.spec_has_archetype(i) && (
            pre.spec_has_archetype(i) ==> post.spec_archetype_of(i) == pre.spec_archetype_of(i)),
{
    let cap = post.spec_capacity();
    let p = prev_loc.page_index as int;
    let row = prev_loc.index_in_page as int;
    let np = new_loc.page_index as int;
    let nrow = new_loc.index_in_page as int;
    let old_ids = pre.archetypes_container.pages@[p].entities_ids@;
    let new_ids = post.archetypes_container.pages@[p].entities_ids@;
    assert(mid.archetypes_container.pages@[p].entities_ids@ == old_ids) by {
        assert(mid.archetypes_container.pages@[p] == pre.archetypes_container.pages@[p]);
    }
    assert(old_ids[row] == id);
    assert forall|r2: int| 0 <= r2 < old_ids.len() && old_ids[r2] == id implies r2 == row by {
        assert(pre.spec_row_of(old_ids[r2] as int) == r2);
    }
    assert(post.spec_page_of(id) == np && post.spec_row_of(id) == nrow) by {
        if swap is Some {
            assert(swap.unwrap().id_to_replace == old_ids.last());
            assert((old_ids.last() as int) != id) by {
                assert(pre.spec_row_of(old_ids.last() as int) == old_ids.len() - 1);
                assert(old_ids[old_ids.len() - 1] == old_ids.last());
            }
        }
    }
    assert forall|i: int|
        cap <= i < post.entity_has_archetype_bit_vec@.len() * 32
            implies !post.spec_has_archetype(i) by {
        assert(!pre.spec_has_archetype(i));
    }
    assert forall|i: int|
        0 <= i < cap && !post.entities_container.spec_alive(i)
            implies !post.spec_has_archetype(i) by {
        assert(!pre.spec_has_archetype(i));
    }
    // forward: every alive seated entity points at its row
    assert forall|i: int|
        0 <= i < cap && post.entities_container.spec_alive(i) && post.spec_has_archetype(
            i,
        ) implies {
        let pp = post.spec_page_of(i);
        let rr = post.spec_row_of(i);
        &&& 0 <= pp < post.archetypes_container.pages@.len()
        &&& post.archetypes_container.spec_page_arch(pp) is Some
        &&& 0 <= rr < post.archetypes_container.pages@[pp].entities_ids@.len()
        &&& post.archetypes_container.pages@[pp].entities_ids@[rr] == i
    } by {
        crate::bitvec_utils::lemma_bit_range(i, cap);
        assert(pre.spec_has_archetype(i));
        assert(pre.entities_container.spec_alive(i));
        if i == id {
            let nids = post.archetypes_container.pages@[np].entities_ids@;
            assert(post.archetypes_container.pages@[np]
                == mid.archetypes_container.pages@[np]);
            assert(nids[nrow] == id);
            assert(post.archetypes_container.spec_page_arch(np)
                == mid.archetypes_container.spec_page_arch(np));
        } else {
            let pp = pre.spec_page_of(i);
            let rr = pre.spec_row_of(i);
            if swap is Some && i == swap.unwrap().id_to_replace {
                assert(pp == p && rr == old_ids.len() - 1);
                assert(post.spec_page_of(i) == p);
                assert(post.spec_row_of(i) == row);
                assert(new_ids[row] == old_ids.last());
                assert(row < new_ids.len());
                assert(new_ids.len() > 0);
                assert(post.archetypes_container.spec_page_arch(p)
                    == mid.archetypes_container.spec_page_arch(p));
                assert(mid.archetypes_container.spec_page_arch(p)
                    == pre.archetypes_container.spec_page_arch(p)) by {
                    assert(p != np);
                }
            } else {
                assert(post.spec_page_of(i) == pp);
                assert(post.spec_row_of(i) == rr) by {
                    if swap is Some {
                        assert(i != swap.unwrap().id_to_replace);
                    }
                }
                if pp == p {
                    assert(rr != row);
                    assert(rr != old_ids.len() - 1) by {
                        if rr == old_ids.len() - 1 {
                            assert(old_ids[rr] == i);
                            if swap is Some {
                                assert(swap.unwrap().id_to_replace == old_ids.last());
                            } else {
                                assert(row + 1 == old_ids.len());
                            }
                        }
                    }
                    assert(rr < new_ids.len());
                    assert(new_ids[rr] == old_ids[rr]);
                    assert(new_ids.len() > 0);
                    assert(post.archetypes_container.spec_page_arch(p)
                        == mid.archetypes_container.spec_page_arch(p));
                    assert(mid.archetypes_container.spec_page_arch(p)
                        == pre.archetypes_container.spec_page_arch(p)) by {
                        assert(p != np);
                    }
                } else if pp == np {
                    // a row of the destination page below the new one
                    assert(mid.archetypes_container.pages@[np].entities_ids@[rr]
                        == pre.archetypes_container.pages@[np].entities_ids@[rr]);
                    assert(post.archetypes_container.pages@[np]
                        == mid.archetypes_container.pages@[np]);
                } else {
                    assert(mid.archetypes_container.pages@[pp]
                        == pre.archetypes_container.pages@[pp]);
                    assert(post.archetypes_container.pages@[pp]
                        == mid.archetypes_container.pages@[pp]);
                    assert(mid.archetypes_container.page_to_archetype@[pp]
                        == pre.archetypes_container.page_to_archetype@[pp]);
                    assert(post.archetypes_container.page_to_archetype@[pp]
                        == mid.archetypes_container.page_to_archetype@[pp]);
                }
            }
        }
    }
    // backward: every row names its live owner
    assert forall|q: int, r2: int|
        0 <= q < post.archetypes_container.pages@.len() && 0 <= r2
            < post.archetypes_container.pages@[q].entities_ids@.len() implies {
        let i = (#[trigger] post.archetypes_container.pages@[q].entities_ids@[r2]) as int;
        &&& i < cap
        &&& post.entities_container.spec_alive(i)
        &&& post.spec_has_archetype(i)
        &&& post.spec_page_of(i) == q
        &&& post.spec_row_of(i) == r2
    } by {
        if q == np {
            assert(post.archetypes_container.pages@[np]
                == mid.archetypes_container.pages@[np]);
            let nids = mid.archetypes_container.pages@[np].entities_ids@;
            if r2 == nids.len() - 1 {
                assert(nids[r2] == id as u32);
            } else {
                assert((np as int) < pre.archetypes_container.pages@.len()) by {
                    if (np as int) >= pre.archetypes_container.pages@.len() {
                        assert(nids.len() == 1);
                    }
                }
                let i = pre.archetypes_container.pages@[np].entities_ids@[r2] as int;
                assert(nids[r2] == pre.archetypes_container.pages@[np].entities_ids@[r2]);
                assert(pre.entities_container.spec_alive(i) && pre.spec_has_archetype(i));
                crate::bitvec_utils::lemma_bit_range(i, cap);
                assert(i != id) by {
                    assert(pre.spec_page_of(i) == np);
                }
                assert(post.spec_page_of(i) == np && post.spec_row_of(i) == r2) by {
                    if swap is Some && i == swap.unwrap().id_to_replace {
                        assert(pre.spec_page_of(old_ids.last() as int) == p);
                        assert(old_ids[old_ids.len() - 1] == old_ids.last());
                    }
                }
            }
        } else if q == p {
            let i = new_ids[r2] as int;
            if r2 == row && row + 1 < old_ids.len() {
                assert(new_ids[r2] == old_ids.last());
                let m = old_ids.last() as int;
                assert(old_ids[old_ids.len() - 1] == old_ids.last());
                assert(pre.entities_container.spec_alive(m) && pre.spec_has_archetype(m));
                crate::bitvec_utils::lemma_bit_range(m, cap);
                assert(m != id) by {
                    assert(pre.spec_row_of(m) == old_ids.len() - 1);
                }
                assert(post.spec_page_of(m) == p && post.spec_row_of(m) == row);
            } else {
                assert(new_ids[r2] == old_ids[r2]);
                assert(pre.entities_container.spec_alive(i) && pre.spec_has_archetype(i));
                crate::bitvec_utils::lemma_bit_range(i, cap);
                assert(i != id) by {
                    assert(r2 != row);
                }
                assert(post.spec_page_of(i) == p);
                assert(post.spec_row_of(i) == r2) by {
                    if swap is Some {
                        assert(swap.unwrap().id_to_replace == old_ids.last());
                        assert(old_ids[old_ids.len() - 1] == old_ids.last());
                        assert(i != swap.unwrap().id_to_replace as int) by {
                            if i == swap.unwrap().id_to_replace as int {
                                assert(pre.spec_row_of(i) == old_ids.len() - 1);
                                assert(pre.spec_row_of(i) == r2);
                            }
                        }
                    }
                }
            }
        } else {
            assert(post.archetypes_container.pages@[q]
                == mid.archetypes_container.pages@[q]);
            assert((q as int) < pre.archetypes_container.pages@.len() ==> mid.archetypes_container.pages@[q] == pre.archetypes_container.pages@[q]);
            assert((q as int) < pre.archetypes_container.pages@.len()) by {
                if (q as int) >= pre.archetypes_container.pages@.len() {
                    assert(q == np);
                }
            }
            let i = pre.archetypes_container.pages@[q].entities_ids@[r2] as int;
            assert(pre.entities_container.spec_alive(i) && pre.spec_has_archetype(i));
            crate::bitvec_utils::lemma_bit_range(i, cap);
            assert(i != id) by {
                assert(pre.spec_page_of(i) == q);
            }
            assert(post.spec_page_of(i) == q);
            assert(post.spec_row_of(i) == r2) by {
                if swap is Some {
                    assert(swap.unwrap().id_to_replace == old_ids.last());
                    assert(old_ids[old_ids.len() - 1] == old_ids.last());
                    assert(i != swap.unwrap().id_to_replace as int) by {
                        if i == swap.unwrap().id_to_replace as int {
                            assert(pre.spec_page_of(old_ids.last() as int) == p);
                        }
                    }
                }
            }
        }
    }
    // other entities keep their archetype value
    lemma_migrate_others(pre, mid, post, id, prev_loc, new_loc, swap);
}


/// Every other live entity keeps its occupancy and archetype across a
/// migration.
#[verifier::rlimit(100)]
#[verifier::spinoff_prover]
proof fn lemma_migrate_others(
    pre: Store,
    mid: Store,
    post: Store,
    id: int,
    prev_loc: EntityInArchetype,
    new_loc: EntityInArchetype,
    swap: Option<crate::archetype_data_page::SwapRemoveInfo>,
)
    requires
        pre.wf(),
        0 <= id < pre.spec_capacity(),
        pre.entities_container.spec_alive(id),
        pre.spec_has_archetype(id),
        prev_loc.page_index as int == pre.spec_page_of(id),
        prev_loc.index_in_page as int == pre.spec_row_of(id),
        new_loc.page_index != prev_loc.page_index,
        // `mid`: the container accepted the entity at `new_loc` and the
        // side tables point there; nothing else changed
        mid.entities_container == pre.entities_container,
        mid.tag_container == pre.tag_container,
        mid.order_group_container == pre.order_group_container,
        mid.entity_has_archetype_bit_vec@ == pre.entity_has_archetype_bit_vec@,
        mid.entity_to_page@ == pre.entity_to_page@.update(id, new_loc.page_index),
        mid.entity_to_index_in_page@ == pre.entity_to_index_in_page@.update(
            id,
            new_loc.index_in_page,
        ),
        mid.archetypes_container.wf(),
        mid.archetypes_container.pages@.len() >= pre.archetypes_container.pages@.len(),
        mid.archetypes_container.pages@.len() <= pre.archetypes_container.pages@.len() + 1,
        mid.archetypes_container.pages@.len() > pre.archetypes_container.pages@.len()
            ==> new_loc.page_index as int == pre.archetypes_container.pages@.len(),
        (new_loc.page_index as int) < mid.archetypes_container.pages@.len(),
        mid.archetypes_container.spec_page_arch(new_loc.page_index as int) is Some,
        mid.archetypes_container.pages@[new_loc.page_index as int].entities_ids@ == (if (
        new_loc.page_index as int) < pre.archetypes_container.pages@.len() {
            pre.archetypes_container.pages@[new_loc.page_index as int].entities_ids@
        } else {
            Seq::<u32>::empty()
        }).push(id as u32),
        new_loc.index_in_page as int == (if (new_loc.page_index as int)
            < pre.archetypes_container.pages@.len() {
            pre.archetypes_container.pages@[new_loc.page_index as int].entities_ids@.len() as int
        } else {
            0
        }),
        forall|q: int|
            0 <= q < pre.archetypes_container.pages@.len() && q != new_loc.page_index ==> (
            #[trigger] mid.archetypes_container.pages@[q]) == pre.archetypes_container.pages@[q]
                && mid.archetypes_container.page_to_archetype@[q]
                == pre.archetypes_container.page_to_archetype@[q],
        crate::archetypes_container::busy_slots_unchanged(
            pre.archetypes_container,
            mid.archetypes_container,
        ),
        (new_loc.page_index as int) < pre.archetypes_container.pages@.len()
            ==> pre.archetypes_container.spec_page_arch(new_loc.page_index as int) is None
            || pre.archetypes_container.spec_page_arch(new_loc.page_index as int)
            == mid.archetypes_container.spec_page_arch(new_loc.page_index as int),
        // `post`: the vacated row was swap-removed and the moved row's
        // table rewritten
        post.entities_container == mid.entities_container,
        post.tag_container == mid.tag_container,
        post.order_group_container == mid.order_group_container,
        post.entity_has_archetype_bit_vec@ == mid.entity_has_archetype_bit_vec@,
        post.entity_to_page@ == mid.entity_to_page@,
        post.entity_to_index_in_page@ == (match swap {
            Some(info) => mid.entity_to_index_in_page@.update(
                info.id_to_replace as int,
                prev_loc.index_in_page,
            ),
            None => mid.entity_to_index_in_page@,
        }),
        post.archetypes_container.wf(),
        post.archetypes_container.pages@.len() == mid.archetypes_container.pages@.len(),
        post.archetypes_container.archetypes@ == mid.archetypes_container.archetypes@,
        ({
            let p = prev_loc.page_index as int;
            let row = prev_loc.index_in_page as int;
            let old_ids = mid.archetypes_container.pages@[p].entities_ids@;
            &&& post.archetypes_container.pages@[p].entities_ids@ == old_ids.update(
                row,
                old_ids.last(),
            ).drop_last()
            &&& (row + 1 == old_ids.len() ==> swap is None)
            &&& (row + 1 < old_ids.len() ==> swap == Some(
                crate::archetype_data_page::SwapRemoveInfo { id_to_replace: old_ids.last() },
            ))
            &&& (post.archetypes_container.pages@[p].entities_ids@.len() > 0
                ==> post.archetypes_container.spec_page_arch(p)
                == mid.archetypes_container.spec_page_arch(p))
        }),
        forall|q: int|
            0 <= q < mid.archetypes_container.pages@.len() && q != prev_loc.page_index ==> (
            #[trigger] post.archetypes_container.pages@[q])
                == mid.archetypes_container.pages@[q]
                && post.archetypes_container.page_to_archetype@[q]
                == mid.archetypes_container.page_to_archetype@[q],
    ensures
        forall|i: int|
            0 <= i < pre.spec_capacity() && i != id && pre.entities_container.spec_alive(i)
                ==> post.spec_has_archetype(i) == pre.spec_has_archetype(i) && (
            pre.spec_has_archetype(i) ==> post.spec_archetype_of(i) == pre.spec_archetype_of(i)),
{
    let p = prev_loc.page_index as int;
    let row = prev_loc.index_in_page as int;
    let np = new_loc.page_index as int;
    let old_ids = pre.archetypes_container.pages@[p].entities_ids@;
    assert(mid.archetypes_container.pages@[p].entities_ids@ == old_ids) by {
        assert(mid.archetypes_container.pages@[p] == pre.archetypes_container.pages@[p]);
    }
    assert(old_ids[row] == id);
    assert forall|r2: int| 0 <= r2 < old_ids.len() && old_ids[r2] == id implies r2 == row by {
        assert(pre.spec_row_of(old_ids[r2] as int) == r2);
    }
    assert forall|i: int|
        0 <= i < pre.spec_capacity() && i != id && pre.entities_container.spec_alive(i)
            implies post.spec_has_archetype(i) == pre.spec_has_archetype(i) && (
    pre.spec_has_archetype(i) ==> post.spec_archetype_of(i) == pre.spec_archetype_of(i)) by {
        crate::bitvec_utils::lemma_bit_range(i, pre.spec_capacity());
        if pre.spec_has_archetype(i) {
            assert(pre.entities_container.spec_alive(i));
            let pp = pre.spec_page_of(i);
            assert(0 <= pp < pre.archetypes_container.pages@.len());
            assert(post.spec_page_of(i) == pp);
            if pp != np && pp != p {
                assert(mid.archetypes_container.pages@[pp]
                    == pre.archetypes_container.pages@[pp]);
                assert(post.archetypes_container.pages@[pp]
                    == mid.archetypes_container.pages@[pp]);
                assert(mid.archetypes_container.page_to_archetype@[pp]
                    == pre.archetypes_container.page_to_archetype@[pp]);
                assert(post.archetypes_container.page_to_archetype@[pp]
                    == mid.archetypes_container.page_to_archetype@[pp]);
            } else if pp == p {
                assert(post.archetypes_container.pages@[p].entities_ids@.len() > 0) by {
                    assert(pre.spec_row_of(i) < old_ids.len());
                    assert(i != id);
                    if swap is None {
                        assert(row + 1 == old_ids.len());
                        assert(pre.spec_row_of(i) != row);
                    }
                }
                assert(post.archetypes_container.spec_page_arch(p)
                    == pre.archetypes_container.spec_page_arch(p));
            } else {
                // the destination page was bound in `pre` (this entity
                // lives there), so its binding is preserved
                assert(pp == np);
                assert(pre.archetypes_container.spec_page_arch(np) is Some);
                assert(mid.archetypes_container.spec_page_arch(np)
                    == pre.archetypes_container.spec_page_arch(np));
                assert(post.archetypes_container.spec_page_arch(np)
                    == mid.archetypes_container.spec_page_arch(np)) by {
                    assert(np != p);
                    assert(post.archetypes_container.pages@[np]
                        == mid.archetypes_container.pages@[np]);
                }
            }
            let b = pre.spec_arch_index_of(i);
            assert(pre.archetypes_container.archetype_to_pages@[b].pages@.len() > 0) by {
                assert(pre.archetypes_container.spec_page_arch(pp) == Some(b as usize));
                assert(pre.archetypes_container.archetype_to_pages@[b].pages@.contains(
                    pp as usize,
                ));
            }
            assert(mid.archetypes_container.archetypes@[b]
                == pre.archetypes_container.archetypes@[b]);
            assert(post.archetypes_container.archetypes@
                == mid.archetypes_container.archetypes@);
        }
    }
}

/// A migration (move to a new row, then swap-remove of the vacated one)
/// carries the entity's shared component bytes along and leaves every
/// other seated entity's bytes as they were.
#[verifier::rlimit(100)]
#[verifier::spinoff_prover]
proof fn lemma_migrate_bytes(
    pre: Store,
    mid: Store,
    post: Store,
    id: int,
    prev_loc: EntityInArchetype,
    new_loc: EntityInArchetype,
    swap: Option<crate::archetype_data_page::SwapRemoveInfo>,
)
    requires
        pre.wf(),
        0 <= id < pre.spec_capacity(),
        pre.entities_container.spec_alive(id),
        pre.spec_has_archetype(id),
        prev_loc.page_index as int == pre.spec_page_of(id),
        prev_loc.index_in_page as int == pre.spec_row_of(id),
        new_loc.page_index != prev_loc.page_index,
        mid.entity_has_archetype_bit_vec@ == pre.entity_has_archetype_bit_vec@,
        mid.entity_to_page@ == pre.entity_to_page@.update(id, new_loc.page_index),
        mid.entity_to_index_in_page@ == pre.entity_to_index_in_page@.update(
            id,
            new_loc.index_in_page,
        ),
        mid.archetypes_container.wf(),
        mid.archetypes_container.pages@.len() >= pre.archetypes_container.pages@.len(),
        (new_loc.page_index as int) < mid.archetypes_container.pages@.len(),
        mid.archetypes_container.spec_page_arch(new_loc.page_index as int) is Some,
        mid.archetypes_container.pages@[new_loc.page_index as int].entities_ids@ == (if (
        new_loc.page_index as int) < pre.archetypes_container.pages@.len() {
            pre.archetypes_container.pages@[new_loc.page_index as int].entities_ids@
        } else {
            Seq::<u32>::empty()
        }).push(id as u32),
        new_loc.index_in_page as int == (if (new_loc.page_index as int)
            < pre.archetypes_container.pages@.len() {
            pre.archetypes_container.pages@[new_loc.page_index as int].entities_ids@.len() as int
        } else {
            0
        }),
        forall|q: int|
            0 <= q < pre.archetypes_container.pages@.len() && q != new_loc.page_index ==> (
            #[trigger] mid.archetypes_container.pages@[q]) == pre.archetypes_container.pages@[q]
                && mid.archetypes_container.page_to_archetype@[q]
                == pre.archetypes_container.page_to_archetype@[q],
        crate::archetypes_container::busy_slots_unchanged(
            pre.archetypes_container,
            mid.archetypes_container,
        ),
        (new_loc.page_index as int) < pre.archetypes_container.pages@.len()
            ==> pre.archetypes_container.spec_page_arch(new_loc.page_index as int) is None
            || pre.archetypes_container.spec_page_arch(new_loc.page_index as int)
            == mid.archetypes_container.spec_page_arch(new_loc.page_index as int),
        // the sizes of shared component ids agree across the two lists
        ({
            let prev_a = pre.spec_arch_index_of(id);
            let prev_arch = pre.archetypes_container.archetypes@[prev_a]@;
            let dst_a = mid.archetypes_container.spec_page_arch(
                new_loc.page_index as int,
            ).unwrap() as int;
            let dst_arch = mid.archetypes_container.archetypes@[dst_a]@;
            forall|i2: int, j: int|
                0 <= i2 < prev_arch.len() && 0 <= j < dst_arch.len() && (
                #[trigger] prev_arch[i2]).id == (#[trigger] dst_arch[j]).id ==> prev_arch[
                    i2
                ].size == dst_arch[j].size
        }),
        // the move copied the shared columns into the new row and left the
        // destination page's other bytes as they were
        ({
            let np = new_loc.page_index as int;
            let nrow = new_loc.index_in_page as int;
            let prev_a = pre.spec_arch_index_of(id);
            let prev_arch = pre.archetypes_container.archetypes@[prev_a]@;
            let prev_offsets = pre.archetypes_container.layouts@[prev_a].offsets@;
            let dst_a = mid.archetypes_container.spec_page_arch(np).unwrap() as int;
            let dst_arch = mid.archetypes_container.archetypes@[dst_a]@;
            let dst_offsets = mid.archetypes_container.layouts@[dst_a].offsets@;
            &&& forall|i2: int, j: int|
                0 <= i2 < prev_arch.len() && 0 <= j < dst_arch.len() && (
                #[trigger] prev_arch[i2]).id == (#[trigger] dst_arch[j]).id ==> forall|b: int|
                    0 <= b < dst_arch[j].size ==> #[trigger] crate::archetype_data_page::cell_byte(
                        mid.archetypes_container.pages@[np].components_data@,
                        dst_offsets,
                        dst_arch,
                        j,
                        nrow,
                        b,
                    ) == crate::archetype_data_page::cell_byte(
                        pre.archetypes_container.pages@[
                            prev_loc.page_index as int
                        ].components_data@,
                        prev_offsets,
                        prev_arch,
                        i2,
                        prev_loc.index_in_page as int,
                        b,
                    )
            &&& (np < pre.archetypes_container.pages@.len() ==> forall|pos: int|
                0 <= pos < PAGE_SIZE_BYTES && (forall|j: int|
                    0 <= j < dst_arch.len() ==> !crate::archetype_data_page::in_cell(
                        dst_offsets,
                        dst_arch,
                        j,
                        nrow,
                        pos,
                    )) ==> mid.archetypes_container.pages@[np].components_data@[pos]
                    == pre.archetypes_container.pages@[np].components_data@[pos])
        }),
        // the swap-remove's byte facts on the vacated page
        post.entity_to_page@ == mid.entity_to_page@,
        post.entity_to_index_in_page@ == (match swap {
            Some(info) => mid.entity_to_index_in_page@.update(
                info.id_to_replace as int,
                prev_loc.index_in_page,
            ),
            None => mid.entity_to_index_in_page@,
        }),
        post.entity_has_archetype_bit_vec@ == mid.entity_has_archetype_bit_vec@,
        post.archetypes_container.wf(),
        post.archetypes_container.pages@.len() == mid.archetypes_container.pages@.len(),
        post.archetypes_container.archetypes@ == mid.archetypes_container.archetypes@,
        post.archetypes_container.layouts@ == mid.archetypes_container.layouts@,
        ({
            let p = prev_loc.page_index as int;
            let row = prev_loc.index_in_page as int;
            let a = mid.archetypes_container.spec_page_arch(p).unwrap() as int;
            let arch = mid.archetypes_container.archetypes@[a]@;
            let offsets = mid.archetypes_container.layouts@[a].offsets@;
            let old_ids = mid.archetypes_container.pages@[p].entities_ids@;
            &&& post.archetypes_container.pages@[p].entities_ids@ == old_ids.update(
                row,
                old_ids.last(),
            ).drop_last()
            &&& (row + 1 == old_ids.len() ==> swap is None
                && post.archetypes_container.pages@[p].components_data@
                == mid.archetypes_container.pages@[p].components_data@)
            &&& (row + 1 < old_ids.len() ==> {
                &&& swap == Some(
                    crate::archetype_data_page::SwapRemoveInfo { id_to_replace: old_ids.last() },
                )
                &&& forall|k: int, b: int|
                    0 <= k < arch.len() && 0 <= b < arch[k].size
                        ==> #[trigger] crate::archetype_data_page::cell_byte(
                        post.archetypes_container.pages@[p].components_data@,
                        offsets,
                        arch,
                        k,
                        row,
                        b,
                    ) == crate::archetype_data_page::cell_byte(
                        mid.archetypes_container.pages@[p].components_data@,
                        offsets,
                        arch,
                        k,
                        old_ids.len() - 1,
                        b,
                    )
                &&& forall|pos: int|
                    0 <= pos < PAGE_SIZE_BYTES && (forall|k: int|
                        0 <= k < arch.len() ==> !crate::archetype_data_page::in_cell(
                            offsets,
                            arch,
                            k,
                            row,
                            pos,
                        )) ==> post.archetypes_container.pages@[p].components_data@[pos]
                        == mid.archetypes_container.pages@[p].components_data@[pos]
            })
            &&& (post.archetypes_container.pages@[p].entities_ids@.len() > 0
                ==> post.archetypes_container.spec_page_arch(p)
                == mid.archetypes_container.spec_page_arch(p))
        }),
        forall|q: int|
            0 <= q < mid.archetypes_container.pages@.len() && q != prev_loc.page_index ==> (
            #[trigger] post.archetypes_container.pages@[q])
                == mid.archetypes_container.pages@[q]
                && post.archetypes_container.page_to_archetype@[q]
                == mid.archetypes_container.page_to_archetype@[q],
    ensures
        // the entity's components shared by both lists keep their bytes
        ({
            let prev_a = pre.spec_arch_index_of(id);
            let prev_arch = pre.archetypes_container.archetypes@[prev_a]@;
            let dst_a = mid.archetypes_container.spec_page_arch(
                new_loc.page_index as int,
            ).unwrap() as int;
            let dst_arch = mid.archetypes_container.archetypes@[dst_a]@;
            forall|t: u64|
                has_comp_id(prev_arch, t) && has_comp_id(dst_arch, t)
                    ==> post.spec_component_bytes(id, t) == pre.spec_component_bytes(id, t)
        }),
        // every other seated entity keeps its bytes
        forall|i: int, t: u64|
            0 <= i < pre.spec_capacity() && i != id && pre.entities_container.spec_alive(i)
                && pre.spec_has_archetype(i) && has_comp_id(pre.spec_archetype_of(i).unwrap(), t)
                ==> post.spec_component_bytes(i, t) == pre.spec_component_bytes(i, t),
{
    let cap = pre.spec_capacity();
    let p = prev_loc.page_index as int;
    let row = prev_loc.index_in_page as int;
    let np = new_loc.page_index as int;
    let nrow = new_loc.index_in_page as int;
    let prev_a = pre.spec_arch_index_of(id);
    let prev_arch = pre.archetypes_container.archetypes@[prev_a]@;
    let prev_layout = pre.archetypes_container.layouts@[prev_a];
    let prev_offsets = prev_layout.offsets@;
    let dst_a = mid.archetypes_container.spec_page_arch(np).unwrap() as int;
    let dst_arch = mid.archetypes_container.archetypes@[dst_a]@;
    let dst_layout = mid.archetypes_container.layouts@[dst_a];
    let dst_offsets = dst_layout.offsets@;
    let old_ids = pre.archetypes_container.pages@[p].entities_ids@;
    assert(pre.archetypes_container.spec_page_arch(p) == Some(prev_a as usize));
    assert(old_ids[row] == id);
    assert forall|r2: int| 0 <= r2 < old_ids.len() && old_ids[r2] == id implies r2 == row by {
        assert(pre.spec_row_of(old_ids[r2] as int) == r2);
    }
    assert(crate::archetype_layout::layout_wf(prev_arch, prev_layout));
    assert(crate::archetype_layout::layout_wf(dst_arch, dst_layout));
    assert(mid.archetypes_container.pages@[p] == pre.archetypes_container.pages@[p]);
    assert(mid.archetypes_container.page_to_archetype@[p]
        == pre.archetypes_container.page_to_archetype@[p]);
    assert(mid.archetypes_container.spec_page_arch(p) == Some(prev_a as usize));
    assert(post.archetypes_container.pages@[np] == mid.archetypes_container.pages@[np]);
    assert(post.archetypes_container.page_to_archetype@[np]
        == mid.archetypes_container.page_to_archetype@[np]);
    let mid_ids = mid.archetypes_container.pages@[p].entities_ids@;
    assert(mid_ids == old_ids);
    // the fixed-up id, when there is one, lives on the vacated page
    assert(swap is Some ==> swap.unwrap().id_to_replace as int != id && pre.spec_page_of(
        swap.unwrap().id_to_replace as int,
    ) == p) by {
        if swap is Some {
            let m = swap.unwrap().id_to_replace as int;
            assert(row + 1 < old_ids.len()) by {
                if row + 1 == old_ids.len() {
                    assert(swap is None);
                }
            }
            assert(old_ids[old_ids.len() - 1] == old_ids.last());
            assert(m == old_ids.last() as int);
            assert(pre.spec_page_of(m) == p && pre.spec_row_of(m) == old_ids.len() - 1);
            assert(m != id) by {
                if m == id {
                    assert(row == old_ids.len() - 1);
                }
            }
        }
    }
    assert(post.spec_page_of(id) == np && post.spec_row_of(id) == nrow);
    assert(post.archetypes_container.spec_page_arch(np)
        == mid.archetypes_container.spec_page_arch(np));
    assert(post.spec_arch_index_of(id) == dst_a);
    assert(nrow < dst_layout.entities_capacity) by {
        assert(mid.archetypes_container.pages@[np].wf());
        assert(mid.archetypes_container.pages@[np].capacity == dst_layout.entities_capacity);
        assert(nrow < mid.archetypes_container.pages@[np].entities_ids@.len());
    }
    assert(row < prev_layout.entities_capacity) by {
        assert(pre.archetypes_container.pages@[p].wf());
        assert(pre.archetypes_container.pages@[p].capacity == prev_layout.entities_capacity);
    }
    assert(pre.archetypes_container.pages@[p].components_data@.len() == PAGE_SIZE_BYTES) by {
        assert(pre.archetypes_container.pages@[p].wf());
    }
    assert(mid.archetypes_container.pages@[np].components_data@.len() == PAGE_SIZE_BYTES) by {
        assert(mid.archetypes_container.pages@[np].wf());
    }
    // the entity's own shared components
    assert forall|t: u64|
        has_comp_id(prev_arch, t) && has_comp_id(dst_arch, t)
            implies post.spec_component_bytes(id, t) == pre.spec_component_bytes(id, t) by {
        crate::archetype::lemma_comp_index_of(prev_arch, t);
        crate::archetype::lemma_comp_index_of(dst_arch, t);
        let i2 = comp_index_of(prev_arch, t);
        let j = comp_index_of(dst_arch, t);
        assert(prev_arch[i2].id == dst_arch[j].id);
        assert(prev_arch[i2].size == dst_arch[j].size);
        assert forall|b: int|
            0 <= b < dst_arch[j].size implies crate::archetype_data_page::cell_byte(
            post.archetypes_container.pages@[np].components_data@,
            dst_offsets,
            dst_arch,
            j,
            nrow,
            b,
        ) == crate::archetype_data_page::cell_byte(
            pre.archetypes_container.pages@[p].components_data@,
            prev_offsets,
            prev_arch,
            i2,
            row,
            b,
        ) by {
            assert(crate::archetype_data_page::cell_byte(
                mid.archetypes_container.pages@[np].components_data@,
                dst_offsets,
                dst_arch,
                j,
                nrow,
                b,
            ) == crate::archetype_data_page::cell_byte(
                pre.archetypes_container.pages@[p].components_data@,
                prev_offsets,
                prev_arch,
                i2,
                row,
                b,
            ));
        }
        crate::archetype_data_page::lemma_cell_ranges_equal(
            post.archetypes_container.pages@[np].components_data@,
            dst_arch,
            dst_layout,
            j,
            nrow,
            pre.archetypes_container.pages@[p].components_data@,
            prev_arch,
            prev_layout,
            i2,
            row,
        );
    }
    // every other seated entity
    assert forall|i: int, t: u64|
        0 <= i < cap && i != id && pre.entities_container.spec_alive(i) && pre.spec_has_archetype(
            i,
        ) && has_comp_id(pre.spec_archetype_of(i).unwrap(), t)
            implies post.spec_component_bytes(i, t) == pre.spec_component_bytes(i, t) by {
        crate::bitvec_utils::lemma_bit_range(i, cap);
        let pp = pre.spec_page_of(i);
        let rr = pre.spec_row_of(i);
        assert(post.spec_page_of(i) == pp);
        let b_i = pre.spec_arch_index_of(i);
        let arch_i = pre.archetypes_container.archetypes@[b_i]@;
        let layout_i = pre.archetypes_container.layouts@[b_i];
        assert(pre.archetypes_container.archetype_to_pages@[b_i].pages@.len() > 0) by {
            assert(pre.archetypes_container.spec_page_arch(pp) == Some(b_i as usize));
            assert(pre.archetypes_container.archetype_to_pages@[b_i].pages@.contains(
                pp as usize,
            ));
        }
        assert(mid.archetypes_container.archetypes@[b_i]
            == pre.archetypes_container.archetypes@[b_i]);
        assert(mid.archetypes_container.layouts@[b_i]
            == pre.archetypes_container.layouts@[b_i]);
        assert(crate::archetype_layout::layout_wf(arch_i, layout_i));
        crate::archetype::lemma_comp_index_of(arch_i, t);
        let k = comp_index_of(arch_i, t);
        assert(rr < layout_i.entities_capacity) by {
            assert(pre.archetypes_container.pages@[pp].wf());
            assert(pre.archetypes_container.pages@[pp].capacity == layout_i.entities_capacity);
        }
        assert(pre.archetypes_container.pages@[pp].components_data@.len() == PAGE_SIZE_BYTES) by {
            assert(pre.archetypes_container.pages@[pp].wf());
        }
        if pp != p && pp != np {
            assert(mid.archetypes_container.pages@[pp] == pre.archetypes_container.pages@[pp]);
            assert(mid.archetypes_container.page_to_archetype@[pp]
                == pre.archetypes_container.page_to_archetype@[pp]);
            assert(post.archetypes_container.pages@[pp] == mid.archetypes_container.pages@[pp]);
            assert(post.archetypes_container.page_to_archetype@[pp]
                == mid.archetypes_container.page_to_archetype@[pp]);
            assert(post.spec_row_of(i) == rr) by {
                if swap is Some {
                    assert(i != swap.unwrap().id_to_replace as int) by {
                        assert(pre.spec_page_of(swap.unwrap().id_to_replace as int) == p);
                    }
                }
            }
        } else if pp == np {
            // a neighbour on the destination page: only the new row's
            // cells changed there
            assert(np < pre.archetypes_container.pages@.len());
            assert(pre.archetypes_container.spec_page_arch(np) == Some(b_i as usize));
            assert(mid.archetypes_container.spec_page_arch(np)
                == pre.archetypes_container.spec_page_arch(np));
            assert(dst_a == b_i);
            assert(dst_arch == arch_i);
            assert(dst_layout == layout_i);
            assert(rr != nrow) by {
                assert(rr < pre.archetypes_container.pages@[np].entities_ids@.len());
            }
            assert(post.spec_row_of(i) == rr) by {
                if swap is Some {
                    assert(i != swap.unwrap().id_to_replace as int) by {
                        assert(pre.spec_page_of(swap.unwrap().id_to_replace as int) == p);
                    }
                }
            }
            let pre_data = pre.archetypes_container.pages@[np].components_data@;
            let mid_data = mid.archetypes_container.pages@[np].components_data@;
            assert forall|b: int|
                0 <= b < arch_i[k].size implies crate::archetype_data_page::cell_byte(
                mid_data,
                dst_offsets,
                arch_i,
                k,
                rr,
                b,
            ) == crate::archetype_data_page::cell_byte(
                pre_data,
                dst_offsets,
                arch_i,
                k,
                rr,
                b,
            ) by {
                let pos = crate::archetype_data_page::cell_start(dst_offsets, arch_i, k, rr)
                    + b;
                assert(crate::archetype_data_page::in_cell(dst_offsets, arch_i, k, rr, pos));
                crate::archetype_data_page::lemma_cell_bounds(arch_i, layout_i, k, rr);
                assert(0 <= pos < PAGE_SIZE_BYTES);
                assert forall|j: int|
                    0 <= j < arch_i.len() implies !crate::archetype_data_page::in_cell(
                    dst_offsets,
                    arch_i,
                    j,
                    nrow,
                    pos,
                ) by {
                    if crate::archetype_data_page::in_cell(dst_offsets, arch_i, j, nrow, pos) {
                        crate::archetype_data_page::lemma_cells_disjoint(
                            arch_i,
                            layout_i,
                            k,
                            rr,
                            j,
                            nrow,
                            pos,
                        );
                    }
                }
                assert(mid_data[pos] == pre_data[pos]);
            }
            crate::archetype_data_page::lemma_cell_ranges_equal(
                mid_data,
                arch_i,
                layout_i,
                k,
                rr,
                pre_data,
                arch_i,
                layout_i,
                k,
                rr,
            );
            assert(post.archetypes_container.pages@[np].components_data@ == mid_data);
        } else {
            // a neighbour on the vacated page: the swap-remove either
            // copied its row from the last one or left it alone
            assert(pp == p);
            assert(b_i == prev_a);
            assert(arch_i == prev_arch);
            assert(rr != row);
            let mid_data2 = mid.archetypes_container.pages@[p].components_data@;
            let post_data2 = post.archetypes_container.pages@[p].components_data@;
            assert(mid_data2 == pre.archetypes_container.pages@[p].components_data@);
            if swap is Some && i == swap.unwrap().id_to_replace as int {
                assert(rr == old_ids.len() - 1) by {
                    assert(old_ids[old_ids.len() - 1] == old_ids.last());
                    assert(pre.spec_row_of(old_ids.last() as int) == old_ids.len() - 1);
                }
                assert(row + 1 < old_ids.len()) by {
                    if row + 1 == old_ids.len() {
                        assert(swap is None);
                    }
                }
                assert(post.spec_row_of(i) == row);
                crate::archetype_data_page::lemma_cell_ranges_equal(
                    post_data2,
                    prev_arch,
                    prev_layout,
                    k,
                    row,
                    mid_data2,
                    prev_arch,
                    prev_layout,
                    k,
                    rr,
                );
            } else {
                assert(post.spec_row_of(i) == rr);
                if swap is None {
                    assert(post_data2 == mid_data2) by {
                        assert(row + 1 == old_ids.len()) by {
                            if row + 1 < old_ids.len() {
                                assert(swap is Some);
                            }
                        }
                    }
                } else {
                    assert(row + 1 < old_ids.len()) by {
                        if row + 1 == old_ids.len() {
                            assert(swap is None);
                        }
                    }
                    assert forall|b: int|
                        0 <= b < prev_arch[k].size implies crate::archetype_data_page::cell_byte(
                        post_data2,
                        prev_offsets,
                        prev_arch,
                        k,
                        rr,
                        b,
                    ) == crate::archetype_data_page::cell_byte(
                        mid_data2,
                        prev_offsets,
                        prev_arch,
                        k,
                        rr,
                        b,
                    ) by {
                        let pos = crate::archetype_data_page::cell_start(
                            prev_offsets,
                            prev_arch,
                            k,
                            rr,
                        ) + b;
                        assert(crate::archetype_data_page::in_cell(
                            prev_offsets,
                            prev_arch,
                            k,
                            rr,
                            pos,
                        ));
                        crate::archetype_data_page::lemma_cell_bounds(prev_arch, prev_layout, k, rr);
                        assert(0 <= pos < PAGE_SIZE_BYTES);
                        assert forall|k2: int|
                            0 <= k2 < prev_arch.len()
                                implies !crate::archetype_data_page::in_cell(
                            prev_offsets,
                            prev_arch,
                            k2,
                            row,
                            pos,
                        ) by {
                            if crate::archetype_data_page::in_cell(
                                prev_offsets,
                                prev_arch,
                                k2,
                                row,
                                pos,
                            ) {
                                crate::archetype_data_page::lemma_cells_disjoint(
                                    prev_arch,
                                    prev_layout,
                                    k,
                                    rr,
                                    k2,
                                    row,
                                    pos,
                                );
                            }
                        }
                        assert(post_data2[pos] == mid_data2[pos]);
                    }
                    crate::archetype_data_page::lemma_cell_ranges_equal(
                        post_data2,
                        prev_arch,
                        prev_layout,
                        k,
                        rr,
                        mid_data2,
                        prev_arch,
                        prev_layout,
                        k,
                        rr,
                    );
                }
            }
        }
    }
}
} // verus!

verus! {

/// The state every branch of `add_components` reaches before writing the
/// payloads: the entity owns the row `(page, row)` of a slot whose
/// component list is the target archetype, and nothing else has moved.
pub open spec fn write_ready(
    cur: Store,
    orig: Store,
    entity: Entity,
    components: Seq<ComponentData>,
    page: int,
    row: int,
) -> bool {
    let id = entity.id as int;
    let ts = spec_component_types_of(components);
    &&& cur.wf()
    &&& 0 <= page < cur.archetypes_container.pages@.len()
    &&& cur.archetypes_container.spec_page_arch(page) is Some
    &&& 0 <= row < cur.archetypes_container.pages@[page].entities_ids@.len()
    &&& cur.archetypes_container.pages@[page].entities_ids@[row] == entity.id
    &&& cur.spec_page_of(id) == page
    &&& cur.spec_row_of(id) == row
    &&& cur.spec_has_archetype(id)
    &&& cur.entities_container == orig.entities_container
    &&& cur.tag_container == orig.tag_container
    &&& cur.order_group_container == orig.order_group_container
    &&& cur.archetypes_container.pages@.len() <= orig.archetypes_container.pages@.len() + 1
    &&& crate::archetype::comps_equiv(
        cur.archetypes_container.archetypes@[cur.spec_arch_index_of(id)]@,
        orig.spec_target_archetype(id, ts),
    )
    &&& (orig.spec_has_archetype(id) && (forall|k: int|
        0 <= k < ts.len() ==> has_comp_id(
            orig.spec_archetype_of(id).unwrap(),
            (#[trigger] ts[k]).id,
        )) ==> cur == orig)
    &&& forall|i: int|
        0 <= i < orig.spec_capacity() && i != id && orig.entities_container.spec_alive(i)
            ==> cur.spec_has_archetype(i) == orig.spec_has_archetype(i) && (
        orig.spec_has_archetype(i) ==> cur.spec_archetype_of(i) == orig.spec_archetype_of(i))
    // components the entity already owned are present in the slot's list
    // and their bytes came along
    &&& (orig.spec_has_archetype(id) ==> forall|t: u64|
        #[trigger] has_comp_id(orig.spec_archetype_of(id).unwrap(), t) ==> has_comp_id(
            cur.archetypes_container.archetypes@[cur.spec_arch_index_of(id)]@,
            t,
        ) && cur.spec_component_bytes(id, t) == orig.spec_component_bytes(id, t))
    // no other seated entity's bytes moved
    &&& forall|i: int, t: u64|
        0 <= i < orig.spec_capacity() && i != id && orig.entities_container.spec_alive(i)
            && orig.spec_has_archetype(i) && #[trigger] has_comp_id(
            orig.spec_archetype_of(i).unwrap(),
            t,
        ) ==> cur.spec_component_bytes(i, t) == orig.spec_component_bytes(i, t)
}

/// In a write-ready state the slot's component list accepts every given
/// payload: each id is present with the payload's size.
proof fn lemma_write_target_ok(
    cur: Store,
    orig: Store,
    entity: Entity,
    components: Seq<ComponentData>,
    page: int,
    row: int,
)
    requires
        orig.wf(),
        orig.spec_is_alive(entity),
        components.len() >= 1,
        forall|k: int|
            0 <= k < components.len() ==> (#[trigger] components[k]).bytes@.len() == components[
                k
            ].component_type.size,
        forall|k1: int, k2: int|
            0 <= k1 < k2 < components.len() ==> components[k1].component_type.id != components[
                k2
            ].component_type.id,
        orig.spec_has_archetype(entity.id as int) ==> (forall|k: int, j: int|
            0 <= k < components.len() && 0 <= j < orig.spec_archetype_of(
                entity.id as int,
            ).unwrap().len() && (#[trigger] orig.spec_archetype_of(entity.id as int).unwrap()[
                j
            ]).id == (#[trigger] components[k]).component_type.id ==> orig.spec_archetype_of(
                entity.id as int,
            ).unwrap()[j].size == components[k].component_type.size),
        write_ready(cur, orig, entity, components, page, row),
    ensures
        ({
            let a = cur.archetypes_container.spec_page_arch(page).unwrap() as int;
            let arch = cur.archetypes_container.archetypes@[a]@;
            forall|k: int|
                0 <= k < components.len() ==> has_comp_id(
                    arch,
                    (#[trigger] components[k]).component_type.id,
                ) && arch[comp_index_of(arch, components[k].component_type.id)].size
                    == components[k].bytes@.len()
        }),
{
    let id = entity.id as int;
    let ts = spec_component_types_of(components);
    lemma_target_entry(orig, id, components);
    let target = orig.spec_target_archetype(id, ts);
    let a = cur.archetypes_container.spec_page_arch(page).unwrap() as int;
    let arch = cur.archetypes_container.archetypes@[a]@;
    assert(a == cur.spec_arch_index_of(id));
    assert(crate::archetype::comps_equiv(arch, target));
    assert(crate::archetype::sorted_by_id(arch));
    assert forall|k: int|
        0 <= k < components.len() implies has_comp_id(
        arch,
        (#[trigger] components[k]).component_type.id,
    ) && arch[comp_index_of(arch, components[k].component_type.id)].size == components[
        k
    ].bytes@.len() by {
        let tid = components[k].component_type.id;
        assert(has_comp_id(target, tid));
        crate::archetype::lemma_comp_index_of(target, tid);
        let tj = comp_index_of(target, tid);
        assert(arch[tj].id == tid);
        assert(has_comp_id(arch, tid)) by {
            assert(arch[tj].id == tid);
        }
        crate::archetype::lemma_comp_index_of(arch, tid);
        let aj = comp_index_of(arch, tid);
        assert(aj == tj) by {
            if aj != tj {
                assert(arch[aj].id != arch[tj].id);
            }
        }
        assert(arch[aj].size == target[tj].size);
    }
}

/// A payload write touches only the written components' cells of its
/// row: any cell of another row, or of a column whose id was not
/// written, keeps its bytes.
#[verifier::rlimit(100)]
#[verifier::spinoff_prover]
proof fn lemma_write_kept_cell(
    cur: Store,
    post: Store,
    components: Seq<ComponentData>,
    page: int,
    row: int,
    kt: int,
    rr: int,
)
    requires
        cur.wf(),
        0 <= page < cur.archetypes_container.pages@.len(),
        cur.archetypes_container.spec_page_arch(page) is Some,
        0 <= row < cur.archetypes_container.pages@[page].entities_ids@.len(),
        ({
            let a = cur.archetypes_container.spec_page_arch(page).unwrap() as int;
            let arch = cur.archetypes_container.archetypes@[a]@;
            let offsets = cur.archetypes_container.layouts@[a].offsets@;
            let data = post.archetypes_container.pages@[page].components_data@;
            &&& data.len() == PAGE_SIZE_BYTES
            &&& forall|k: int|
                0 <= k < components.len() ==> has_comp_id(
                    arch,
                    (#[trigger] components[k]).component_type.id,
                )
            &&& forall|pos: int|
                0 <= pos < PAGE_SIZE_BYTES && (forall|k: int|
                    0 <= k < components.len() ==> !crate::archetype_data_page::in_cell(
                        offsets,
                        arch,
                        comp_index_of(arch, (#[trigger] components[k]).component_type.id),
                        row,
                        pos,
                    )) ==> data[pos] == cur.archetypes_container.pages@[page].components_data@[pos]
            &&& 0 <= kt < arch.len()
            &&& 0 <= rr < cur.archetypes_container.layouts@[a].entities_capacity
            &&& (rr == row ==> forall|k: int|
                0 <= k < components.len() ==> (#[trigger] components[k]).component_type.id
                    != arch[kt].id)
        }),
    ensures
        ({
            let a = cur.archetypes_container.spec_page_arch(page).unwrap() as int;
            let arch = cur.archetypes_container.archetypes@[a]@;
            let offsets = cur.archetypes_container.layouts@[a].offsets@;
            post.archetypes_container.pages@[page].components_data@.subrange(
                crate::archetype_data_page::cell_start(offsets, arch, kt, rr),
                crate::archetype_data_page::cell_start(offsets, arch, kt, rr) + arch[kt].size,
            ) == cur.archetypes_container.pages@[page].components_data@.subrange(
                crate::archetype_data_page::cell_start(offsets, arch, kt, rr),
                crate::archetype_data_page::cell_start(offsets, arch, kt, rr) + arch[kt].size,
            )
        }),
{
    let a = cur.archetypes_container.spec_page_arch(page).unwrap() as int;
    let arch = cur.archetypes_container.archetypes@[a]@;
    let layout = cur.archetypes_container.layouts@[a];
    let offsets = layout.offsets@;
    let cur_data = cur.archetypes_container.pages@[page].components_data@;
    let post_data = post.archetypes_container.pages@[page].components_data@;
    assert(crate::archetype_layout::layout_wf(arch, layout));
    assert(cur_data.len() == PAGE_SIZE_BYTES) by {
        assert(cur.archetypes_container.pages@[page].wf());
    }
    assert forall|b: int|
        0 <= b < arch[kt].size implies crate::archetype_data_page::cell_byte(
        post_data,
        offsets,
        arch,
        kt,
        rr,
        b,
    ) == crate::archetype_data_page::cell_byte(cur_data, offsets, arch, kt, rr, b) by {
        let pos = crate::archetype_data_page::cell_start(offsets, arch, kt, rr) + b;
        assert(crate::archetype_data_page::in_cell(offsets, arch, kt, rr, pos));
        crate::archetype_data_page::lemma_cell_bounds(arch, layout, kt, rr);
        assert(0 <= pos < PAGE_SIZE_BYTES);
        assert forall|k: int|
            0 <= k < components.len() implies !crate::archetype_data_page::in_cell(
            offsets,
            arch,
            comp_index_of(arch, (#[trigger] components[k]).component_type.id),
            row,
            pos,
        ) by {
            crate::archetype::lemma_comp_index_of(arch, components[k].component_type.id);
            let kw = comp_index_of(arch, components[k].component_type.id);
            assert(arch[kw].id == components[k].component_type.id);
            if crate::archetype_data_page::in_cell(offsets, arch, kw, row, pos) {
                assert(row < layout.entities_capacity) by {
                    assert(cur.archetypes_container.pages@[page].wf());
                    assert(cur.archetypes_container.pages@[page].capacity
                        == layout.entities_capacity);
                }
                crate::archetype_data_page::lemma_cells_disjoint(
                    arch,
                    layout,
                    kt,
                    rr,
                    kw,
                    row,
                    pos,
                );
                assert(kt == kw && rr == row);
                assert(components[k].component_type.id != arch[kt].id);
            }
        }
        assert(post_data[pos] == cur_data[pos]);
    }
    crate::archetype_data_page::lemma_cell_ranges_equal(
        post_data,
        arch,
        layout,
        kt,
        rr,
        cur_data,
        arch,
        layout,
        kt,
        rr,
    );
}

/// After the payload write, `add_components`' promises hold: the entity
/// carries the target archetype with the written values, an
/// already-covered addition moved nothing, and every other entity is
/// untouched.
#[verifier::rlimit(100)]
#[verifier::spinoff_prover]
proof fn lemma_add_components_post(
    orig: Store,
    cur: Store,
    post: Store,
    entity: Entity,
    components: Seq<ComponentData>,
    page: int,
    row: int,
)
    requires
        orig.wf(),
        orig.spec_is_alive(entity),
        components.len() >= 1,
        forall|k: int|
            0 <= k < components.len() ==> (#[trigger] components[k]).bytes@.len() == components[
                k
            ].component_type.size,
        forall|k1: int, k2: int|
            0 <= k1 < k2 < components.len() ==> components[k1].component_type.id != components[
                k2
            ].component_type.id,
        orig.spec_has_archetype(entity.id as int) ==> (forall|k: int, j: int|
            0 <= k < components.len() && 0 <= j < orig.spec_archetype_of(
                entity.id as int,
            ).unwrap().len() && (#[trigger] orig.spec_archetype_of(entity.id as int).unwrap()[
                j
            ]).id == (#[trigger] components[k]).component_type.id ==> orig.spec_archetype_of(
                entity.id as int,
            ).unwrap()[j].size == components[k].component_type.size),
        write_ready(cur, orig, entity, components, page, row),
        // what the write changed: one page's bytes
        post.wf(),
        post.entities_container == cur.entities_container,
        post.tag_container == cur.tag_container,
        post.order_group_container == cur.order_group_container,
        post.entity_to_page@ == cur.entity_to_page@,
        post.entity_to_index_in_page@ == cur.entity_to_index_in_page@,
        post.entity_has_archetype_bit_vec@ == cur.entity_has_archetype_bit_vec@,
        post.archetypes_container.archetypes@ == cur.archetypes_container.archetypes@,
        post.archetypes_container.layouts@ == cur.archetypes_container.layouts@,
        post.archetypes_container.page_to_archetype@ == cur.archetypes_container.page_to_archetype@,
        post.archetypes_container.pages@.len() == cur.archetypes_container.pages@.len(),
        forall|q: int|
            0 <= q < cur.archetypes_container.pages@.len() && q != page ==> (
            #[trigger] post.archetypes_container.pages@[q]) == cur.archetypes_container.pages@[q],
        post.archetypes_container.pages@[page].entities_ids@ == cur.archetypes_container.pages@[page].entities_ids@,
        // the written cells and the untouched rest
        ({
            let a = cur.archetypes_container.spec_page_arch(page).unwrap() as int;
            let arch = cur.archetypes_container.archetypes@[a]@;
            let offsets = cur.archetypes_container.layouts@[a].offsets@;
            let data = post.archetypes_container.pages@[page].components_data@;
            &&& data.len() == PAGE_SIZE_BYTES
            &&& forall|k: int, b: int|
                0 <= k < components.len() && 0 <= b < components[k].bytes@.len()
                    ==> #[trigger] crate::archetype_data_page::cell_byte(
                    data,
                    offsets,
                    arch,
                    comp_index_of(arch, components[k].component_type.id),
                    row,
                    b,
                ) == components[k].bytes@[b]
            &&& forall|pos: int|
                0 <= pos < PAGE_SIZE_BYTES && (forall|k: int|
                    0 <= k < components.len() ==> !crate::archetype_data_page::in_cell(
                        offsets,
                        arch,
                        comp_index_of(arch, (#[trigger] components[k]).component_type.id),
                        row,
                        pos,
                    )) ==> data[pos] == cur.archetypes_container.pages@[page].components_data@[pos]
        }),
    ensures
        ({
            let ts = spec_component_types_of(components);
            let id = entity.id as int;
            &&& post.spec_has_archetype(id)
            &&& crate::archetype::comps_equiv(
                post.spec_archetype_of(id).unwrap(),
                orig.spec_target_archetype(id, ts),
            )
            &&& forall|k: int|
                0 <= k < components.len() ==> post.spec_component_bytes(
                    id,
                    (#[trigger] components[k]).component_type.id,
                ) == components[k].bytes@
            &&& (orig.spec_has_archetype(id) && (forall|k: int|
                0 <= k < ts.len() ==> has_comp_id(
                    orig.spec_archetype_of(id).unwrap(),
                    (#[trigger] ts[k]).id,
                )) ==> post.spec_page_of(id) == orig.spec_page_of(id) && post.spec_row_of(id)
                == orig.spec_row_of(id) && post.spec_archetype_of(id) == orig.spec_archetype_of(
                id,
            ))
            &&& forall|i: int|
                0 <= i < orig.spec_capacity() && i != id && orig.entities_container.spec_alive(i)
                    ==> post.spec_has_archetype(i) == orig.spec_has_archetype(i) && (
                orig.spec_has_archetype(i) ==> post.spec_archetype_of(i)
                    == orig.spec_archetype_of(i))
            &&& (orig.spec_has_archetype(id) ==> forall|t: u64|
                has_comp_id(orig.spec_archetype_of(id).unwrap(), t) && !has_comp_id(ts, t)
                    ==> post.spec_component_bytes(id, t) == orig.spec_component_bytes(id, t))
            &&& forall|i: int, t: u64|
                0 <= i < orig.spec_capacity() && i != id && orig.entities_container.spec_alive(i)
                    && orig.spec_has_archetype(i) && has_comp_id(
                    orig.spec_archetype_of(i).unwrap(),
                    t,
                ) ==> post.spec_component_bytes(i, t) == orig.spec_component_bytes(i, t)
        }),
{
    let ts = spec_component_types_of(components);
    let id = entity.id as int;
    let a = cur.archetypes_container.spec_page_arch(page).unwrap() as int;
    let arch = cur.archetypes_container.archetypes@[a]@;
    let offsets = cur.archetypes_container.layouts@[a].offsets@;
    assert(post.spec_has_archetype(id));
    assert(post.spec_page_of(id) == page && post.spec_row_of(id) == row);
    assert(post.spec_arch_index_of(id) == a);
    assert(post.spec_archetype_of(id).unwrap() == arch);
    lemma_write_target_ok(cur, orig, entity, components, page, row);
    assert forall|k: int|
        0 <= k < components.len() implies post.spec_component_bytes(
        id,
        (#[trigger] components[k]).component_type.id,
    ) == components[k].bytes@ by {
        assert(has_comp_id(arch, components[k].component_type.id) && arch[comp_index_of(
            arch,
            components[k].component_type.id,
        )].size == components[k].bytes@.len());
        lemma_posted_bytes_one(orig, cur, post, entity, components, page, row, k);
    }
    if orig.spec_has_archetype(id) && (forall|k: int|
        0 <= k < ts.len() ==> has_comp_id(
            orig.spec_archetype_of(id).unwrap(),
            (#[trigger] ts[k]).id,
        )) {
        assert(cur == orig);
    }
    assert forall|i: int|
        0 <= i < orig.spec_capacity() && i != id && orig.entities_container.spec_alive(i)
            implies post.spec_has_archetype(i) == orig.spec_has_archetype(i) && (
    orig.spec_has_archetype(i) ==> post.spec_archetype_of(i) == orig.spec_archetype_of(i)) by {
        crate::bitvec_utils::lemma_bit_range(i, orig.spec_capacity());
        assert(cur.spec_has_archetype(i) == orig.spec_has_archetype(i));
        if orig.spec_has_archetype(i) {
            assert(cur.spec_archetype_of(i) == orig.spec_archetype_of(i));
            assert(post.spec_page_of(i) == cur.spec_page_of(i));
        }
    }
    // the entity's unwritten components keep their bytes
    if orig.spec_has_archetype(id) {
        assert forall|t: u64|
            has_comp_id(orig.spec_archetype_of(id).unwrap(), t) && !has_comp_id(ts, t)
                implies post.spec_component_bytes(id, t) == orig.spec_component_bytes(id, t) by {
            assert(a == cur.spec_arch_index_of(id));
            assert(has_comp_id(arch, t));
            assert(cur.spec_component_bytes(id, t) == orig.spec_component_bytes(id, t));
            crate::archetype::lemma_comp_index_of(arch, t);
            let kt = comp_index_of(arch, t);
            assert(arch[kt].id == t);
            assert(row < cur.archetypes_container.layouts@[a].entities_capacity) by {
                assert(cur.archetypes_container.pages@[page].wf());
                assert(cur.archetypes_container.pages@[page].capacity
                    == cur.archetypes_container.layouts@[a].entities_capacity);
            }
            assert forall|k: int|
                0 <= k < components.len() implies (#[trigger] components[k]).component_type.id
                != arch[kt].id by {
                if components[k].component_type.id == t {
                    assert(ts[k] == components[k].component_type);
                    assert(has_comp_id(ts, t));
                }
            }
            lemma_write_kept_cell(cur, post, components, page, row, kt, row);
            assert(post.spec_page_of(id) == page && post.spec_row_of(id) == row);
            assert(post.spec_arch_index_of(id) == a);
            assert(cur.spec_page_of(id) == page && cur.spec_row_of(id) == row);
            assert(cur.spec_arch_index_of(id) == a);
        }
    }
    // other seated entities keep their bytes
    assert forall|i: int, t: u64|
        0 <= i < orig.spec_capacity() && i != id && orig.entities_container.spec_alive(i)
            && orig.spec_has_archetype(i) && has_comp_id(orig.spec_archetype_of(i).unwrap(), t)
            implies post.spec_component_bytes(i, t) == orig.spec_component_bytes(i, t) by {
        crate::bitvec_utils::lemma_bit_range(i, orig.spec_capacity());
        assert(cur.spec_component_bytes(i, t) == orig.spec_component_bytes(i, t));
        assert(cur.spec_has_archetype(i) && cur.entities_container.spec_alive(i));
        assert(i < cur.spec_capacity());
        let pp = cur.spec_page_of(i);
        let rr = cur.spec_row_of(i);
        assert(0 <= pp < cur.archetypes_container.pages@.len());
        assert(cur.archetypes_container.pages@[pp].entities_ids@[rr] == i);
        assert(post.spec_page_of(i) == pp && post.spec_row_of(i) == rr);
        if pp != page {
            assert(post.archetypes_container.pages@[pp]
                == cur.archetypes_container.pages@[pp]);
        } else {
            assert(cur.spec_arch_index_of(i) == a);
            assert(cur.spec_archetype_of(i).unwrap() == arch);
            assert(has_comp_id(arch, t)) by {
                assert(cur.spec_archetype_of(i) == orig.spec_archetype_of(i));
            }
            crate::archetype::lemma_comp_index_of(arch, t);
            let kt = comp_index_of(arch, t);
            assert(rr != row) by {
                assert(cur.archetypes_container.pages@[page].entities_ids@[row] == entity.id);
            }
            assert(rr < cur.archetypes_container.layouts@[a].entities_capacity) by {
                assert(cur.archetypes_container.pages@[page].wf());
                assert(cur.archetypes_container.pages@[page].capacity
                    == cur.archetypes_container.layouts@[a].entities_capacity);
            }
            lemma_write_kept_cell(cur, post, components, page, row, kt, rr);
        }
    }
}


/// One written component reads back exactly as given.
#[verifier::rlimit(100)]
#[verifier::spinoff_prover]
proof fn lemma_posted_bytes_one(
    orig: Store,
    cur: Store,
    post: Store,
    entity: Entity,
    components: Seq<ComponentData>,
    page: int,
    row: int,
    k: int,
)
    requires
        orig.wf(),
        orig.spec_is_alive(entity),
        components.len() >= 1,
        forall|k: int|
            0 <= k < components.len() ==> (#[trigger] components[k]).bytes@.len() == components[
                k
            ].component_type.size,
        forall|k1: int, k2: int|
            0 <= k1 < k2 < components.len() ==> components[k1].component_type.id != components[
                k2
            ].component_type.id,
        orig.spec_has_archetype(entity.id as int) ==> (forall|k: int, j: int|
            0 <= k < components.len() && 0 <= j < orig.spec_archetype_of(
                entity.id as int,
            ).unwrap().len() && (#[trigger] orig.spec_archetype_of(entity.id as int).unwrap()[
                j
            ]).id == (#[trigger] components[k]).component_type.id ==> orig.spec_archetype_of(
                entity.id as int,
            ).unwrap()[j].size == components[k].component_type.size),
        write_ready(cur, orig, entity, components, page, row),
        // what the write changed: one page's bytes
        post.wf(),
        post.entities_container == cur.entities_container,
        post.tag_container == cur.tag_container,
        post.order_group_container == cur.order_group_container,
        post.entity_to_page@ == cur.entity_to_page@,
        post.entity_to_index_in_page@ == cur.entity_to_index_in_page@,
        post.entity_has_archetype_bit_vec@ == cur.entity_has_archetype_bit_vec@,
        post.archetypes_container.archetypes@ == cur.archetypes_container.archetypes@,
        post.archetypes_container.layouts@ == cur.archetypes_container.layouts@,
        post.archetypes_container.page_to_archetype@ == cur.archetypes_container.page_to_archetype@,
        post.archetypes_container.pages@.len() == cur.archetypes_container.pages@.len(),
        forall|q: int|
            0 <= q < cur.archetypes_container.pages@.len() && q != page ==> (
            #[trigger] post.archetypes_container.pages@[q]) == cur.archetypes_container.pages@[q],
        post.archetypes_container.pages@[page].entities_ids@ == cur.archetypes_container.pages@[page].entities_ids@,
        // the written cells and the untouched rest
        ({
            let a = cur.archetypes_container.spec_page_arch(page).unwrap() as int;
            let arch = cur.archetypes_container.archetypes@[a]@;
            let offsets = cur.archetypes_container.layouts@[a].offsets@;
            let data = post.archetypes_container.pages@[page].components_data@;
            &&& data.len() == PAGE_SIZE_BYTES
            &&& forall|k: int, b: int|
                0 <= k < components.len() && 0 <= b < components[k].bytes@.len()
                    ==> #[trigger] crate::archetype_data_page::cell_byte(
                    data,
                    offsets,
                    arch,
                    comp_index_of(arch, components[k].component_type.id),
                    row,
                    b,
                ) == components[k].bytes@[b]
        }),
        0 <= k < components.len(),
        // the slot's list holds the written id at the payload's size
        ({
            let a = cur.archetypes_container.spec_page_arch(page).unwrap() as int;
            let arch = cur.archetypes_container.archetypes@[a]@;
            has_comp_id(arch, components[k].component_type.id) && arch[comp_index_of(
                arch,
                components[k].component_type.id,
            )].size == components[k].bytes@.len()
        }),
    ensures
        post.spec_component_bytes(entity.id as int, components[k].component_type.id)
            == components[k].bytes@,
{
    let id = entity.id as int;
    let a = cur.archetypes_container.spec_page_arch(page).unwrap() as int;
    let arch = cur.archetypes_container.archetypes@[a]@;
    let offsets = cur.archetypes_container.layouts@[a].offsets@;
    assert(post.spec_page_of(id) == page && post.spec_row_of(id) == row);
    assert(post.spec_arch_index_of(id) == a);
    let tid = components[k].component_type.id;
    let ci = comp_index_of(arch, tid);
    let start = crate::archetype_data_page::cell_start(offsets, arch, ci, row);
    let data = post.archetypes_container.pages@[page].components_data@;
    crate::archetype::lemma_comp_index_of(arch, tid);
    crate::archetype_data_page::lemma_cell_bounds(
        arch,
        cur.archetypes_container.layouts@[a],
        ci,
        row,
    );
    assert(row < cur.archetypes_container.layouts@[a].entities_capacity) by {
        assert(cur.archetypes_container.pages@[page].capacity
            == cur.archetypes_container.layouts@[a].entities_capacity);
        assert(cur.archetypes_container.pages@[page].wf());
    }
    assert forall|b: int|
        0 <= b < components[k].bytes@.len() implies data[start + b] == components[
        k
    ].bytes@[b] by {
        assert(crate::archetype_data_page::cell_byte(data, offsets, arch, ci, row, b)
            == components[k].bytes@[b]);
    }
    assert(arch[ci].size == components[k].bytes@.len());
    assert(post.spec_component_bytes(id, tid) =~= components[k].bytes@);
}
} // verus!

verus! {

impl Store {
    /// Removes the given component types from the entity.  A dead handle
    /// or one without a row is a no-op, as is removing types the entity
    /// does not carry.  Removing every component leaves the entity alive
    /// with no archetype; otherwise the entity migrates to the shrunken
    /// archetype, its remaining columns copied.
    #[verifier::loop_isolation(false)]
    #[verifier::rlimit(100)]
    #[verifier::spinoff_prover]
    pub fn remove_components(&mut self, entity: Entity, component_types: &[ComponentType])
        requires
            old(self).wf(),
            old(self).spec_valid_with_archetype(entity) ==> ({
                let remaining = crate::archetype_builder::exclude_all(
                    old(self).spec_archetype_of(entity.id as int).unwrap(),
                    crate::archetype::comp_ids(component_types@),
                );
                remaining.len() > 0 && remaining.len() < old(self).spec_archetype_of(
                    entity.id as int,
                ).unwrap().len() ==> crate::archetype_layout::layout_fits(remaining)
            }),
            old(self).archetypes_container.pages@.len() < PAGE_COUNT_LIMIT,
        ensures
            final(self).wf(),
            !old(self).spec_valid_with_archetype(entity) ==> *final(self) == *old(self),
            final(self).entities_container == old(self).entities_container,
            final(self).tag_container == old(self).tag_container,
            final(self).order_group_container == old(self).order_group_container,
            final(self).archetypes_container.pages@.len() <= old(self).archetypes_container.pages@.len() + 1,
            old(self).spec_valid_with_archetype(entity) ==> ({
                let remaining = crate::archetype_builder::exclude_all(
                    old(self).spec_archetype_of(entity.id as int).unwrap(),
                    crate::archetype::comp_ids(component_types@),
                );
                let id = entity.id as int;
                &&& (remaining.len() == 0 ==> !final(self).spec_has_archetype(id))
                &&& (remaining.len() > 0 ==> final(self).spec_has_archetype(id)
                    && crate::archetype::comps_equiv(
                    final(self).spec_archetype_of(id).unwrap(),
                    remaining,
                ))
                &&& forall|i: int|
                    0 <= i < old(self).spec_capacity() && i != id && old(self).entities_container.spec_alive(i) ==> final(self).spec_has_archetype(i)
                        == old(self).spec_has_archetype(i) && (old(self).spec_has_archetype(i)
                        ==> final(self).spec_archetype_of(i) == old(self).spec_archetype_of(i))
                // the remaining components keep their bytes
                &&& (remaining.len() > 0 ==> forall|t: u64|
                    #[trigger] has_comp_id(remaining, t) ==> final(self).spec_component_bytes(
                        id,
                        t,
                    ) == old(self).spec_component_bytes(id, t))
                // no other seated entity's bytes change
                &&& forall|i: int, t: u64|
                    0 <= i < old(self).spec_capacity() && i != id && old(self).entities_container.spec_alive(i) && old(self).spec_has_archetype(i) && has_comp_id(
                        old(self).spec_archetype_of(i).unwrap(),
                        t,
                    ) ==> final(self).spec_component_bytes(i, t) == old(self).spec_component_bytes(i, t)
            }),
    {
        if !self.is_valid_entity_with_archetype(entity) {
            return ;
        }
        let id = entity.id;
        proof {
            bitvec_utils::lemma_bit_range(id as int, self.spec_capacity());
            assert(old(self).entities_container.spec_alive(id as int));
            assert(old(self).spec_has_archetype(id as int));
        }
        let prev_loc = EntityInArchetype {
            page_index: self.entity_to_page[id as usize],
            index_in_page: self.entity_to_index_in_page[id as usize],
        };
        let prev_p = prev_loc.page_index as usize;
        let prev_a = self.archetypes_container.page_to_archetype[prev_p].unwrap();
        let ghost old_arch = old(self).spec_archetype_of(id as int).unwrap();
        let ghost rem_ids = crate::archetype::comp_ids(component_types@);
        let ghost remaining = crate::archetype_builder::exclude_all(old_arch, rem_ids);

        let n_ids = component_types.len();
        let mut removed_ids: Vec<u64> = Vec::new();
        let mut k: usize = 0;
        while k < n_ids
            invariant
                0 <= k <= n_ids,
                removed_ids@.len() == k,
                forall|i: int| 0 <= i < k ==> removed_ids@[i] == (#[trigger] component_types@[i]).id,
            decreases n_ids - k,
        {
            removed_ids.push(component_types[k].id());
            k = k + 1;
        }
        proof {
            assert(removed_ids@ =~= rem_ids);
        }

        if self.archetypes_container.archetypes[prev_a].is_exclude_ids(removed_ids.as_slice()) {
            // nothing to remove: the archetype stays as it is
            proof {
                assert forall|j: int|
                    0 <= j < rem_ids.len() implies !has_comp_id(old_arch, #[trigger] rem_ids[j]) by {
                    assert(!old(self).archetypes_container.archetypes@[prev_a as int].has_id(
                        removed_ids@[j],
                    ));
                }
                crate::archetype_builder::lemma_exclude_absent(old_arch, rem_ids);
                assert(remaining == old_arch);
                assert(crate::archetype::comps_equiv(old_arch, old_arch));
            }
            return ;
        }
        proof {
            let bad = choose|j: int|
                0 <= j < removed_ids@.len() && old(self).archetypes_container.archetypes@[
                    prev_a as int
                ].has_id(#[trigger] removed_ids@[j]);
            assert(has_comp_id(old_arch, rem_ids[bad]));
            crate::archetype_builder::lemma_exclude_all_len(old_arch, rem_ids);
            assert(remaining.len() < old_arch.len());
            crate::archetype_builder::lemma_exclude_preserves_sorted(old_arch, rem_ids);
            crate::archetype_builder::lemma_exclude_all_props(old_arch, rem_ids);
        }

        let new_arch = {
            let prev_archetype = &self.archetypes_container.archetypes[prev_a];
            ArchetypeBuilder::new().include_archetype(prev_archetype).exclude_component_types(
                component_types,
            ).build()
        };
        proof {
            crate::archetype_builder::lemma_include_all_disjoint(
                Seq::<ComponentType>::empty(),
                old_arch,
            );
            assert(crate::archetype_builder::include_all(
                Seq::<ComponentType>::empty(),
                old_arch,
            ) =~= old_arch);
            crate::archetype_builder::lemma_sort_by_id_spec_props(remaining);
            crate::archetype_builder::lemma_sorted_unique(
                crate::archetype_builder::sort_by_id_spec(remaining),
                remaining,
            );
            assert(new_arch@ == remaining);
        }

        if new_arch.component_count() == 0 {
            // the entity keeps no component: vacate its row
            let ghost pre = *self;
            proof {
                assert(0 <= pre.spec_page_of(id as int)
                    < pre.archetypes_container.pages@.len());
                assert(pre.archetypes_container.spec_page_arch(pre.spec_page_of(id as int))
                    is Some);
                assert(0 <= pre.spec_row_of(id as int) < pre.archetypes_container.pages@[
                    pre.spec_page_of(id as int)
                ].entities_ids@.len());
            }
            let swap = self.archetypes_container.swap_remove_entity(prev_loc);
            match swap {
                Some(info) => {
                    proof {
                        let old_ids = pre.archetypes_container.pages@[
                            prev_p as int
                        ].entities_ids@;
                        assert(info.id_to_replace == old_ids.last());
                        assert((info.id_to_replace as int) < self.spec_capacity()) by {
                            assert(old_ids[old_ids.len() - 1] == old_ids.last());
                        }
                    }
                    self.entity_to_index_in_page.set(
                        info.id_to_replace as usize,
                        prev_loc.index_in_page,
                    );
                },
                None => {},
            }
            bitvec_utils::set_bit_off(&mut self.entity_has_archetype_bit_vec, id as usize);
            proof {
                assert(pre == *old(self));
                lemma_store_wf_after_unseat(pre, *self, id as int, prev_loc, swap);
                lemma_unseat_bytes(*old(self), *self, id as int, prev_loc, swap);
                let old_ids = pre.archetypes_container.pages@[prev_p as int].entities_ids@;
                assert forall|i: int|
                    0 <= i < old(self).spec_capacity() && i != id && old(self).entities_container.spec_alive(i) implies self.spec_has_archetype(i)
                    == old(self).spec_has_archetype(i) && (old(self).spec_has_archetype(i)
                    ==> self.spec_archetype_of(i) == old(self).spec_archetype_of(i)) by {
                    bitvec_utils::lemma_bit_range(i, old(self).spec_capacity());
                    if old(self).spec_has_archetype(i) {
                        let pp = old(self).spec_page_of(i);
                        assert(self.spec_page_of(i) == pp);
                        if pp == prev_p as int {
                            assert(self.archetypes_container.pages@[
                                prev_p as int
                            ].entities_ids@.len() > 0) by {
                                assert(old(self).spec_row_of(i) < old_ids.len());
                                assert(old_ids[old(self).spec_row_of(i)] == i);
                                assert(old_ids[prev_loc.index_in_page as int] == id);
                                if swap is None {
                                    assert(prev_loc.index_in_page + 1 == old_ids.len());
                                }
                            }
                            assert(self.archetypes_container.spec_page_arch(pp)
                                == old(self).archetypes_container.spec_page_arch(pp));
                        } else {
                            assert(self.archetypes_container.pages@[pp]
                                == old(self).archetypes_container.pages@[pp]);
                            assert(self.archetypes_container.page_to_archetype@[pp]
                                == old(self).archetypes_container.page_to_archetype@[pp]);
                        }
                        assert(self.archetypes_container.archetypes@
                            == old(self).archetypes_container.archetypes@);
                    }
                }
            }
        } else {
            proof {
                // a strictly smaller id set cannot be the same list
                assert(!crate::archetype::comps_equiv(old_arch, new_arch@));
                // shrunken entries come from the old archetype, so sizes
                // agree
                assert forall|i: int, j: int|
                    0 <= i < old_arch.len() && 0 <= j < new_arch@.len() && (
                    #[trigger] old_arch[i]).id == (#[trigger] new_arch@[j]).id
                        implies old_arch[i].size == new_arch@[j].size by {
                    assert(new_arch@.contains(new_arch@[j]));
                    assert(remaining.contains(new_arch@[j]));
                    assert(old_arch.contains(new_arch@[j]));
                    let m = choose|m: int|
                        0 <= m < old_arch.len() && old_arch[m] == new_arch@[j];
                    assert(m == i) by {
                        if m != i {
                            assert(old_arch[m].id != old_arch[i].id);
                        }
                    }
                }
            }
            let ghost pre = *self;
            let new_loc = self.archetypes_container.move_entity_to_other_archetype(
                id,
                prev_loc,
                prev_a,
                &new_arch,
            );
            self.entity_to_page.set(id as usize, new_loc.page_index);
            self.entity_to_index_in_page.set(id as usize, new_loc.index_in_page);
            let ghost mid = *self;
            proof {
                assert(mid.archetypes_container.pages@[prev_p as int]
                    == pre.archetypes_container.pages@[prev_p as int]);
                assert(mid.archetypes_container.page_to_archetype@[prev_p as int]
                    == pre.archetypes_container.page_to_archetype@[prev_p as int]);
                assert((prev_loc.index_in_page as int) < mid.archetypes_container.pages@[
                    prev_p as int
                ].entities_ids@.len());
            }
            let swap = self.archetypes_container.swap_remove_entity(prev_loc);
            match swap {
                Some(info) => {
                    proof {
                        let old_ids = pre.archetypes_container.pages@[
                            prev_p as int
                        ].entities_ids@;
                        assert(info.id_to_replace == old_ids.last());
                        assert((info.id_to_replace as int) < self.spec_capacity()) by {
                            assert(old_ids[old_ids.len() - 1] == old_ids.last());
                        }
                    }
                    self.entity_to_index_in_page.set(
                        info.id_to_replace as usize,
                        prev_loc.index_in_page,
                    );
                },
                None => {},
            }
            proof {
                lemma_store_wf_after_migrate(
                    pre,
                    mid,
                    *self,
                    id as int,
                    prev_loc,
                    new_loc,
                    swap,
                );
                assert(self.spec_arch_index_of(id as int) == mid.spec_arch_index_of(id as int));
                assert(crate::archetype::comps_equiv(
                    self.archetypes_container.archetypes@[self.spec_arch_index_of(id as int)]@,
                    new_arch@,
                ));
                // the migration carried every remaining byte along
                assert(pre == *old(self));
                let dst_a_g = mid.archetypes_container.spec_page_arch(
                    new_loc.page_index as int,
                ).unwrap() as int;
                let dst_arch = mid.archetypes_container.archetypes@[dst_a_g]@;
                assert(pre.spec_arch_index_of(id as int) == prev_a as int);
                assert(pre.archetypes_container.archetypes@[prev_a as int]@ == old_arch);
                assert(crate::archetype::comps_equiv(dst_arch, new_arch@));
                assert forall|i2: int, j: int|
                    0 <= i2 < old_arch.len() && 0 <= j < dst_arch.len() && (
                #[trigger] old_arch[i2]).id == (#[trigger] dst_arch[j]).id
                    implies old_arch[i2].size == dst_arch[j].size by {
                    assert(dst_arch[j].id == new_arch@[j].id && dst_arch[j].size
                        == new_arch@[j].size);
                }
                lemma_migrate_bytes(pre, mid, *self, id as int, prev_loc, new_loc, swap);
                assert forall|t: u64|
                    has_comp_id(remaining, t) implies self.spec_component_bytes(id as int, t)
                    == old(self).spec_component_bytes(id as int, t) by {
                    let j = choose|j: int| 0 <= j < remaining.len() && remaining[j].id == t;
                    assert(remaining.contains(remaining[j]));
                    assert(old_arch.contains(remaining[j]));
                    assert(has_comp_id(old_arch, t)) by {
                        let m = choose|m: int|
                            0 <= m < old_arch.len() && old_arch[m] == remaining[j];
                        assert(old_arch[m].id == t);
                    }
                    assert(has_comp_id(dst_arch, t)) by {
                        let j2 = choose|j2: int|
                            0 <= j2 < new_arch@.len() && new_arch@[j2].id == t;
                        assert(dst_arch[j2].id == t);
                    }
                }
            }
        }
    }
}

} // verus!
