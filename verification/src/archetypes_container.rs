use vstd::prelude::*;

use crate::archetype::{comps_equiv, Archetype, ArchetypesUnion};
use crate::archetype_data_page::{ArchetypeDataPage, SwapRemoveInfo, PAGE_SIZE_BYTES};
use crate::archetype_layout::{layout_fits, layout_wf, ArchetypeLayout};

verus! {

/// How many pages a fresh container pre-allocates.
pub const ARCHETYPE_PAGE_DEFAULT_CAPACITY: usize = 5;

/// The most pages a container will manage (so page indices fit in `u32`).
pub const PAGE_COUNT_LIMIT: usize = 0x1000_0000;

/// The pages currently bound to one archetype slot.
pub struct ArchetypePages {
    pub pages: Vec<usize>,
}

/// Where an entity's row lives: which page, and which row of that page.
#[derive(PartialEq, Eq, Structural, Debug, Copy, Clone)]
pub struct EntityInArchetype {
    pub page_index: u32,
    pub index_in_page: u32,
}

/// The pool of archetypes and data pages: parallel vectors of archetype,
/// layout and page list per archetype slot; the pages themselves with a
/// back-map from page to archetype slot; and free lists of unused slots
/// and pages.
pub struct ArchetypesContainer {
    pub archetypes: Vec<Archetype>,
    pub layouts: Vec<ArchetypeLayout>,
    pub archetype_to_pages: Vec<ArchetypePages>,
    pub pages: Vec<ArchetypeDataPage>,
    pub page_to_archetype: Vec<Option<usize>>,
    pub free_archetypes: Vec<usize>,
    pub free_pages: Vec<usize>,
}

/// Whether every archetype slot that had pages keeps its archetype and
/// layout values from `pre` to `post`.
pub open spec fn busy_slots_unchanged(pre: ArchetypesContainer, post: ArchetypesContainer) -> bool {
    forall|b: int|
        0 <= b < pre.archetypes@.len() && pre.archetype_to_pages@[b].pages@.len() > 0 ==> (
        #[trigger] post.archetypes@[b]) == pre.archetypes@[b] && post.layouts@[b]
            == pre.layouts@[b]
}

impl ArchetypesContainer {
    /// The archetype slot a page is bound to (`None` for free pages).
    pub open spec fn spec_page_arch(self, p: int) -> Option<usize> {
        self.page_to_archetype@[p]
    }

    /// The container's invariant.
    pub open spec fn wf(self) -> bool {
        &&& self.layouts@.len() == self.archetypes@.len()
        &&& self.archetype_to_pages@.len() == self.archetypes@.len()
        &&& self.page_to_archetype@.len() == self.pages@.len()
        &&& self.pages@.len() <= PAGE_COUNT_LIMIT
        &&& forall|p: int|
            0 <= p < self.pages@.len() ==> (#[trigger] self.pages@[p]).wf()
        &&& forall|p: int|
            0 <= p < self.pages@.len() ==> ((#[trigger] self.page_to_archetype@[p]) matches Some(
                a,
            ) ==> 0 <= a < self.archetypes@.len() && self.pages@[p].capacity == self.layouts@[
                a as int
            ].entities_capacity && self.archetype_to_pages@[a as int].pages@.contains(p as usize))
        &&& forall|p: int|
            0 <= p < self.pages@.len() && self.page_to_archetype@[p] is None ==> (
            #[trigger] self.pages@[p]).entities_ids@.len() == 0 && self.free_pages@.contains(
                p as usize,
            )
        &&& forall|a: int|
            0 <= a < self.archetypes@.len() ==> (#[trigger] self.archetypes@[a]).wf()
                && self.archetypes@[a]@.len() >= 1 && layout_wf(
                self.archetypes@[a]@,
                self.layouts@[a],
            )
        &&& forall|a: int, i: int|
            0 <= a < self.archetypes@.len() && 0 <= i
                < self.archetype_to_pages@[a].pages@.len() ==> (
            #[trigger] self.archetype_to_pages@[a].pages@[i]) < self.pages@.len()
                && self.page_to_archetype@[self.archetype_to_pages@[a].pages@[i] as int] == Some(
                a as usize,
            )
        &&& forall|a: int, i: int, j: int|
            0 <= a < self.archetypes@.len() && 0 <= i < j
                < self.archetype_to_pages@[a].pages@.len()
                ==> self.archetype_to_pages@[a].pages@[i] != self.archetype_to_pages@[a].pages@[j]
        &&& forall|i: int|
            0 <= i < self.free_pages@.len() ==> (#[trigger] self.free_pages@[i])
                < self.pages@.len() && self.page_to_archetype@[self.free_pages@[i] as int] is None
        &&& forall|i: int, j: int|
            0 <= i < j < self.free_pages@.len() ==> self.free_pages@[i] != self.free_pages@[j]
        &&& forall|i: int|
            0 <= i < self.free_archetypes@.len() ==> (#[trigger] self.free_archetypes@[i])
                < self.archetypes@.len() && self.archetype_to_pages@[self.free_archetypes@[
                i
            ] as int].pages@.len() == 0
        &&& forall|i: int, j: int|
            0 <= i < j < self.free_archetypes@.len() ==> self.free_archetypes@[i]
                != self.free_archetypes@[j]
    }

    /// A fresh container: no archetypes, a pool of empty free pages.
    pub fn new() -> (r: ArchetypesContainer)
        ensures
            r.wf(),
            r.archetypes@.len() == 0,
            forall|p: int| 0 <= p < r.pages@.len() ==> r.spec_page_arch(p) is None,
            r.pages@.len() == ARCHETYPE_PAGE_DEFAULT_CAPACITY,
    {
        let mut pages: Vec<ArchetypeDataPage> = Vec::new();
        let mut page_to_archetype: Vec<Option<usize>> = Vec::new();
        let mut free_pages: Vec<usize> = Vec::new();
        let mut i: usize = 0;
        while i < ARCHETYPE_PAGE_DEFAULT_CAPACITY
            invariant
                0 <= i <= ARCHETYPE_PAGE_DEFAULT_CAPACITY,
                pages@.len() == i,
                page_to_archetype@.len() == i,
                free_pages@.len() == i,
                forall|p: int|
                    0 <= p < i ==> (#[trigger] pages@[p]).wf() && pages@[p].entities_ids@.len()
                        == 0 && pages@[p].capacity == 0,
                forall|p: int| 0 <= p < i ==> (#[trigger] page_to_archetype@[p]) is None,
                forall|p: int| 0 <= p < i ==> (#[trigger] free_pages@[p]) == p,
            decreases ARCHETYPE_PAGE_DEFAULT_CAPACITY - i,
        {
            pages.push(ArchetypeDataPage::new());
            page_to_archetype.push(None);
            free_pages.push(i);
            i = i + 1;
        }
        let r = ArchetypesContainer {
            archetypes: Vec::new(),
            layouts: Vec::new(),
            archetype_to_pages: Vec::new(),
            pages,
            page_to_archetype,
            free_archetypes: Vec::new(),
            free_pages,
        };
        proof {
            assert forall|p: int|
                0 <= p < r.pages@.len() && r.page_to_archetype@[p] is None implies (
            #[trigger] r.pages@[p]).entities_ids@.len() == 0 && r.free_pages@.contains(
                p as usize,
            ) by {
                assert(r.free_pages@[p] == p as usize);
            }
        }
        r
    }

    /// Finds the slot of an archetype with this canonical component list,
    /// or claims one (reusing a freed slot if possible) and computes its
    /// layout.
    pub fn reserve_archetype(&mut self, archetype: &Archetype) -> (a: usize)
        requires
            old(self).wf(),
            archetype.wf(),
            archetype@.len() >= 1,
            layout_fits(archetype@),
        ensures
            final(self).wf(),
            a < final(self).archetypes@.len(),
            comps_equiv(final(self).archetypes@[a as int]@, archetype@),
            final(self).archetypes@[a as int].wf(),
            layout_wf(final(self).archetypes@[a as int]@, final(self).layouts@[a as int]),
            final(self).pages@ == old(self).pages@,
            final(self).page_to_archetype@ == old(self).page_to_archetype@,
            final(self).archetypes@.len() >= old(self).archetypes@.len(),
            final(self).layouts@.len() == final(self).archetypes@.len(),
            forall|b: int|
                0 <= b < old(self).archetypes@.len() ==> (
                #[trigger] final(self).archetype_to_pages@[b]).pages@ == old(self).archetype_to_pages@[b].pages@,
            a >= old(self).archetypes@.len() ==> final(self).archetype_to_pages@[a as int].pages@
                =~= Seq::<usize>::empty(),
            forall|b: int|
                0 <= b < old(self).archetypes@.len() && b != a ==> (
                #[trigger] final(self).archetypes@[b]) == old(self).archetypes@[b] && final(self).layouts@[b] == old(self).layouts@[b],
            !final(self).free_archetypes@.contains(a),
            (a < old(self).archetypes@.len() && !old(self).free_archetypes@.contains(a))
                ==> final(self).archetypes@ == old(self).archetypes@ && final(self).layouts@
                == old(self).layouts@,
            forall|b: int|
                0 <= b < old(self).archetypes@.len() && !old(self).free_archetypes@.contains(
                    b as usize,
                ) ==> (#[trigger] final(self).archetypes@[b]) == old(self).archetypes@[b]
                    && final(self).layouts@[b] == old(self).layouts@[b],
            forall|b: int|
                0 <= b < old(self).archetypes@.len() && old(self).archetype_to_pages@[b].pages@.len()
                    > 0 ==> (#[trigger] final(self).archetypes@[b]) == old(self).archetypes@[b]
                    && final(self).layouts@[b] == old(self).layouts@[b],
            // an equal slot, busy or free, is reused: no duplicate is made
            (exists|b: int|
                0 <= b < old(self).archetypes@.len() && comps_equiv(
                    (#[trigger] old(self).archetypes@[b])@,
                    archetype@,
                )) ==> (a as int) < old(self).archetypes@.len() && final(self).archetypes@
                == old(self).archetypes@ && comps_equiv(old(self).archetypes@[a as int]@, archetype@),
    {
        let n = self.archetypes.len();
        let mut i: usize = 0;
        while i < n
            invariant
                n == self.archetypes@.len(),
                0 <= i <= n,
                self.wf(),
                *self == *old(self),
                forall|b: int|
                    0 <= b < i ==> !comps_equiv((#[trigger] old(self).archetypes@[b])@, archetype@),
            decreases n - i,
        {
            if components_match(&self.archetypes[i], archetype) {
                self.remove_free_archetype(i);
                proof {
                    assert forall|b: int|
                        0 <= b < old(self).archetypes@.len()
                            && !old(self).free_archetypes@.contains(b as usize) implies (
                    #[trigger] self.archetypes@[b]) == old(self).archetypes@[b]
                        && self.layouts@[b] == old(self).layouts@[b] by {}
                }
                return i;
            }
            i = i + 1;
        }

        let layout = crate::archetype_layout::ArchetypeLayout::new(archetype);
        let cloned = archetype.clone();
        match self.free_archetypes.pop() {
            Some(free_idx) => {
                let ghost pre_free = old(self).free_archetypes@;
                self.archetypes.set(free_idx, cloned);
                self.layouts.set(free_idx, layout);
                proof {
                    assert(free_idx == pre_free.last());
                    assert(old(self).free_archetypes@.contains(free_idx)) by {
                        assert(pre_free[pre_free.len() - 1] == free_idx);
                    }
                    assert forall|i: int|
                        0 <= i < self.free_archetypes@.len() implies (
                    #[trigger] self.free_archetypes@[i]) != free_idx by {
                        assert(pre_free[i] != pre_free[pre_free.len() - 1]);
                    }
                    assert forall|b: int|
                        0 <= b < old(self).archetypes@.len()
                            && !old(self).free_archetypes@.contains(b as usize) implies (
                    #[trigger] self.archetypes@[b]) == old(self).archetypes@[b]
                        && self.layouts@[b] == old(self).layouts@[b] by {
                        assert(b != free_idx);
                    }
                    assert forall|b: int|
                        0 <= b < old(self).archetypes@.len()
                            && old(self).archetype_to_pages@[b].pages@.len() > 0 implies (
                    #[trigger] self.archetypes@[b]) == old(self).archetypes@[b]
                        && self.layouts@[b] == old(self).layouts@[b] by {
                        assert(b != free_idx) by {
                            if b == free_idx {
                                assert(old(self).archetype_to_pages@[free_idx as int].pages@.len()
                                    == 0);
                            }
                        }
                    }
                }
                free_idx
            },
            None => {
                self.archetypes.push(cloned);
                self.layouts.push(layout);
                self.archetype_to_pages.push(ArchetypePages { pages: Vec::new() });
                proof {
                    let a = self.archetypes@.len() - 1;
                    assert forall|i: int|
                        0 <= i < self.free_archetypes@.len() implies (
                    #[trigger] self.free_archetypes@[i]) != a by {}
                    assert forall|b: int|
                        0 <= b < old(self).archetypes@.len()
                            && !old(self).free_archetypes@.contains(b as usize) implies (
                    #[trigger] self.archetypes@[b]) == old(self).archetypes@[b]
                        && self.layouts@[b] == old(self).layouts@[b] by {}
                }
                self.archetypes.len() - 1
            },
        }
    }

    /// Puts the entity's id in a row of a page of archetype slot
    /// `archetype_index`: the youngest bound page with room, else a page
    /// claimed from the free pool or freshly allocated.
    pub fn reserve_page(&mut self, entity_id: u32, archetype_index: usize) -> (r: EntityInArchetype)
        requires
            old(self).wf(),
            archetype_index < old(self).archetypes@.len(),
            !old(self).free_archetypes@.contains(archetype_index),
            old(self).pages@.len() < PAGE_COUNT_LIMIT,
        ensures
            final(self).wf(),
            final(self).archetypes@ == old(self).archetypes@,
            final(self).layouts@ == old(self).layouts@,
            final(self).pages@.len() >= old(self).pages@.len(),
            final(self).pages@.len() <= old(self).pages@.len() + 1,
            final(self).pages@.len() > old(self).pages@.len() ==> r.page_index as int == old(
                self,
            ).pages@.len(),
            r.page_index < final(self).pages@.len(),
            final(self).spec_page_arch(r.page_index as int) == Some(archetype_index),
            r.index_in_page as int == (if r.page_index < old(self).pages@.len() {
                old(self).pages@[r.page_index as int].entities_ids@.len() as int
            } else {
                0
            }),
            final(self).pages@[r.page_index as int].entities_ids@ == (if r.page_index < old(self).pages@.len() {
                old(self).pages@[r.page_index as int].entities_ids@
            } else {
                Seq::<u32>::empty()
            }).push(entity_id),
            r.page_index < old(self).pages@.len() ==> final(self).pages@[r.page_index as int].components_data@
                == old(self).pages@[r.page_index as int].components_data@,
            r.page_index < old(self).pages@.len() ==> old(self).spec_page_arch(
                r.page_index as int,
            ) is None || old(self).spec_page_arch(r.page_index as int) == Some(archetype_index),
            forall|q: int|
                0 <= q < old(self).pages@.len() && q != r.page_index ==> (
                #[trigger] final(self).pages@[q]) == old(self).pages@[q]
                    && final(self).page_to_archetype@[q] == old(self).page_to_archetype@[q],
            forall|b: int|
                0 <= b < old(self).archetypes@.len() && b != archetype_index ==> (
                #[trigger] final(self).archetype_to_pages@[b]).pages@ == old(self).archetype_to_pages@[b].pages@,
    {
        let pages_count = self.archetype_to_pages[archetype_index].pages.len();
        let mut it: usize = pages_count;
        while it > 0
            invariant
                old(self).wf(),
                *self == *old(self),
                archetype_index < self.archetypes@.len(),
                pages_count == self.archetype_to_pages@[archetype_index as int].pages@.len(),
                0 <= it <= pages_count,
            decreases it,
        {
            let page_index = self.archetype_to_pages[archetype_index].pages[it - 1];
            proof {
                assert(self.archetype_to_pages@[archetype_index as int].pages@[it - 1]
                    < self.pages@.len());
            }
            if self.pages[page_index].has_free_space() {
                let page = &mut self.pages[page_index];
                let row = page.add_entity_id(entity_id);
                proof {
                    assert forall|q: int|
                        0 <= q < self.pages@.len() implies (#[trigger] self.pages@[q]).wf() by {
                        if q != page_index {
                            assert(old(self).pages@[q].wf());
                        }
                    }
                    assert forall|q: int|
                        0 <= q < self.pages@.len() && self.page_to_archetype@[q] is None implies (
                    #[trigger] self.pages@[q]).entities_ids@.len() == 0
                        && self.free_pages@.contains(q as usize) by {
                        assert(q != page_index);
                        assert(old(self).pages@[q].entities_ids@.len() == 0);
                    }
                    assert(self.spec_page_arch(page_index as int) == Some(archetype_index));
                    assert(row < old(self).pages@[page_index as int].capacity);
                    assert(old(self).pages@[page_index as int].capacity <= PAGE_SIZE_BYTES) by {
                        let a = archetype_index as int;
                        assert(layout_wf(self.archetypes@[a]@, self.layouts@[a]));
                        let arch = self.archetypes@[a]@;
                        let cap = self.layouts@[a].entities_capacity;
                        assert(self.layouts@[a].offsets@[0] + arch[0].size * cap
                            <= PAGE_SIZE_BYTES) by {
                            crate::archetype_data_page::lemma_column_within_page(
                                arch,
                                self.layouts@[a],
                                0,
                            );
                        }
                        assert(arch[0].size * cap >= cap) by (nonlinear_arith)
                            requires
                                arch[0].size >= 1,
                                cap >= 0,
                        ;
                    }
                }
                return EntityInArchetype {
                    page_index: page_index as u32,
                    index_in_page: row as u32,
                };
            }
            it = it - 1;
        }

        let page_index: usize;
        match self.free_pages.pop() {
            Some(pi) => {
                page_index = pi;
                proof {
                    let pre_free = old(self).free_pages@;
                    assert(pre_free.contains(pre_free.last())) by {
                        assert(pre_free[pre_free.len() - 1] == pre_free.last());
                    }
                    assert forall|i: int|
                        0 <= i < self.free_pages@.len() implies (#[trigger] self.free_pages@[i])
                        != page_index by {
                        assert(pre_free[i] != pre_free[pre_free.len() - 1]);
                    }
                    assert forall|q: int|
                        0 <= q < self.pages@.len() && self.page_to_archetype@[q] is None && q
                            != page_index implies exists|i: int|
                        0 <= i < self.free_pages@.len() && self.free_pages@[i] == q by {
                        assert(0 <= q < old(self).pages@.len());
                        assert(old(self).page_to_archetype@[q] is None);
                        assert(old(self).pages@[q].entities_ids@.len() == 0);
                        assert(old(self).free_pages@.contains(q as usize));
                        let i = choose|i: int| 0 <= i < pre_free.len() && pre_free[i] == q;
                        assert(i < pre_free.len() - 1) by {
                            assert(pre_free[pre_free.len() - 1] == page_index as usize);
                        }
                        assert(self.free_pages@[i] == q);
                    }
                }
            },
            None => {
                page_index = self.pages.len();
                self.pages.push(ArchetypeDataPage::new());
                self.page_to_archetype.push(None);
                proof {
                    assert forall|i: int|
                        0 <= i < self.free_pages@.len() implies (#[trigger] self.free_pages@[i])
                        != page_index by {}
                    assert forall|q: int|
                        0 <= q < self.pages@.len() && self.page_to_archetype@[q] is None && q
                            != page_index implies exists|i: int|
                        0 <= i < self.free_pages@.len() && self.free_pages@[i] == q by {
                        assert(0 <= q < old(self).pages@.len());
                        assert(old(self).page_to_archetype@[q] is None);
                        assert(old(self).pages@[q].entities_ids@.len() == 0);
                        assert(old(self).free_pages@.contains(q as usize));
                        let i = choose|i: int|
                            0 <= i < old(self).free_pages@.len() && old(self).free_pages@[i] == q;
                        assert(self.free_pages@[i] == q);
                    }
                }
            },
        }

        let ghost mid = *self;
        proof {
            assert(layout_wf(
                self.archetypes@[archetype_index as int]@,
                self.layouts@[archetype_index as int],
            ));
            assert(self.layouts@[archetype_index as int].entities_capacity >= 1);
        }
        let layout = &self.layouts[archetype_index];
        let page = &mut self.pages[page_index];
        page.set_layout(layout);
        let row = page.add_entity_id(entity_id);
        let lst = &mut self.archetype_to_pages[archetype_index];
        lst.pages.push(page_index);
        self.page_to_archetype.set(page_index, Some(archetype_index));

        proof {
            lemma_page_bound_wf(*old(self), mid, *self, page_index, archetype_index);
            assert(row < self.pages@[page_index as int].capacity);
            assert(self.pages@[page_index as int].capacity <= PAGE_SIZE_BYTES) by {
                let a = archetype_index as int;
                let arch = self.archetypes@[a]@;
                let cap = self.layouts@[a].entities_capacity;
                crate::archetype_data_page::lemma_column_within_page(arch, self.layouts@[a], 0);
                assert(arch[0].size * cap >= cap) by (nonlinear_arith)
                    requires
                        arch[0].size >= 1,
                        cap >= 0,
                ;
            }
        }
        EntityInArchetype { page_index: page_index as u32, index_in_page: row as u32 }
    }

    /// Seats an entity in the archetype: finds or creates the archetype
    /// slot, then a page with a free row.
    #[verifier::rlimit(100)]
    #[verifier::spinoff_prover]
    pub fn add_entity(&mut self, entity_id: u32, archetype: &Archetype) -> (r: EntityInArchetype)
        requires
            old(self).wf(),
            archetype.wf(),
            archetype@.len() >= 1,
            layout_fits(archetype@),
            old(self).pages@.len() < PAGE_COUNT_LIMIT,
        ensures
            final(self).wf(),
            final(self).pages@.len() >= old(self).pages@.len(),
            final(self).pages@.len() <= old(self).pages@.len() + 1,
            final(self).pages@.len() > old(self).pages@.len() ==> r.page_index as int == old(
                self,
            ).pages@.len(),
            r.page_index < final(self).pages@.len(),
            final(self).spec_page_arch(r.page_index as int) is Some,
            comps_equiv(
                final(self).archetypes@[final(self).spec_page_arch(
                    r.page_index as int,
                ).unwrap() as int]@,
                archetype@,
            ),
            r.index_in_page as int == (if r.page_index < old(self).pages@.len() {
                old(self).pages@[r.page_index as int].entities_ids@.len() as int
            } else {
                0
            }),
            final(self).pages@[r.page_index as int].entities_ids@ == (if r.page_index < old(self).pages@.len() {
                old(self).pages@[r.page_index as int].entities_ids@
            } else {
                Seq::<u32>::empty()
            }).push(entity_id),
            r.page_index < old(self).pages@.len() ==> final(self).pages@[r.page_index as int].components_data@
                == old(self).pages@[r.page_index as int].components_data@,
            forall|q: int|
                0 <= q < old(self).pages@.len() && q != r.page_index ==> (
                #[trigger] final(self).pages@[q]) == old(self).pages@[q]
                    && final(self).page_to_archetype@[q] == old(self).page_to_archetype@[q],
            forall|b: int|
                0 <= b < old(self).archetypes@.len() ==> (#[trigger] final(self).archetypes@[b])
                    == old(self).archetypes@[b] && final(self).layouts@[b] == old(self).layouts@[b]
                    || final(self).spec_page_arch(r.page_index as int) == Some(b as usize),
            ({
                let a = final(self).spec_page_arch(r.page_index as int).unwrap();
                ((a as int) < old(self).archetypes@.len() && !old(self).free_archetypes@.contains(
                    a,
                )) ==> final(self).archetypes@ == old(self).archetypes@ && final(self).layouts@
                    == old(self).layouts@
            }),
            r.page_index < old(self).pages@.len() ==> old(self).spec_page_arch(
                r.page_index as int,
            ) is None || old(self).spec_page_arch(r.page_index as int) == final(self).spec_page_arch(r.page_index as int),
            busy_slots_unchanged(*old(self), *final(self)),
            // an equal slot is reused: no duplicate archetype slot is made
            (exists|b: int|
                0 <= b < old(self).archetypes@.len() && comps_equiv(
                    (#[trigger] old(self).archetypes@[b])@,
                    archetype@,
                )) ==> final(self).archetypes@ == old(self).archetypes@,
    {
        let archetype_index = self.reserve_archetype(archetype);
        proof {
            assert forall|b: int|
                0 <= b < old(self).archetypes@.len()
                    && old(self).archetype_to_pages@[b].pages@.len() > 0 implies (
            #[trigger] self.archetypes@[b]) == old(self).archetypes@[b] && self.layouts@[b]
                == old(self).layouts@[b] by {}
        }
        let ghost mid = *self;
        let r = self.reserve_page(entity_id, archetype_index);
        proof {
            assert forall|b: int|
                0 <= b < old(self).archetypes@.len() implies (
            #[trigger] self.archetypes@[b]) == old(self).archetypes@[b] && self.layouts@[b]
                == old(self).layouts@[b] || self.spec_page_arch(r.page_index as int) == Some(
                b as usize,
            ) by {
                if b != archetype_index {
                    assert(mid.archetypes@[b] == old(self).archetypes@[b]);
                    assert(mid.layouts@[b] == old(self).layouts@[b]);
                }
            }
            assert(busy_slots_unchanged(*old(self), *self)) by {
                assert forall|b: int|
                    0 <= b < old(self).archetypes@.len()
                        && old(self).archetype_to_pages@[b].pages@.len() > 0 implies (
                #[trigger] self.archetypes@[b]) == old(self).archetypes@[b] && self.layouts@[b]
                    == old(self).layouts@[b] by {
                    assert(mid.archetypes@[b] == old(self).archetypes@[b] && mid.layouts@[b]
                        == old(self).layouts@[b]);
                    assert(self.archetypes@ == mid.archetypes@);
                    assert(self.layouts@ == mid.layouts@);
                }
            }
        }
        r
    }

    /// Removes the entity's row by a swap-remove: the page's last row is
    /// moved into the vacated one (columns copied), and a page left empty
    /// returns to the free pool.  Returns the id whose row moved, if any.
    pub fn swap_remove_entity(&mut self, entity_in_archetype: EntityInArchetype) -> (r: Option<
        SwapRemoveInfo,
    >)
        requires
            old(self).wf(),
            entity_in_archetype.page_index < old(self).pages@.len(),
            old(self).spec_page_arch(entity_in_archetype.page_index as int) is Some,
            entity_in_archetype.index_in_page
                < old(self).pages@[entity_in_archetype.page_index as int].entities_ids@.len(),
        ensures
            final(self).wf(),
            final(self).pages@.len() == old(self).pages@.len(),
            final(self).archetypes@ == old(self).archetypes@,
            final(self).layouts@ == old(self).layouts@,
            ({
                let p = entity_in_archetype.page_index as int;
                let row = entity_in_archetype.index_in_page as int;
                let a = old(self).spec_page_arch(p).unwrap() as int;
                let arch = old(self).archetypes@[a]@;
                let offsets = old(self).layouts@[a].offsets@;
                let old_ids = old(self).pages@[p].entities_ids@;
                &&& final(self).pages@[p].entities_ids@ == old_ids.update(
                    row,
                    old_ids.last(),
                ).drop_last()
                &&& (row + 1 == old_ids.len() ==> r is None
                    && final(self).pages@[p].components_data@ == old(self).pages@[p].components_data@)
                &&& (row + 1 < old_ids.len() ==> {
                    &&& r == Some(SwapRemoveInfo { id_to_replace: old_ids.last() })
                    &&& forall|k: int, b: int|
                        0 <= k < arch.len() && 0 <= b < arch[k].size ==> #[trigger] crate::archetype_data_page::cell_byte(
                            final(self).pages@[p].components_data@,
                            offsets,
                            arch,
                            k,
                            row,
                            b,
                        ) == crate::archetype_data_page::cell_byte(
                            old(self).pages@[p].components_data@,
                            offsets,
                            arch,
                            k,
                            old_ids.len() - 1,
                            b,
                        )
                    &&& forall|pos: int|
                        0 <= pos < PAGE_SIZE_BYTES && (forall|k: int|
                            0 <= k < arch.len() ==> !crate::archetype_data_page::in_cell(
                                offsets,
                                arch,
                                k,
                                row,
                                pos,
                            )) ==> final(self).pages@[p].components_data@[pos] == old(self).pages@[p].components_data@[pos]
                })
                &&& (final(self).pages@[p].entities_ids@.len() == 0 ==> final(self).spec_page_arch(
                    p,
                ) is None)
                &&& (final(self).pages@[p].entities_ids@.len() > 0 ==> final(self).spec_page_arch(
                    p,
                ) == old(self).spec_page_arch(p))
            }),
            forall|q: int|
                0 <= q < old(self).pages@.len() && q != entity_in_archetype.page_index ==> (
                #[trigger] final(self).pages@[q]) == old(self).pages@[q]
                    && final(self).page_to_archetype@[q] == old(self).page_to_archetype@[q],
    {
        let page_index = entity_in_archetype.page_index as usize;
        let arch_index = self.page_to_archetype[page_index].unwrap();
        let count = self.pages[page_index].entity_count();
        let page_will_empty = count == 1;

        let r;
        {
            let archetype = &self.archetypes[arch_index];
            let layout = &self.layouts[arch_index];
            let page = &mut self.pages[page_index];
            r = page.swap_remove_entity_at_index(
                entity_in_archetype.index_in_page as usize,
                archetype,
                layout,
            );
        }
        proof {
            assert forall|q: int|
                0 <= q < self.pages@.len() implies (#[trigger] self.pages@[q]).wf() by {
                if q != page_index {
                    assert(old(self).pages@[q].wf());
                }
            }
            assert forall|q: int|
                0 <= q < self.pages@.len() && self.page_to_archetype@[q] is None implies (
            #[trigger] self.pages@[q]).entities_ids@.len() == 0 && self.free_pages@.contains(
                q as usize,
            ) by {
                assert(q != page_index);
                assert(old(self).pages@[q].entities_ids@.len() == 0);
            }
            assert forall|q: int|
                0 <= q < self.pages@.len() implies ((#[trigger] self.page_to_archetype@[q]) matches Some(
                b,
            ) ==> 0 <= b < self.archetypes@.len() && self.pages@[q].capacity == self.layouts@[
                b as int
            ].entities_capacity && self.archetype_to_pages@[b as int].pages@.contains(
                q as usize,
            )) by {
                if self.page_to_archetype@[q] is Some {
                    let bb = self.page_to_archetype@[q].unwrap();
                    assert(old(self).page_to_archetype@[q] == Some(bb));
                    assert(old(self).pages@[q].capacity == old(self).layouts@[
                        bb as int
                    ].entities_capacity);
                    assert(old(self).archetype_to_pages@[bb as int].pages@.contains(q as usize));
                    if q != page_index {
                        assert(self.pages@[q] == old(self).pages@[q]);
                    }
                }
            }
        }
        if page_will_empty {
            proof {
                assert(self.pages@[page_index as int].entities_ids@.len() == 0) by {
                    let old_ids = old(self).pages@[page_index as int].entities_ids@;
                    assert(self.pages@[page_index as int].entities_ids@ == old_ids.update(
                        entity_in_archetype.index_in_page as int,
                        old_ids.last(),
                    ).drop_last());
                }
            }
            self.free_page(page_index);
        }
        r
    }

    /// Reserves a row for the entity in the new archetype and copies the
    /// columns of every component id the two archetypes share from the
    /// old row into the new one.  The old row is left for the caller to
    /// swap-remove.
    #[verifier::rlimit(100)]
    #[verifier::spinoff_prover]
    #[verifier::loop_isolation(false)]
    pub fn move_entity_to_other_archetype(
        &mut self,
        entity_id: u32,
        previous_entity_in_archetype: EntityInArchetype,
        previous_archetype_index: usize,
        new_archetype: &Archetype,
    ) -> (r: EntityInArchetype)
        requires
            old(self).wf(),
            previous_entity_in_archetype.page_index < old(self).pages@.len(),
            old(self).spec_page_arch(previous_entity_in_archetype.page_index as int) == Some(
                previous_archetype_index,
            ),
            previous_entity_in_archetype.index_in_page < old(self).pages@[
                previous_entity_in_archetype.page_index as int
            ].entities_ids@.len(),
            new_archetype.wf(),
            new_archetype@.len() >= 1,
            layout_fits(new_archetype@),
            old(self).pages@.len() < PAGE_COUNT_LIMIT,
            !comps_equiv(
                old(self).archetypes@[previous_archetype_index as int]@,
                new_archetype@,
            ),
            forall|i: int, j: int|
                0 <= i < old(self).archetypes@[previous_archetype_index as int]@.len() && 0 <= j
                    < new_archetype@.len() && (#[trigger] old(self).archetypes@[
                    previous_archetype_index as int
                ]@[i]).id == (#[trigger] new_archetype@[j]).id ==> old(self).archetypes@[
                    previous_archetype_index as int
                ]@[i].size == new_archetype@[j].size,
        ensures
            final(self).wf(),
            final(self).pages@.len() >= old(self).pages@.len(),
            final(self).pages@.len() <= old(self).pages@.len() + 1,
            final(self).pages@.len() > old(self).pages@.len() ==> r.page_index as int == old(self).pages@.len(),
            r.page_index < final(self).pages@.len(),
            r.page_index != previous_entity_in_archetype.page_index,
            final(self).spec_page_arch(r.page_index as int) is Some,
            comps_equiv(
                final(self).archetypes@[final(self).spec_page_arch(
                    r.page_index as int,
                ).unwrap() as int]@,
                new_archetype@,
            ),
            r.index_in_page as int == (if r.page_index < old(self).pages@.len() {
                old(self).pages@[r.page_index as int].entities_ids@.len() as int
            } else {
                0
            }),
            final(self).pages@[r.page_index as int].entities_ids@ == (if r.page_index < old(self).pages@.len() {
                old(self).pages@[r.page_index as int].entities_ids@
            } else {
                Seq::<u32>::empty()
            }).push(entity_id),
            forall|q: int|
                0 <= q < old(self).pages@.len() && q != r.page_index ==> (
                #[trigger] final(self).pages@[q]) == old(self).pages@[q]
                    && final(self).page_to_archetype@[q] == old(self).page_to_archetype@[q],
            forall|b: int|
                0 <= b < old(self).archetypes@.len() ==> (#[trigger] final(self).archetypes@[b])
                    == old(self).archetypes@[b] || final(self).spec_page_arch(r.page_index as int)
                    == Some(b as usize),
            busy_slots_unchanged(*old(self), *final(self)),
            r.page_index < old(self).pages@.len() ==> old(self).spec_page_arch(
                r.page_index as int,
            ) is None || old(self).spec_page_arch(r.page_index as int) == final(self).spec_page_arch(r.page_index as int),
            // the shared columns were copied from the old row
            ({
                let prev_arch = old(self).archetypes@[previous_archetype_index as int]@;
                let prev_offsets = old(self).layouts@[previous_archetype_index as int].offsets@;
                let dst_a = final(self).spec_page_arch(r.page_index as int).unwrap() as int;
                let dst_arch = final(self).archetypes@[dst_a]@;
                let dst_offsets = final(self).layouts@[dst_a].offsets@;
                forall|i: int, j: int|
                    0 <= i < prev_arch.len() && 0 <= j < dst_arch.len() && (
                    #[trigger] prev_arch[i]).id == (#[trigger] dst_arch[j]).id ==> forall|b: int|
                        0 <= b < dst_arch[j].size ==> #[trigger] crate::archetype_data_page::cell_byte(
                            final(self).pages@[r.page_index as int].components_data@,
                            dst_offsets,
                            dst_arch,
                            j,
                            r.index_in_page as int,
                            b,
                        ) == crate::archetype_data_page::cell_byte(
                            old(self).pages@[
                                previous_entity_in_archetype.page_index as int
                            ].components_data@,
                            prev_offsets,
                            prev_arch,
                            i,
                            previous_entity_in_archetype.index_in_page as int,
                            b,
                        )
            }),
            // bytes outside the new row's cells are as they were
            ({
                let dst_a = final(self).spec_page_arch(r.page_index as int).unwrap() as int;
                let dst_arch = final(self).archetypes@[dst_a]@;
                let dst_offsets = final(self).layouts@[dst_a].offsets@;
                r.page_index < old(self).pages@.len() ==> forall|pos: int|
                    0 <= pos < PAGE_SIZE_BYTES && (forall|j: int|
                        0 <= j < dst_arch.len() ==> !crate::archetype_data_page::in_cell(
                            dst_offsets,
                            dst_arch,
                            j,
                            r.index_in_page as int,
                            pos,
                        )) ==> final(self).pages@[r.page_index as int].components_data@[pos]
                        == old(self).pages@[r.page_index as int].components_data@[pos]
            }),
    {
        let new_loc = self.add_entity(entity_id, new_archetype);
        let ghost mid = *self;
        let prev_p = previous_entity_in_archetype.page_index as usize;
        let prev_row = previous_entity_in_archetype.index_in_page as usize;
        let dst_p = new_loc.page_index as usize;
        let dst_row = new_loc.index_in_page as usize;
        let dst_a = self.page_to_archetype[dst_p].unwrap();

        proof {
            assert(dst_a as int != previous_archetype_index && self.archetypes@[
                previous_archetype_index as int
            ] == old(self).archetypes@[previous_archetype_index as int] && self.layouts@[
                previous_archetype_index as int
            ] == old(self).layouts@[previous_archetype_index as int]) by {
                assert(!old(self).free_archetypes@.contains(previous_archetype_index)) by {
                    if old(self).free_archetypes@.contains(previous_archetype_index) {
                        let m = choose|m: int|
                            0 <= m < old(self).free_archetypes@.len() && old(self).free_archetypes@[m] == previous_archetype_index;
                        assert(old(self).archetype_to_pages@[
                            previous_archetype_index as int
                        ].pages@.len() == 0);
                        assert(old(self).archetype_to_pages@[
                            previous_archetype_index as int
                        ].pages@.contains(prev_p));
                    }
                }
                if dst_a as int == previous_archetype_index {
                    assert(self.archetypes@ == old(self).archetypes@);
                    assert(comps_equiv(
                        self.archetypes@[previous_archetype_index as int]@,
                        new_archetype@,
                    ));
                    assert(false);
                } else {
                    assert(self.archetypes@[previous_archetype_index as int] == old(self).archetypes@[previous_archetype_index as int]);
                }
            }
            assert(dst_p != prev_p) by {
                if dst_p == prev_p {
                    assert(mid.spec_page_arch(prev_p as int) == Some(dst_a));
                    assert(old(self).spec_page_arch(prev_p as int) == Some(
                        previous_archetype_index,
                    ));
                }
            }
            assert(mid.pages@[prev_p as int] == old(self).pages@[prev_p as int]);
        }

        let union = ArchetypesUnion::calculate(
            &self.archetypes[previous_archetype_index],
            &self.archetypes[dst_a],
        );
        let union_len = union.len();
        let ghost prev_arch = old(self).archetypes@[previous_archetype_index as int]@;
        let ghost prev_offsets = old(self).layouts@[previous_archetype_index as int].offsets@;
        let ghost dst_arch = self.archetypes@[dst_a as int]@;
        let ghost dst_offsets = self.layouts@[dst_a as int].offsets@;
        let ghost mid_data = self.pages@[dst_p as int].components_data@;

        let mut u: usize = 0;
        while u < union_len
            invariant
                self.archetypes@ == mid.archetypes@,
                self.layouts@ == mid.layouts@,
                self.archetype_to_pages@ == mid.archetype_to_pages@,
                self.page_to_archetype@ == mid.page_to_archetype@,
                self.free_pages@ == mid.free_pages@,
                self.free_archetypes@ == mid.free_archetypes@,
                self.pages@.len() == mid.pages@.len(),
                0 <= u <= union_len,
                self.pages@[dst_p as int].components_data@.len() == PAGE_SIZE_BYTES,
                self.pages@[dst_p as int].entities_ids@ == mid.pages@[dst_p as int].entities_ids@,
                self.pages@[dst_p as int].capacity == mid.pages@[dst_p as int].capacity,
                forall|q: int|
                    0 <= q < self.pages@.len() && q != dst_p ==> (#[trigger] self.pages@[q])
                        == mid.pages@[q],
                // copied so far
                forall|v: int, b: int|
                    0 <= v < u && 0 <= b < dst_arch[union.rhs_indices@[v] as int].size
                        ==> #[trigger] crate::archetype_data_page::cell_byte(
                        self.pages@[dst_p as int].components_data@,
                        dst_offsets,
                        dst_arch,
                        union.rhs_indices@[v] as int,
                        dst_row as int,
                        b,
                    ) == crate::archetype_data_page::cell_byte(
                        mid.pages@[prev_p as int].components_data@,
                        prev_offsets,
                        prev_arch,
                        union.lhs_indices@[v] as int,
                        prev_row as int,
                        b,
                    ),
                // frame within the destination page
                forall|pos: int|
                    0 <= pos < PAGE_SIZE_BYTES && (forall|v: int|
                        0 <= v < u ==> !crate::archetype_data_page::in_cell(
                            dst_offsets,
                            dst_arch,
                            union.rhs_indices@[v] as int,
                            dst_row as int,
                            pos,
                        )) ==> self.pages@[dst_p as int].components_data@[pos] == mid_data[pos],
            decreases union_len - u,
        {
            let sk = union.lhs_indices[u];
            let dk = union.rhs_indices[u];
            let src_off = self.layouts[previous_archetype_index].offsets[sk];
            let dst_off = self.layouts[dst_a].offsets[dk];
            let size = self.archetypes[previous_archetype_index].component_at(sk).size;
            proof {
                crate::archetype_data_page::lemma_cell_bounds(
                    prev_arch,
                    self.layouts@[previous_archetype_index as int],
                    sk as int,
                    prev_row as int,
                );
                crate::archetype_data_page::lemma_cell_bounds(
                    dst_arch,
                    self.layouts@[dst_a as int],
                    dk as int,
                    dst_row as int,
                );
            }
            let bytes = self.pages[prev_p].get_component_data(prev_row, src_off, size);
            let ghost before = self.pages@[dst_p as int].components_data@;
            let dstpage = &mut self.pages[dst_p];
            dstpage.set_component_data(dst_row, dst_off, bytes.as_slice());
            proof {
                lemma_move_copy_step(
                    prev_arch,
                    dst_arch,
                    prev_offsets,
                    dst_offsets,
                    self.layouts@[dst_a as int],
                    mid.pages@[prev_p as int].components_data@,
                    mid_data,
                    before,
                    self.pages@[dst_p as int].components_data@,
                    bytes@,
                    union.lhs_indices@,
                    union.rhs_indices@,
                    u as int,
                    prev_row as int,
                    dst_row as int,
                );
            }
            u = u + 1;
        }
        proof {
            lemma_wf_data_change(mid, *self, dst_p as int);
            assert(busy_slots_unchanged(*old(self), *self)) by {
                assert forall|b: int|
                    0 <= b < old(self).archetypes@.len()
                        && old(self).archetype_to_pages@[b].pages@.len() > 0 implies (
                #[trigger] self.archetypes@[b]) == old(self).archetypes@[b] && self.layouts@[b]
                    == old(self).layouts@[b] by {
                    assert(mid.archetypes@[b] == old(self).archetypes@[b] && mid.layouts@[b]
                        == old(self).layouts@[b]);
                    assert(self.archetypes@ == mid.archetypes@);
                    assert(self.layouts@ == mid.layouts@);
                }
            }
            assert forall|i: int, j: int|
                0 <= i < prev_arch.len() && 0 <= j < dst_arch.len() && (#[trigger] prev_arch[i]).id
                    == (#[trigger] dst_arch[j]).id implies forall|b: int|
                0 <= b < dst_arch[j].size ==> #[trigger] crate::archetype_data_page::cell_byte(
                    self.pages@[dst_p as int].components_data@,
                    dst_offsets,
                    dst_arch,
                    j,
                    dst_row as int,
                    b,
                ) == crate::archetype_data_page::cell_byte(
                    mid.pages@[prev_p as int].components_data@,
                    prev_offsets,
                    prev_arch,
                    i,
                    prev_row as int,
                    b,
                ) by {
                let k = choose|k: int|
                    0 <= k < union_len && union.lhs_indices@[k] == i && union.rhs_indices@[k] == j;
                assert forall|b: int|
                    0 <= b < dst_arch[j].size implies #[trigger] crate::archetype_data_page::cell_byte(
                    self.pages@[dst_p as int].components_data@,
                    dst_offsets,
                    dst_arch,
                    j,
                    dst_row as int,
                    b,
                ) == crate::archetype_data_page::cell_byte(
                    mid.pages@[prev_p as int].components_data@,
                    prev_offsets,
                    prev_arch,
                    i,
                    prev_row as int,
                    b,
                ) by {
                    assert(crate::archetype_data_page::cell_byte(
                        self.pages@[dst_p as int].components_data@,
                        dst_offsets,
                        dst_arch,
                        union.rhs_indices@[k] as int,
                        dst_row as int,
                        b,
                    ) == crate::archetype_data_page::cell_byte(
                        mid.pages@[prev_p as int].components_data@,
                        prev_offsets,
                        prev_arch,
                        union.lhs_indices@[k] as int,
                        prev_row as int,
                        b,
                    ));
                }
            }
        }
        new_loc
    }

    /// Returns an emptied page to the free pool; an archetype slot losing
    /// its last page goes to the free-slot pool.
    fn free_page(&mut self, page_index: usize)
        requires
            old(self).wf(),
            page_index < old(self).pages@.len(),
            old(self).spec_page_arch(page_index as int) is Some,
            old(self).pages@[page_index as int].entities_ids@.len() == 0,
        ensures
            final(self).wf(),
            final(self).pages@ == old(self).pages@,
            final(self).archetypes@ == old(self).archetypes@,
            final(self).layouts@ == old(self).layouts@,
            final(self).spec_page_arch(page_index as int) is None,
            forall|q: int|
                0 <= q < old(self).pages@.len() && q != page_index ==> final(self).page_to_archetype@[q] == old(self).page_to_archetype@[q],
    {
        let archetype_index = self.page_to_archetype[page_index].unwrap();
        let n = self.archetype_to_pages[archetype_index].pages.len();
        let mut i: usize = 0;
        while i < n
            invariant
                *self == *old(self),
                self.wf(),
                archetype_index < self.archetype_to_pages@.len(),
                n == self.archetype_to_pages@[archetype_index as int].pages@.len(),
                0 <= i <= n,
                (page_index as int) < self.pages@.len(),
                self.pages@[page_index as int].entities_ids@.len() == 0,
                self.spec_page_arch(page_index as int) == Some(archetype_index),
                forall|j: int|
                    0 <= j < i ==> self.archetype_to_pages@[archetype_index as int].pages@[j]
                        != page_index,
            decreases n - i,
        {
            if self.archetype_to_pages[archetype_index].pages[i] == page_index {
                let ghost pre = *self;
                let lst = &mut self.archetype_to_pages[archetype_index];
                lst.pages.remove(i);
                let now_empty = self.archetype_to_pages[archetype_index].pages.len() == 0;
                if now_empty {
                    self.free_archetypes.push(archetype_index);
                }
                self.free_pages.push(page_index);
                self.page_to_archetype.set(page_index, None);
                proof {
                    lemma_page_free_wf(pre, *self, page_index, archetype_index, i as int);
                }
                return ;
            }
            i = i + 1;
        }
        proof {
            // the page is bound to this slot, so it is in the slot's list
            assert(self.archetype_to_pages@[archetype_index as int].pages@.contains(page_index));
            let j = choose|j: int|
                0 <= j < self.archetype_to_pages@[archetype_index as int].pages@.len()
                    && self.archetype_to_pages@[archetype_index as int].pages@[j] == page_index;
            assert(false);
        }
    }

    /// Drops `idx` from the free-archetype list if it is there, so a
    /// revived slot is not handed out twice.
    fn remove_free_archetype(&mut self, idx: usize)
        requires
            old(self).wf(),
        ensures
            final(self).wf(),
            !final(self).free_archetypes@.contains(idx),
            final(self).archetypes@ == old(self).archetypes@,
            final(self).layouts@ == old(self).layouts@,
            final(self).archetype_to_pages@ == old(self).archetype_to_pages@,
            final(self).pages@ == old(self).pages@,
            final(self).page_to_archetype@ == old(self).page_to_archetype@,
            final(self).free_pages@ == old(self).free_pages@,
    {
        let n = self.free_archetypes.len();
        let mut i: usize = 0;
        while i < n
            invariant
                n == self.free_archetypes@.len(),
                0 <= i <= n,
                self.wf(),
                self.archetypes@ == old(self).archetypes@,
                self.layouts@ == old(self).layouts@,
                self.archetype_to_pages@ == old(self).archetype_to_pages@,
                self.pages@ == old(self).pages@,
                self.page_to_archetype@ == old(self).page_to_archetype@,
                self.free_pages@ == old(self).free_pages@,
                self.free_archetypes@ == old(self).free_archetypes@,
                forall|j: int| 0 <= j < i ==> self.free_archetypes@[j] != idx,
            decreases n - i,
        {
            if self.free_archetypes[i] == idx {
                let ghost pre = self.free_archetypes@;
                self.free_archetypes.remove(i);
                proof {
                    assert forall|j: int|
                        0 <= j < self.free_archetypes@.len() implies (
                    #[trigger] self.free_archetypes@[j]) != idx by {
                        if j < i {
                            assert(pre[j] != idx);
                        } else {
                            assert(self.free_archetypes@[j] == pre[j + 1]);
                            assert(pre[i as int] != pre[j + 1]);
                        }
                    }
                }
                return ;
            }
            i = i + 1;
        }
    }

    /// The archetype pool (one entry per slot; free slots hold stale
    /// values).
    #[inline]
    pub fn get_archetypes(&self) -> (r: &Vec<Archetype>)
        ensures
            r@ == self.archetypes@,
    {
        &self.archetypes
    }

    /// The page pool.
    #[inline]
    pub fn get_pages(&self) -> (r: &Vec<ArchetypeDataPage>)
        ensures
            r@ == self.pages@,
    {
        &self.pages
    }

    /// The indices of the pages bound to an archetype slot.
    #[inline]
    pub fn get_archetype_page_indices(&self, archetype_index: usize) -> (r: &Vec<usize>)
        requires
            archetype_index < self.archetype_to_pages@.len(),
        ensures
            r@ == self.archetype_to_pages@[archetype_index as int].pages@,
    {
        &self.archetype_to_pages[archetype_index].pages
    }

    /// The archetype slot a bound page belongs to.
    #[inline]
    pub fn get_archetype_index_by_page(&self, page_index: usize) -> (r: usize)
        requires
            self.wf(),
            page_index < self.pages@.len(),
            self.spec_page_arch(page_index as int) is Some,
        ensures
            Some(r) == self.spec_page_arch(page_index as int),
            r < self.archetypes@.len(),
    {
        self.page_to_archetype[page_index].unwrap()
    }

    /// The archetype a bound page belongs to.
    #[inline]
    pub fn get_archetype_by_page(&self, page_index: usize) -> (r: &Archetype)
        requires
            self.wf(),
            page_index < self.pages@.len(),
            self.spec_page_arch(page_index as int) is Some,
        ensures
            r == &self.archetypes@[self.spec_page_arch(page_index as int).unwrap() as int],
    {
        let arch_index = self.page_to_archetype[page_index].unwrap();
        &self.archetypes[arch_index]
    }
}

} // verus!

verus! {

/// Whether two archetypes carry the same component list (ids, sizes and
/// alignments position by position).
fn components_match(lhs: &Archetype, rhs: &Archetype) -> (r: bool)
    ensures
        r == comps_equiv(lhs@, rhs@),
{
    let n = lhs.component_count();
    if n != rhs.component_count() {
        return false;
    }
    let mut k: usize = 0;
    while k < n
        invariant
            n == lhs@.len(),
            n == rhs@.len(),
            0 <= k <= n,
            forall|i: int|
                0 <= i < k ==> (#[trigger] lhs@[i]).id == rhs@[i].id && lhs@[i].size == rhs@[i].size
                    && lhs@[i].align == rhs@[i].align,
        decreases n - k,
    {
        let a = lhs.component_at(k);
        let b = rhs.component_at(k);
        if a.id != b.id || a.size != b.size || a.align != b.align {
            return false;
        }
        k = k + 1;
    }
    true
}

} // verus!

verus! {

/// Binding a claimed page to an archetype slot and seating the first
/// entity row restores the container invariant.
#[verifier::rlimit(100)]
#[verifier::spinoff_prover]
proof fn lemma_page_bound_wf(
    pre: ArchetypesContainer,
    mid: ArchetypesContainer,
    post: ArchetypesContainer,
    p: usize,
    a: usize,
)
    requires
        pre.wf(),
        0 <= a < pre.archetypes@.len(),
        !pre.free_archetypes@.contains(a),
        // `mid`: the claimed page is unbound, empty, off the free list
        mid.archetypes@ == pre.archetypes@,
        mid.layouts@ == pre.layouts@,
        mid.archetype_to_pages@ == pre.archetype_to_pages@,
        mid.free_archetypes@ == pre.free_archetypes@,
        mid.page_to_archetype@.len() == mid.pages@.len(),
        mid.pages@.len() <= PAGE_COUNT_LIMIT,
        pre.pages@.len() <= mid.pages@.len(),
        0 <= p < mid.pages@.len(),
        mid.page_to_archetype@[p as int] is None,
        p < pre.pages@.len() ==> pre.page_to_archetype@[p as int] is None,
        mid.pages@[p as int].wf(),
        mid.pages@[p as int].entities_ids@.len() == 0,
        forall|q: int|
            0 <= q < mid.pages@.len() && q != p ==> q < pre.pages@.len() && (
            #[trigger] mid.pages@[q]) == pre.pages@[q] && mid.page_to_archetype@[q]
                == pre.page_to_archetype@[q],
        forall|i: int|
            0 <= i < mid.free_pages@.len() ==> (#[trigger] mid.free_pages@[i])
                < mid.pages@.len() && mid.page_to_archetype@[mid.free_pages@[i] as int] is None
                && mid.free_pages@[i] != p,
        forall|i: int, j: int|
            0 <= i < j < mid.free_pages@.len() ==> mid.free_pages@[i] != mid.free_pages@[j],
        forall|q: int|
            0 <= q < mid.pages@.len() && mid.page_to_archetype@[q] is None && q != p ==> exists|
                i: int,
            |
                0 <= i < mid.free_pages@.len() && mid.free_pages@[i] == q,
        // `post`: the page is bound to slot `a` and listed there
        post.archetypes@ == mid.archetypes@,
        post.layouts@ == mid.layouts@,
        post.free_archetypes@ == mid.free_archetypes@,
        post.free_pages@ == mid.free_pages@,
        post.pages@.len() == mid.pages@.len(),
        forall|q: int|
            0 <= q < mid.pages@.len() && q != p ==> (#[trigger] post.pages@[q]) == mid.pages@[q],
        post.pages@[p as int].wf(),
        post.pages@[p as int].capacity == post.layouts@[a as int].entities_capacity,
        post.page_to_archetype@ == mid.page_to_archetype@.update(p as int, Some(a)),
        post.archetype_to_pages@ == mid.archetype_to_pages@.update(
            a as int,
            ArchetypePages {
                pages: post.archetype_to_pages@[a as int].pages,
            },
        ),
        post.archetype_to_pages@[a as int].pages@ == mid.archetype_to_pages@[a as int].pages@.push(p),
    ensures
        post.wf(),
{
    assert(post.page_to_archetype@.len() == post.pages@.len());
    assert forall|q: int|
        0 <= q < post.pages@.len() implies (#[trigger] post.pages@[q]).wf() by {
        if q != p {
            if q < pre.pages@.len() {
                assert(pre.pages@[q].wf());
            }
        }
    }
    assert forall|q: int|
        0 <= q < post.pages@.len() implies ((#[trigger] post.page_to_archetype@[q]) matches Some(
        b,
    ) ==> 0 <= b < post.archetypes@.len() && post.pages@[q].capacity == post.layouts@[
        b as int
    ].entities_capacity && post.archetype_to_pages@[b as int].pages@.contains(q as usize)) by {
        if post.page_to_archetype@[q] is Some {
            let bb = post.page_to_archetype@[q].unwrap();
            if q == p {
                assert(post.page_to_archetype@[p as int] == Some(a));
                assert(bb == a);
                let lst = post.archetype_to_pages@[a as int].pages@;
                assert(lst[lst.len() - 1] == p);
                assert(lst.contains(p));
                assert(post.pages@[p as int].capacity == post.layouts@[a as int].entities_capacity);
            } else {
                assert(mid.pages@[q] == pre.pages@[q]);
                assert(post.pages@[q] == mid.pages@[q]);
                assert(pre.page_to_archetype@[q] == Some(bb));
                assert(pre.pages@[q].capacity == pre.layouts@[bb as int].entities_capacity);
                assert(pre.archetype_to_pages@[bb as int].pages@.contains(q as usize));
                assert(post.layouts@ == pre.layouts@);
                if bb == a {
                    
                    let lst0 = mid.archetype_to_pages@[a as int].pages@;
                    assert(lst0 == pre.archetype_to_pages@[a as int].pages@);
                    assert(pre.archetype_to_pages@[a as int].pages@.contains(q as usize));
                    assert(lst0.contains(q as usize));
                    let i = choose|i: int| 0 <= i < lst0.len() && lst0[i] == q as usize;
                    assert(post.archetype_to_pages@[a as int].pages@ == lst0.push(p));
                    assert(post.archetype_to_pages@[a as int].pages@[i] == q as usize);
                    assert(post.archetype_to_pages@[a as int].pages@.contains(q as usize));
                } else {
                    assert(post.archetype_to_pages@[bb as int] == pre.archetype_to_pages@[
                        bb as int
                    ]);
                }
            }
            assert(post.pages@[q].capacity == post.layouts@[bb as int].entities_capacity);
            assert(post.archetype_to_pages@[bb as int].pages@.contains(q as usize));
        }
    }
    assert forall|q: int|
        0 <= q < post.pages@.len() && post.page_to_archetype@[q] is None implies (
    #[trigger] post.pages@[q]).entities_ids@.len() == 0 && post.free_pages@.contains(
        q as usize,
    ) by {
        assert(q != p);
        assert(mid.page_to_archetype@[q] is None);
        assert(mid.pages@[q] == pre.pages@[q]);
        let i = choose|i: int| 0 <= i < mid.free_pages@.len() && mid.free_pages@[i] == q;
        assert(post.free_pages@[i] == q as usize);
        assert(pre.page_to_archetype@[q] is None);
        assert(pre.pages@[q].entities_ids@.len() == 0);
    }
    assert forall|b: int, i: int|
        0 <= b < post.archetypes@.len() && 0 <= i
            < post.archetype_to_pages@[b].pages@.len() implies (
    #[trigger] post.archetype_to_pages@[b].pages@[i]) < post.pages@.len()
        && post.page_to_archetype@[post.archetype_to_pages@[b].pages@[i] as int] == Some(
        b as usize,
    ) by {
        if b == a && i == post.archetype_to_pages@[a as int].pages@.len() - 1 {
            assert(post.archetype_to_pages@[a as int].pages@[i] == p);
        } else {
            let q = pre.archetype_to_pages@[b].pages@[i];
            assert(post.archetype_to_pages@[b].pages@[i] == q);
            assert(pre.page_to_archetype@[q as int] == Some(b as usize));
            assert(q < pre.pages@.len());
            assert(q != p) by {
                if q == p {
                    assert(pre.page_to_archetype@[p as int] is None);
                }
            }
            assert(mid.pages@[q as int] == pre.pages@[q as int]);
            assert(post.page_to_archetype@[q as int] == pre.page_to_archetype@[q as int]);
        }
    }
    assert forall|b: int, i: int, j: int|
        0 <= b < post.archetypes@.len() && 0 <= i < j
            < post.archetype_to_pages@[b].pages@.len() implies post.archetype_to_pages@[b].pages@[i]
        != post.archetype_to_pages@[b].pages@[j] by {
        if b == a {
            let lst0 = mid.archetype_to_pages@[a as int].pages@;
            if j == lst0.len() {
                assert(post.archetype_to_pages@[a as int].pages@[j] == p);
                assert(post.archetype_to_pages@[a as int].pages@[i] == lst0[i]);
                assert(lst0[i] == pre.archetype_to_pages@[a as int].pages@[i]);
                assert(pre.page_to_archetype@[lst0[i] as int] == Some(a));
                assert(lst0[i] < pre.pages@.len());
                if lst0[i] == p {
                    assert(pre.page_to_archetype@[p as int] is None);
                    assert(false);
                }
            } else {
                assert(post.archetype_to_pages@[a as int].pages@[i] == lst0[i]);
                assert(post.archetype_to_pages@[a as int].pages@[j] == lst0[j]);
                assert(pre.archetype_to_pages@[a as int].pages@[i] != pre.archetype_to_pages@[
                    a as int
                ].pages@[j]);
            }
        } else {
            assert(post.archetype_to_pages@[b] == pre.archetype_to_pages@[b]);
            assert(pre.archetype_to_pages@[b].pages@[i] != pre.archetype_to_pages@[b].pages@[j]);
        }
    }
    assert forall|i: int|
        0 <= i < post.free_archetypes@.len() implies (#[trigger] post.free_archetypes@[i])
        < post.archetypes@.len() && post.archetype_to_pages@[post.free_archetypes@[
        i
    ] as int].pages@.len() == 0 by {
        assert(pre.free_archetypes@[i] != a as usize);
        assert(post.archetype_to_pages@[pre.free_archetypes@[i] as int]
            == pre.archetype_to_pages@[pre.free_archetypes@[i] as int]);
    }
}

} // verus!

verus! {

/// Unbinding an emptied page (and possibly retiring its archetype slot)
/// restores the container invariant.
#[verifier::rlimit(100)]
#[verifier::spinoff_prover]
proof fn lemma_page_free_wf(
    pre: ArchetypesContainer,
    post: ArchetypesContainer,
    p: usize,
    a: usize,
    i: int,
)
    requires
        pre.wf(),
        (p as int) < pre.pages@.len(),
        pre.spec_page_arch(p as int) == Some(a),
        pre.pages@[p as int].entities_ids@.len() == 0,
        0 <= i < pre.archetype_to_pages@[a as int].pages@.len(),
        pre.archetype_to_pages@[a as int].pages@[i] == p,
        post.pages@ == pre.pages@,
        post.archetypes@ == pre.archetypes@,
        post.layouts@ == pre.layouts@,
        post.page_to_archetype@ == pre.page_to_archetype@.update(p as int, None),
        post.archetype_to_pages@ == pre.archetype_to_pages@.update(
            a as int,
            ArchetypePages { pages: post.archetype_to_pages@[a as int].pages },
        ),
        post.archetype_to_pages@[a as int].pages@ == pre.archetype_to_pages@[
            a as int
        ].pages@.remove(i),
        post.free_pages@ == pre.free_pages@.push(p),
        post.free_archetypes@ == (if post.archetype_to_pages@[a as int].pages@.len() == 0 {
            pre.free_archetypes@.push(a)
        } else {
            pre.free_archetypes@
        }),
    ensures
        post.wf(),
{
    let pre_lst = pre.archetype_to_pages@[a as int].pages@;
    let post_lst = post.archetype_to_pages@[a as int].pages@;
    assert forall|q: int|
        0 <= q < post.pages@.len() implies ((#[trigger] post.page_to_archetype@[q]) matches Some(
        b,
    ) ==> 0 <= b < post.archetypes@.len() && post.pages@[q].capacity == post.layouts@[
        b as int
    ].entities_capacity && post.archetype_to_pages@[b as int].pages@.contains(q as usize)) by {
        if q != p && post.page_to_archetype@[q] is Some {
            let bb = post.page_to_archetype@[q].unwrap();
            assert(pre.page_to_archetype@[q] == Some(bb));
            assert(pre.archetype_to_pages@[bb as int].pages@.contains(q as usize));
            if bb == a {
                let m = choose|m: int| 0 <= m < pre_lst.len() && pre_lst[m] == q as usize;
                assert(m != i) by {
                    assert(pre_lst[i] == p);
                }
                if m < i {
                    assert(post_lst[m] == q as usize);
                } else {
                    assert(post_lst[m - 1] == q as usize);
                }
                assert(post_lst.contains(q as usize));
            } else {
                assert(post.archetype_to_pages@[bb as int] == pre.archetype_to_pages@[bb as int]);
            }
        }
    }
    assert forall|q: int|
        0 <= q < post.pages@.len() && post.page_to_archetype@[q] is None implies (
    #[trigger] post.pages@[q]).entities_ids@.len() == 0 && post.free_pages@.contains(
        q as usize,
    ) by {
        if q == p {
            assert(post.free_pages@[post.free_pages@.len() - 1] == p);
        } else {
            assert(pre.page_to_archetype@[q] is None);
            assert(pre.pages@[q].entities_ids@.len() == 0);
            assert(pre.free_pages@.contains(q as usize));
            let m = choose|m: int|
                0 <= m < pre.free_pages@.len() && pre.free_pages@[m] == q as usize;
            assert(post.free_pages@[m] == q as usize);
        }
    }
    assert forall|b: int, j: int|
        0 <= b < post.archetypes@.len() && 0 <= j
            < post.archetype_to_pages@[b].pages@.len() implies (
    #[trigger] post.archetype_to_pages@[b].pages@[j]) < post.pages@.len()
        && post.page_to_archetype@[post.archetype_to_pages@[b].pages@[j] as int] == Some(
        b as usize,
    ) by {
        let q = post.archetype_to_pages@[b].pages@[j];
        if b == a {
            let qq = if j < i {
                pre_lst[j]
            } else {
                pre_lst[j + 1]
            };
            assert(q == qq);
            assert(pre.page_to_archetype@[qq as int] == Some(a));
            assert(qq != p) by {
                if qq == p {
                    if j < i {
                        assert(pre_lst[j] == pre_lst[i]);
                    } else {
                        assert(pre_lst[j + 1] == pre_lst[i]);
                    }
                }
            }
        } else {
            assert(post.archetype_to_pages@[b] == pre.archetype_to_pages@[b]);
            assert(pre.page_to_archetype@[q as int] == Some(b as usize));
            vstd::std_specs::vec::axiom_spec_len(&pre.archetypes);
            assert(q != p) by {
                if q == p {
                    assert(Some(b as usize) == Some(a));
                }
            }
        }
    }
    assert forall|b: int, j1: int, j2: int|
        0 <= b < post.archetypes@.len() && 0 <= j1 < j2
            < post.archetype_to_pages@[b].pages@.len()
            implies post.archetype_to_pages@[b].pages@[j1] != post.archetype_to_pages@[
        b
    ].pages@[j2] by {
        if b == a {
            let q1 = if j1 < i {
                pre_lst[j1]
            } else {
                pre_lst[j1 + 1]
            };
            let q2 = if j2 < i {
                pre_lst[j2]
            } else {
                pre_lst[j2 + 1]
            };
            assert(post.archetype_to_pages@[b].pages@[j1] == q1);
            assert(post.archetype_to_pages@[b].pages@[j2] == q2);
        } else {
            assert(post.archetype_to_pages@[b] == pre.archetype_to_pages@[b]);
        }
    }
    assert forall|m: int|
        0 <= m < post.free_pages@.len() implies (#[trigger] post.free_pages@[m])
        < post.pages@.len() && post.page_to_archetype@[post.free_pages@[m] as int] is None by {
        if m < pre.free_pages@.len() {
            assert(pre.free_pages@[m] < pre.pages@.len());
            assert(pre.page_to_archetype@[pre.free_pages@[m] as int] is None);
            assert(pre.free_pages@[m] != p);
        } else {
            assert(post.free_pages@[m] == p);
        }
    }
    assert forall|m1: int, m2: int|
        0 <= m1 < m2 < post.free_pages@.len() implies post.free_pages@[m1] != post.free_pages@[
        m2
    ] by {
        if m2 == pre.free_pages@.len() {
            assert(post.free_pages@[m2] == p);
            assert(pre.page_to_archetype@[pre.free_pages@[m1] as int] is None);
            assert(pre.free_pages@[m1] != p);
        }
    }
    assert forall|m: int|
        0 <= m < post.free_archetypes@.len() implies (#[trigger] post.free_archetypes@[m])
        < post.archetypes@.len() && post.archetype_to_pages@[post.free_archetypes@[
        m
    ] as int].pages@.len() == 0 by {
        if m < pre.free_archetypes@.len() {
            let b = pre.free_archetypes@[m];
            assert(pre.archetype_to_pages@[b as int].pages@.len() == 0);
            assert(b != a) by {
                assert(pre_lst.len() > 0);
            }
            assert(post.archetype_to_pages@[b as int] == pre.archetype_to_pages@[b as int]);
        } else {
            assert(post.free_archetypes@[m] == a);
        }
    }
    assert forall|m1: int, m2: int|
        0 <= m1 < m2 < post.free_archetypes@.len() implies post.free_archetypes@[m1]
        != post.free_archetypes@[m2] by {
        if m2 >= pre.free_archetypes@.len() {
            assert(post.free_archetypes@[m2] == a);
            let b = pre.free_archetypes@[m1];
            assert(pre.archetype_to_pages@[b as int].pages@.len() == 0);
            assert(b != a) by {
                assert(pre_lst.len() > 0);
            }
        }
    }
}

} // verus!

verus! {

/// One column copy of a migration keeps the columns already copied and
/// every byte outside the destination row's cells, and lands the new
/// column's bytes.
#[verifier::rlimit(100)]
#[verifier::spinoff_prover]
proof fn lemma_move_copy_step(
    prev_arch: Seq<crate::component_type::ComponentType>,
    dst_arch: Seq<crate::component_type::ComponentType>,
    prev_offsets: Seq<usize>,
    dst_offsets: Seq<usize>,
    dst_layout: ArchetypeLayout,
    src_data: Seq<u8>,
    mid_data: Seq<u8>,
    before: Seq<u8>,
    after: Seq<u8>,
    bytes: Seq<u8>,
    lhs: Seq<usize>,
    rhs: Seq<usize>,
    u: int,
    prev_row: int,
    dst_row: int,
)
    requires
        layout_wf(dst_arch, dst_layout),
        dst_layout.offsets@ == dst_offsets,
        0 <= dst_row < dst_layout.entities_capacity,
        lhs.len() == rhs.len(),
        0 <= u < lhs.len(),
        forall|v: int|
            #![trigger lhs[v]]
            #![trigger rhs[v]]
            0 <= v < lhs.len() ==> lhs[v] < prev_arch.len() && rhs[v] < dst_arch.len()
                && prev_arch[lhs[v] as int].size == dst_arch[rhs[v] as int].size,
        forall|v1: int, v2: int| 0 <= v1 < v2 < rhs.len() ==> rhs[v1] != rhs[v2],
        bytes.len() == dst_arch[rhs[u] as int].size,
        prev_offsets.len() == prev_arch.len(),
        src_data.len() == PAGE_SIZE_BYTES,
        mid_data.len() == PAGE_SIZE_BYTES,
        before.len() == PAGE_SIZE_BYTES,
        after.len() == PAGE_SIZE_BYTES,
        // the bytes read from the source row's cell
        forall|b: int|
            0 <= b < bytes.len() ==> bytes[b] == src_data[prev_offsets[lhs[u] as int] + prev_arch[
                lhs[u] as int
            ].size * prev_row + b],
        // the write landed in the destination cell and nowhere else
        forall|b: int|
            0 <= b < bytes.len() ==> after[dst_offsets[rhs[u] as int] + bytes.len() * dst_row + b]
                == bytes[b],
        forall|pos: int|
            0 <= pos < PAGE_SIZE_BYTES && !(dst_offsets[rhs[u] as int] + bytes.len() * dst_row
                <= pos < dst_offsets[rhs[u] as int] + bytes.len() * dst_row + bytes.len())
                ==> after[pos] == before[pos],
        // what held before this column
        forall|v: int, b: int|
            0 <= v < u && 0 <= b < dst_arch[rhs[v] as int].size
                ==> #[trigger] crate::archetype_data_page::cell_byte(
                before,
                dst_offsets,
                dst_arch,
                rhs[v] as int,
                dst_row,
                b,
            ) == crate::archetype_data_page::cell_byte(
                src_data,
                prev_offsets,
                prev_arch,
                lhs[v] as int,
                prev_row,
                b,
            ),
        forall|pos: int|
            0 <= pos < PAGE_SIZE_BYTES && (forall|v: int|
                0 <= v < u ==> !crate::archetype_data_page::in_cell(
                    dst_offsets,
                    dst_arch,
                    rhs[v] as int,
                    dst_row,
                    pos,
                )) ==> before[pos] == mid_data[pos],
    ensures
        forall|v: int, b: int|
            0 <= v < u + 1 && 0 <= b < dst_arch[rhs[v] as int].size
                ==> #[trigger] crate::archetype_data_page::cell_byte(
                after,
                dst_offsets,
                dst_arch,
                rhs[v] as int,
                dst_row,
                b,
            ) == crate::archetype_data_page::cell_byte(
                src_data,
                prev_offsets,
                prev_arch,
                lhs[v] as int,
                prev_row,
                b,
            ),
        forall|pos: int|
            0 <= pos < PAGE_SIZE_BYTES && (forall|v: int|
                0 <= v < u + 1 ==> !crate::archetype_data_page::in_cell(
                    dst_offsets,
                    dst_arch,
                    rhs[v] as int,
                    dst_row,
                    pos,
                )) ==> after[pos] == mid_data[pos],
{
    let dk = rhs[u] as int;
    assert forall|v: int, b: int|
        0 <= v < u + 1 && 0 <= b < dst_arch[rhs[v] as int].size
            implies #[trigger] crate::archetype_data_page::cell_byte(
        after,
        dst_offsets,
        dst_arch,
        rhs[v] as int,
        dst_row,
        b,
    ) == crate::archetype_data_page::cell_byte(
        src_data,
        prev_offsets,
        prev_arch,
        lhs[v] as int,
        prev_row,
        b,
    ) by {
        assert(lhs[v] < prev_arch.len() && rhs[v] < dst_arch.len());
        assert(lhs[u] < prev_arch.len() && rhs[u] < dst_arch.len());
        let dv = rhs[v] as int;
        crate::archetype_data_page::lemma_cell_bounds(dst_arch, dst_layout, dv, dst_row);
        crate::archetype_data_page::lemma_cell_bounds(dst_arch, dst_layout, dk, dst_row);
        let q = crate::archetype_data_page::cell_start(dst_offsets, dst_arch, dv, dst_row) + b;
        if v < u {
            assert(rhs[v] != rhs[u]);
            assert(crate::archetype_data_page::in_cell(dst_offsets, dst_arch, dv, dst_row, q));
            if crate::archetype_data_page::in_cell(dst_offsets, dst_arch, dk, dst_row, q) {
                crate::archetype_data_page::lemma_cells_disjoint(
                    dst_arch,
                    dst_layout,
                    dv,
                    dst_row,
                    dk,
                    dst_row,
                    q,
                );
            }
            assert(after[q] == before[q]);
            assert(crate::archetype_data_page::cell_byte(
                before,
                dst_offsets,
                dst_arch,
                rhs[v] as int,
                dst_row,
                b,
            ) == crate::archetype_data_page::cell_byte(
                src_data,
                prev_offsets,
                prev_arch,
                lhs[v] as int,
                prev_row,
                b,
            ));
        } else {
            assert(after[q] == bytes[b]);
            assert(bytes[b] == src_data[prev_offsets[lhs[u] as int] + prev_arch[lhs[u] as int].size
                * prev_row + b]);
        }
    }
    assert forall|pos: int|
        0 <= pos < PAGE_SIZE_BYTES && (forall|v: int|
            0 <= v < u + 1 ==> !crate::archetype_data_page::in_cell(
                dst_offsets,
                dst_arch,
                rhs[v] as int,
                dst_row,
                pos,
            )) implies after[pos] == mid_data[pos] by {
        assert(!crate::archetype_data_page::in_cell(dst_offsets, dst_arch, dk, dst_row, pos));
        assert(after[pos] == before[pos]);
    }
}

} // verus!

verus! {

/// Rewriting the byte contents of one page (its row list and capacity
/// untouched) preserves the container invariant.
pub proof fn lemma_wf_data_change(pre: ArchetypesContainer, post: ArchetypesContainer, p: int)
    requires
        pre.wf(),
        0 <= p < pre.pages@.len(),
        post.archetypes@ == pre.archetypes@,
        post.layouts@ == pre.layouts@,
        post.archetype_to_pages@ == pre.archetype_to_pages@,
        post.page_to_archetype@ == pre.page_to_archetype@,
        post.free_pages@ == pre.free_pages@,
        post.free_archetypes@ == pre.free_archetypes@,
        post.pages@.len() == pre.pages@.len(),
        forall|q: int| 0 <= q < pre.pages@.len() && q != p ==> (#[trigger] post.pages@[q]) == pre.pages@[q],
        post.pages@[p].wf(),
        post.pages@[p].capacity == pre.pages@[p].capacity,
        post.pages@[p].entities_ids@ == pre.pages@[p].entities_ids@,
    ensures
        post.wf(),
{
    assert forall|q: int|
        0 <= q < post.pages@.len() implies (#[trigger] post.pages@[q]).wf() by {
        if q != p {
            assert(pre.pages@[q].wf());
        }
    }
    assert forall|q: int|
        0 <= q < post.pages@.len() implies ((#[trigger] post.page_to_archetype@[q]) matches Some(
        b,
    ) ==> 0 <= b < post.archetypes@.len() && post.pages@[q].capacity == post.layouts@[
        b as int
    ].entities_capacity && post.archetype_to_pages@[b as int].pages@.contains(q as usize)) by {
        if post.page_to_archetype@[q] is Some {
            let bb = post.page_to_archetype@[q].unwrap();
            assert(pre.page_to_archetype@[q] == Some(bb));
            if q != p {
                assert(post.pages@[q] == pre.pages@[q]);
            }
        }
    }
    assert forall|q: int|
        0 <= q < post.pages@.len() && post.page_to_archetype@[q] is None implies (
    #[trigger] post.pages@[q]).entities_ids@.len() == 0 && post.free_pages@.contains(
        q as usize,
    ) by {
        assert(pre.page_to_archetype@[q] is None);
        if q != p {
            assert(post.pages@[q] == pre.pages@[q]);
        }
        assert(pre.pages@[q].entities_ids@.len() == 0);
        assert(pre.free_pages@.contains(q as usize));
    }
}

} // verus!
