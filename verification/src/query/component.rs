use vstd::prelude::*;

use crate::archetype::has_comp_id;
use crate::component_type::ComponentType;
use crate::entity::Entity;
use crate::query::access::ComponentQueryAccess;
use crate::store::Store;

verus! {

/// Whether the store would match this entity for a query over `types`:
/// alive, seated in a page row, and carrying every requested component.
pub open spec fn spec_matches(store: Store, types: Seq<ComponentType>, e: Entity) -> bool {
    &&& store.spec_is_alive(e)
    &&& store.spec_has_archetype(e.id as int)
    &&& forall|j: int|
        0 <= j < types.len() ==> has_comp_id(
            store.spec_archetype_of(e.id as int).unwrap(),
            (#[trigger] types[j]).id,
        )
}

/// Whether the entity id (with its current version) would be matched.
pub open spec fn spec_matches_id(store: Store, types: Seq<ComponentType>, id: u32) -> bool {
    &&& 0 <= id < store.spec_capacity()
    &&& store.entities_container.spec_alive(id as int)
    &&& store.spec_has_archetype(id as int)
    &&& forall|j: int|
        0 <= j < types.len() ==> has_comp_id(
            store.spec_archetype_of(id as int).unwrap(),
            (#[trigger] types[j]).id,
        )
}

/// What a matched entity's payload row must hold.
pub open spec fn values_match(
    store: Store,
    types: Seq<ComponentType>,
    id: u32,
    values: Seq<Vec<u8>>,
) -> bool {
    &&& values.len() == types.len()
    &&& forall|j: int|
        0 <= j < types.len() ==> (#[trigger] values[j])@ == store.spec_component_bytes(
            id as int,
            types[j].id,
        )
}

/// Whether entity `a`'s row comes before entity `b`'s row in the page
/// sweep: a lower page, or the same page and a lower row.
pub open spec fn spec_row_before(store: Store, a: Entity, b: Entity) -> bool {
    ||| store.spec_page_of(a.id as int) < store.spec_page_of(b.id as int)
    ||| (store.spec_page_of(a.id as int) == store.spec_page_of(b.id as int)
        && store.spec_row_of(a.id as int) < store.spec_row_of(b.id as int))
}

/// The positions of the entities in `s` that carry tag `tag`, in order.
pub open spec fn spec_tag_kept_indices(store: Store, tag: u64, s: Seq<Entity>) -> Seq<int>
    decreases s.len(),
{
    if s.len() == 0 {
        Seq::<int>::empty()
    } else {
        let init = spec_tag_kept_indices(store, tag, s.drop_last());
        if store.tag_container.spec_has_tag(tag, s.last().id as int) {
            init.push(s.len() - 1)
        } else {
            init
        }
    }
}

/// The kept positions are exactly those whose entity carries the tag,
/// listed in increasing order.
pub proof fn lemma_tag_kept_indices(store: Store, tag: u64, s: Seq<Entity>)
    ensures
        forall|k: int|
            0 <= k < spec_tag_kept_indices(store, tag, s).len() ==> 0 <= (
            #[trigger] spec_tag_kept_indices(store, tag, s)[k]) < s.len()
                && store.tag_container.spec_has_tag(
                tag,
                s[spec_tag_kept_indices(store, tag, s)[k]].id as int,
            ),
        forall|k1: int, k2: int|
            0 <= k1 < k2 < spec_tag_kept_indices(store, tag, s).len()
                ==> spec_tag_kept_indices(store, tag, s)[k1] < spec_tag_kept_indices(
                store,
                tag,
                s,
            )[k2],
        forall|i: int|
            0 <= i < s.len() && store.tag_container.spec_has_tag(tag, (#[trigger] s[i]).id as int)
                ==> spec_tag_kept_indices(store, tag, s).contains(i),
    decreases s.len(),
{
    if s.len() > 0 {
        lemma_tag_kept_indices(store, tag, s.drop_last());
        let init = spec_tag_kept_indices(store, tag, s.drop_last());
        let kept = spec_tag_kept_indices(store, tag, s);
        assert forall|i: int|
            0 <= i < s.len() && store.tag_container.spec_has_tag(tag, (#[trigger] s[i]).id as int)
                implies kept.contains(i) by {
            if i < s.len() - 1 {
                assert(s.drop_last()[i] == s[i]);
                assert(init.contains(i));
                let k = choose|k: int| 0 <= k < init.len() && init[k] == i;
                assert(kept[k] == i);
            } else {
                assert(kept[kept.len() - 1] == i);
            }
        }
        assert forall|k: int|
            0 <= k < kept.len() implies 0 <= (#[trigger] kept[k]) < s.len()
                && store.tag_container.spec_has_tag(tag, s[kept[k]].id as int) by {
            if k < init.len() {
                assert(kept[k] == init[k]);
                assert(s.drop_last()[init[k]] == s[init[k]]);
            }
        }
    }
}

/// A query over every entity that carries a set of component types.
pub struct ComponentQuery {
    pub access: ComponentQueryAccess,
}

/// A snapshot iterator over the matching rows: each yield is the owning
/// entity and one payload copy per requested component type.
pub struct ComponentsQueryIter {
    pub entities: Vec<Entity>,
    pub values: Vec<Vec<Vec<u8>>>,
    pub index: usize,
}

/// The same snapshot, yielding the entity along with the payloads.
pub struct WithEntitiesIter {
    pub entities: Vec<Entity>,
    pub values: Vec<Vec<Vec<u8>>>,
    pub index: usize,
}

/// The snapshot restricted to entities carrying a tag.
pub struct FilterTagIter {
    pub entities: Vec<Entity>,
    pub values: Vec<Vec<Vec<u8>>>,
    pub index: usize,
}

/// A query reading the given component types.
pub fn readonly(read_types: Vec<ComponentType>) -> (r: ComponentQuery)
    ensures
        r.access.component_types@ == read_types@,
{
    ComponentQuery { access: ComponentQueryAccess { component_types: read_types } }
}

/// A query writing the given component types (all payloads are yielded
/// as copies; writes go back through the store).
pub fn write(write_types: Vec<ComponentType>) -> (r: ComponentQuery)
    ensures
        r.access.component_types@ == write_types@,
{
    ComponentQuery { access: ComponentQueryAccess { component_types: write_types } }
}

/// A query reading one set of component types and writing another.
pub fn read_write(read_types: Vec<ComponentType>, write_types: Vec<ComponentType>) -> (r:
    ComponentQuery)
    ensures
        r.access.component_types@ == read_types@ + write_types@,
{
    let mut component_types = read_types;
    let mut w = write_types;
    component_types.append(&mut w);
    ComponentQuery { access: ComponentQueryAccess { component_types } }
}

impl ComponentQuery {
    /// A query over the given access.
    pub fn new(access: ComponentQueryAccess) -> (r: ComponentQuery)
        ensures
            r.access.component_types@ == access.component_types@,
    {
        ComponentQuery { access }
    }
}

/// A copy of a payload row.
pub(crate) fn copy_values(v: &Vec<Vec<u8>>) -> (r: Vec<Vec<u8>>)
    ensures
        r@.len() == v@.len(),
        forall|k: int| 0 <= k < v@.len() ==> (#[trigger] r@[k])@ == v@[k]@,
{
    let n = v.len();
    let mut r: Vec<Vec<u8>> = Vec::new();
    let mut k: usize = 0;
    while k < n
        invariant
            n == v@.len(),
            0 <= k <= n,
            r@.len() == k,
            forall|j: int| 0 <= j < k ==> (#[trigger] r@[j])@ == v@[j]@,
        decreases n - k,
    {
        let inner = &v[k];
        let m = inner.len();
        let mut c: Vec<u8> = Vec::new();
        let mut b: usize = 0;
        while b < m
            invariant
                m == inner@.len(),
                0 <= b <= m,
                c@.len() == b,
                forall|j: int| 0 <= j < b ==> c@[j] == inner@[j],
            decreases m - b,
        {
            c.push(inner[b]);
            b = b + 1;
        }
        proof {
            assert(c@ =~= inner@);
        }
        r.push(c);
        k = k + 1;
    }
    r
}

impl ComponentsQueryIter {
    /// How many rows the snapshot holds.
    pub fn len(&self) -> (r: usize)
        ensures
            r == self.entities@.len(),
    {
        self.entities.len()
    }

    /// The next payload row, if any.
    pub fn next(&mut self) -> (r: Option<Vec<Vec<u8>>>)
        requires
            old(self).values@.len() == old(self).entities@.len(),
        ensures
            final(self).entities@ == old(self).entities@,
            final(self).values@ == old(self).values@,
            old(self).index < old(self).entities@.len() ==> r is Some && final(self).index
                == old(self).index + 1 && r.unwrap()@.len() == old(self).values@[
                old(self).index as int
            ]@.len() && (forall|j: int|
                0 <= j < r.unwrap()@.len() ==> (#[trigger] r.unwrap()@[j])@ == old(self).values@[
                    old(self).index as int
                ]@[j]@),
            old(self).index >= old(self).entities@.len() ==> r is None && final(self).index == old(self).index,
    {
        if self.index < self.entities.len() {
            let v = copy_values(&self.values[self.index]);
            self.index = self.index + 1;
            Some(v)
        } else {
            None
        }
    }

    /// The same snapshot, yielding entities along with payloads.
    pub fn with_entities(self) -> (r: WithEntitiesIter)
        ensures
            r.entities@ == self.entities@,
            r.values@ == self.values@,
            r.index == self.index,
    {
        WithEntitiesIter { entities: self.entities, values: self.values, index: self.index }
    }
}

impl WithEntitiesIter {
    /// How many rows the snapshot holds.
    pub fn len(&self) -> (r: usize)
        ensures
            r == self.entities@.len(),
    {
        self.entities.len()
    }

    /// The next entity and its payload row, if any.
    pub fn next(&mut self) -> (r: Option<(Entity, Vec<Vec<u8>>)>)
        requires
            old(self).values@.len() == old(self).entities@.len(),
        ensures
            final(self).entities@ == old(self).entities@,
            final(self).values@ == old(self).values@,
            old(self).index < old(self).entities@.len() ==> r is Some && final(self).index
                == old(self).index + 1 && r.unwrap().0 == old(self).entities@[
                old(self).index as int
            ] && r.unwrap().1@.len() == old(self).values@[old(self).index as int]@.len() && (
            forall|j: int|
                0 <= j < r.unwrap().1@.len() ==> (#[trigger] r.unwrap().1@[j])@ == old(
                    self,
                ).values@[old(self).index as int]@[j]@),
            old(self).index >= old(self).entities@.len() ==> r is None && final(self).index == old(self).index,
    {
        if self.index < self.entities.len() {
            let e = self.entities[self.index];
            let v = copy_values(&self.values[self.index]);
            self.index = self.index + 1;
            Some((e, v))
        } else {
            None
        }
    }

    /// Restricts the snapshot to the entities carrying `tag`: exactly the
    /// tagged rows survive, in the snapshot's order, each with its
    /// payload row.
    #[verifier::loop_isolation(false)]
    #[verifier::rlimit(100)]
    #[verifier::spinoff_prover]
    pub fn filter_tag(self, store: &Store, tag: u64) -> (r: FilterTagIter)
        requires
            store.wf(),
            self.values@.len() == self.entities@.len(),
            forall|k: int|
                0 <= k < self.entities@.len() ==> ((#[trigger] self.entities@[k]).id as int)
                    < store.spec_capacity(),
        ensures
            r.values@.len() == r.entities@.len(),
            r.index == 0,
            ({
                let kept = spec_tag_kept_indices(*store, tag, self.entities@);
                &&& r.entities@.len() == kept.len()
                &&& forall|k: int|
                    0 <= k < kept.len() ==> 0 <= (#[trigger] kept[k]) < self.entities@.len()
                        && r.entities@[k] == self.entities@[kept[k]] && r.values@[k]@.len()
                        == self.values@[kept[k]]@.len() && (forall|j: int|
                        0 <= j < r.values@[k]@.len() ==> (#[trigger] r.values@[k]@[j])@
                            == self.values@[kept[k]]@[j]@)
            }),
    {
        proof {
            lemma_tag_kept_indices(*store, tag, self.entities@);
        }
        let n = self.entities.len();
        let mut entities: Vec<Entity> = Vec::new();
        let mut values: Vec<Vec<Vec<u8>>> = Vec::new();
        let mut k: usize = 0;
        while k < n
            invariant
                0 <= k <= n,
                entities@.len() == values@.len(),
                ({
                    let kept = spec_tag_kept_indices(
                        *store,
                        tag,
                        self.entities@.subrange(0, k as int),
                    );
                    &&& entities@.len() == kept.len()
                    &&& forall|m: int|
                        0 <= m < kept.len() ==> 0 <= (#[trigger] kept[m]) < k
                            && entities@[m] == self.entities@[kept[m]] && values@[m]@.len()
                            == self.values@[kept[m]]@.len() && (forall|j: int|
                            0 <= j < values@[m]@.len() ==> (#[trigger] values@[m]@[j])@
                                == self.values@[kept[m]]@[j]@)
                }),
            decreases n - k,
        {
            proof {
                let prefix = self.entities@.subrange(0, k as int);
                let next_prefix = self.entities@.subrange(0, k + 1);
                assert(next_prefix.drop_last() =~= prefix);
                assert(next_prefix.last() == self.entities@[k as int]);
            }
            let e = self.entities[k];
            if store.has_tag(e, tag) {
                entities.push(e);
                values.push(copy_values(&self.values[k]));
            }
            k = k + 1;
        }
        proof {
            assert(self.entities@.subrange(0, n as int) =~= self.entities@);
        }
        FilterTagIter { entities, values, index: 0 }
    }
}

impl FilterTagIter {
    /// How many rows the filtered snapshot holds.
    pub fn len(&self) -> (r: usize)
        ensures
            r == self.entities@.len(),
    {
        self.entities.len()
    }

    /// The next entity and its payload row, if any.
    pub fn next(&mut self) -> (r: Option<(Entity, Vec<Vec<u8>>)>)
        requires
            old(self).values@.len() == old(self).entities@.len(),
        ensures
            final(self).entities@ == old(self).entities@,
            final(self).values@ == old(self).values@,
            old(self).index < old(self).entities@.len() ==> r is Some && final(self).index
                == old(self).index + 1 && r.unwrap().0 == old(self).entities@[
                old(self).index as int
            ] && r.unwrap().1@.len() == old(self).values@[old(self).index as int]@.len() && (
            forall|j: int|
                0 <= j < r.unwrap().1@.len() ==> (#[trigger] r.unwrap().1@[j])@ == old(
                    self,
                ).values@[old(self).index as int]@[j]@),
            old(self).index >= old(self).entities@.len() ==> r is None && final(self).index == old(self).index,
    {
        if self.index < self.entities.len() {
            let e = self.entities[self.index];
            let v = copy_values(&self.values[self.index]);
            self.index = self.index + 1;
            Some((e, v))
        } else {
            None
        }
    }
}

impl Store {
    /// Takes a snapshot of every entity carrying all of the query's
    /// component types: each matching entity appears exactly once, with a
    /// copy of each requested payload, rows of one page in ascending row
    /// order.
    #[verifier::loop_isolation(false)]
    #[verifier::rlimit(100)]
    #[verifier::spinoff_prover]
    pub fn component_query_iter(&self, query: &ComponentQuery) -> (it: ComponentsQueryIter)
        requires
            self.wf(),
        ensures
            it.values@.len() == it.entities@.len(),
            it.index == 0,
            forall|k: int|
                0 <= k < it.entities@.len() ==> spec_matches(
                    *self,
                    query.access.component_types@,
                    #[trigger] it.entities@[k],
                ) && values_match(
                    *self,
                    query.access.component_types@,
                    it.entities@[k].id,
                    it.values@[k]@,
                ),
            forall|k1: int, k2: int|
                0 <= k1 < k2 < it.entities@.len() ==> it.entities@[k1].id != it.entities@[k2].id,
            // rows are visited page by page, within a page in increasing
            // row order
            forall|k1: int, k2: int|
                0 <= k1 < k2 < it.entities@.len() ==> spec_row_before(
                    *self,
                    it.entities@[k1],
                    it.entities@[k2],
                ),
            forall|id: u32|
                spec_matches_id(*self, query.access.component_types@, id) ==> exists|k: int|
                    0 <= k < it.entities@.len() && (#[trigger] it.entities@[k]).id == id,
    {
        let ghost types = query.access.component_types@;
        let type_ids = crate::query::entity_component::collect_type_ids(
            &query.access.component_types,
        );
        let mut entities: Vec<Entity> = Vec::new();
        let mut values: Vec<Vec<Vec<u8>>> = Vec::new();
        let pages_len = self.archetypes_container.pages.len();
        let mut p: usize = 0;
        while p < pages_len
            invariant
                entities@.len() == values@.len(),
                0 <= p <= pages_len,
                forall|k: int|
                    0 <= k < entities@.len() ==> spec_matches(
                        *self,
                        types,
                        #[trigger] entities@[k],
                    ) && values_match(*self, types, entities@[k].id, values@[k]@),
                forall|k: int|
                    0 <= k < entities@.len() ==> self.spec_page_of(
                        (#[trigger] entities@[k]).id as int,
                    ) < p,
                forall|id: u32|
                    spec_matches_id(*self, types, id) && self.spec_page_of(id as int) < p
                        ==> exists|k: int|
                        0 <= k < entities@.len() && (#[trigger] entities@[k]).id == id,
                forall|k1: int, k2: int|
                    0 <= k1 < k2 < entities@.len() ==> entities@[k1].id != entities@[k2].id,
                forall|k1: int, k2: int|
                    0 <= k1 < k2 < entities@.len() ==> spec_row_before(
                        *self,
                        entities@[k1],
                        entities@[k2],
                    ),
            decreases pages_len - p,
        {
            let bound = self.archetypes_container.page_to_archetype[p];
            let mut matched = false;
            match bound {
                Some(a) => {
                    if self.archetypes_container.archetypes[a].is_include_ids(
                        type_ids.as_slice(),
                    ) {
                        matched = true;
                    }
                },
                None => {},
            }
            if matched {
                let rows = self.archetypes_container.pages[p].entity_count();
                let mut row: usize = 0;
                while row < rows
                    invariant
                        entities@.len() == values@.len(),
                        0 <= row <= rows,
                        rows == self.archetypes_container.pages@[p as int].entities_ids@.len(),
                        forall|k: int|
                            0 <= k < entities@.len() ==> spec_matches(
                                *self,
                                types,
                                #[trigger] entities@[k],
                            ) && values_match(*self, types, entities@[k].id, values@[k]@),
                        forall|k: int|
                            0 <= k < entities@.len() ==> self.spec_page_of(
                                (#[trigger] entities@[k]).id as int,
                            ) < p || (self.spec_page_of(entities@[k].id as int) == p
                                && self.spec_row_of(entities@[k].id as int) < row),
                        forall|id: u32|
                            spec_matches_id(*self, types, id) && (self.spec_page_of(id as int) < p
                                || (self.spec_page_of(id as int) == p && self.spec_row_of(
                                id as int,
                            ) < row)) ==> exists|k: int|
                                0 <= k < entities@.len() && (#[trigger] entities@[k]).id == id,
                        forall|k1: int, k2: int|
                            0 <= k1 < k2 < entities@.len() ==> entities@[k1].id != entities@[
                                k2
                            ].id,
                        forall|k1: int, k2: int|
                            0 <= k1 < k2 < entities@.len() ==> spec_row_before(
                                *self,
                                entities@[k1],
                                entities@[k2],
                            ),
                    decreases rows - row,
                {
                    let id = self.archetypes_container.pages[p].entities_ids()[row];
                    let e = self.entity_by_id(id);
                    proof {
                        assert(self.spec_is_alive(e));
                        assert(self.spec_page_of(id as int) == p);
                        assert(self.spec_row_of(id as int) == row);
                        assert(self.spec_arch_index_of(id as int) == bound.unwrap());
                    }
                    let vals_opt = self.get_components_refs(e, query.access.component_types.as_slice());
                    let vals = vals_opt.unwrap();
                    proof {
                        assert forall|k: int|
                            0 <= k < entities@.len() implies (#[trigger] entities@[k]).id
                            != id by {
                            if entities@[k].id == id {
                                assert(self.spec_page_of(entities@[k].id as int) < p || (
                                self.spec_page_of(entities@[k].id as int) == p
                                    && self.spec_row_of(entities@[k].id as int) < row));
                            }
                        }
                    }
                    let ghost pre_entities = entities@;
                    entities.push(e);
                    values.push(vals);
                    proof {
                        assert forall|id2: u32|
                            spec_matches_id(*self, types, id2) && (self.spec_page_of(id2 as int)
                                < p || (self.spec_page_of(id2 as int) == p && self.spec_row_of(
                                id2 as int,
                            ) < row + 1)) implies exists|k: int|
                            0 <= k < entities@.len() && (#[trigger] entities@[k]).id == id2 by {
                            if self.spec_page_of(id2 as int) == p && self.spec_row_of(id2 as int)
                                == row {
                                assert(entities@[entities@.len() - 1].id == id);
                                assert(id2 == id) by {
                                    assert(self.entities_container.spec_alive(id2 as int));
                                    assert(self.spec_has_archetype(id2 as int));
                                    assert(self.archetypes_container.pages@[
                                        p as int
                                    ].entities_ids@[row as int] == id2);
                                }
                            } else {
                                let kk = choose|kk: int|
                                    0 <= kk < pre_entities.len() && (#[trigger] pre_entities[
                                        kk
                                    ]).id == id2;
                                assert(entities@[kk] == pre_entities[kk]);
                            }
                        }
                    }
                    row = row + 1;
                }
                proof {
                    assert forall|id2: u32|
                        spec_matches_id(*self, types, id2) && self.spec_page_of(id2 as int) < p
                            + 1 implies exists|k: int|
                        0 <= k < entities@.len() && (#[trigger] entities@[k]).id == id2 by {
                        if self.spec_page_of(id2 as int) == p {
                            assert(self.spec_row_of(id2 as int) < rows);
                        }
                    }
                }
            } else {
                proof {
                    assert forall|id2: u32|
                        spec_matches_id(*self, types, id2) && self.spec_page_of(id2 as int) < p
                            + 1 implies exists|k: int|
                        0 <= k < entities@.len() && (#[trigger] entities@[k]).id == id2 by {
                        if self.spec_page_of(id2 as int) == p {
                            assert(self.entities_container.spec_alive(id2 as int));
                            assert(self.spec_has_archetype(id2 as int));
                            assert(self.archetypes_container.spec_page_arch(p as int) is Some);
                            assert(bound is Some);
                            let a2 = bound.unwrap();
                            assert(self.spec_arch_index_of(id2 as int) == a2 as int);
                            let arch2 = self.archetypes_container.archetypes@[a2 as int];
                            assert(!(forall|j: int|
                                0 <= j < type_ids@.len() ==> arch2.has_id(
                                    #[trigger] type_ids@[j],
                                )));
                            let bad = choose|j: int|
                                0 <= j < type_ids@.len() && !arch2.has_id(type_ids@[j]);
                            assert(type_ids@[bad] == types[bad].id);
                            assert(has_comp_id(
                                self.spec_archetype_of(id2 as int).unwrap(),
                                types[bad].id,
                            ));
                            assert(false);
                        }
                    }
                }
            }
            p = p + 1;
        }
        proof {
            assert forall|id: u32|
                spec_matches_id(*self, types, id) implies exists|k: int|
                0 <= k < entities@.len() && (#[trigger] entities@[k]).id == id by {
                assert(self.spec_page_of(id as int) < pages_len);
            }
        }
        ComponentsQueryIter { entities, values, index: 0 }
    }
}

} // verus!
