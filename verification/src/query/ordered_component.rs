use vstd::prelude::*;

use crate::component_type::ComponentType;
use crate::entity::Entity;
use crate::query::access::ComponentQueryAccess;
use crate::query::component::{copy_values, spec_matches_id, values_match};
use crate::store::Store;

verus! {

/// The subsequence of member ids matched by the store for a query over
/// `types`, in forward-link order.
pub open spec fn spec_filtered_ids(store: Store, types: Seq<ComponentType>, s: Seq<u32>) -> Seq<
    u32,
>
    decreases s.len(),
{
    if s.len() == 0 {
        Seq::<u32>::empty()
    } else {
        let rest = spec_filtered_ids(store, types, s.drop_first());
        if spec_matches_id(store, types, s[0]) {
            seq![s[0]] + rest
        } else {
            rest
        }
    }
}

/// Filtering one more id at the end appends it exactly when it matches.
pub proof fn lemma_filtered_ids_snoc(store: Store, types: Seq<ComponentType>, s: Seq<u32>, id: u32)
    ensures
        spec_filtered_ids(store, types, s.push(id)) == (if spec_matches_id(store, types, id) {
            spec_filtered_ids(store, types, s).push(id)
        } else {
            spec_filtered_ids(store, types, s)
        }),
    decreases s.len(),
{
    if s.len() == 0 {
        assert(s.push(id)[0] == id);
        assert(s.push(id).drop_first() =~= Seq::<u32>::empty());
        assert(spec_filtered_ids(store, types, s.push(id).drop_first()) =~= Seq::<u32>::empty());
        assert(spec_filtered_ids(store, types, s) =~= Seq::<u32>::empty());
        if spec_matches_id(store, types, id) {
            assert(spec_filtered_ids(store, types, s.push(id)) == seq![id] + spec_filtered_ids(
                store,
                types,
                s.push(id).drop_first(),
            ));
            assert(spec_filtered_ids(store, types, s.push(id)) =~= spec_filtered_ids(
                store,
                types,
                s,
            ).push(id));
        }
    } else {
        assert(s.push(id)[0] == s[0]);
        assert(s.push(id).drop_first() =~= s.drop_first().push(id));
        lemma_filtered_ids_snoc(store, types, s.drop_first(), id);
        assert(spec_filtered_ids(store, types, s.push(id)) == (if spec_matches_id(store, types, s[0]) {
            seq![s[0]] + spec_filtered_ids(store, types, s.drop_first().push(id))
        } else {
            spec_filtered_ids(store, types, s.drop_first().push(id))
        }));
        assert(spec_filtered_ids(store, types, s) == (if spec_matches_id(store, types, s[0]) {
            seq![s[0]] + spec_filtered_ids(store, types, s.drop_first())
        } else {
            spec_filtered_ids(store, types, s.drop_first())
        }));
        if spec_matches_id(store, types, s[0]) {
            if spec_matches_id(store, types, id) {
                assert(spec_filtered_ids(store, types, s.push(id)) =~= spec_filtered_ids(
                    store,
                    types,
                    s,
                ).push(id));
            }
        }
    }
}

/// A query walking one order group's forward links, yielding the members
/// whose archetype carries every requested component.
pub struct OrderedComponentQuery {
    pub group: u64,
    pub access: ComponentQueryAccess,
}

/// A snapshot iterator over the matched members, in forward-link order.
pub struct OrderedComponentQueryIter {
    pub entities: Vec<Entity>,
    pub values: Vec<Vec<Vec<u8>>>,
    pub index: usize,
}

/// A query reading the given component types over group `group`.
pub fn readonly(group: u64, read_types: Vec<ComponentType>) -> (r: OrderedComponentQuery)
    ensures
        r.group == group,
        r.access.component_types@ == read_types@,
{
    OrderedComponentQuery { group, access: ComponentQueryAccess { component_types: read_types } }
}

/// A query reading one set of component types and writing another.
pub fn read_write(group: u64, read_types: Vec<ComponentType>, write_types: Vec<ComponentType>)
    -> (r: OrderedComponentQuery)
    ensures
        r.group == group,
        r.access.component_types@ == read_types@ + write_types@,
{
    let mut component_types = read_types;
    let mut w = write_types;
    component_types.append(&mut w);
    OrderedComponentQuery { group, access: ComponentQueryAccess { component_types } }
}

/// A query writing the given component types over group `group`.
pub fn write(group: u64, write_types: Vec<ComponentType>) -> (r: OrderedComponentQuery)
    ensures
        r.group == group,
        r.access.component_types@ == write_types@,
{
    OrderedComponentQuery { group, access: ComponentQueryAccess { component_types: write_types } }
}

impl OrderedComponentQuery {
    /// A query over the given group and access.
    pub fn new(group: u64, access: ComponentQueryAccess) -> (r: OrderedComponentQuery)
        ensures
            r.group == group,
            r.access.component_types@ == access.component_types@,
    {
        OrderedComponentQuery { group, access }
    }
}

impl OrderedComponentQueryIter {
    /// How many members matched.
    pub fn len(&self) -> (r: usize)
        ensures
            r == self.entities@.len(),
    {
        self.entities.len()
    }

    /// The same snapshot (the entities are already carried along).
    pub fn with_entities(self) -> (r: OrderedComponentQueryIter)
        ensures
            r == self,
    {
        self
    }

    /// The next matched member and its payload row, if any.
    pub fn next(&mut self) -> (r: Option<(Entity, Vec<Vec<u8>>)>)
        requires
            old(self).values@.len() == old(self).entities@.len(),
        ensures
            final(self).entities@ == old(self).entities@,
            final(self).values@ == old(self).values@,
            old(self).index < old(self).entities@.len() ==> r is Some && final(self).index
                == old(self).index + 1 && r.unwrap().0 == old(self).entities@[
                old(self).index as int
            ] && r.unwrap().1@.len() == old(self).values@[old(self).index as int]@.len() && (
            forall|j: int|
                0 <= j < r.unwrap().1@.len() ==> (#[trigger] r.unwrap().1@[j])@ == old(
                    self,
                ).values@[old(self).index as int]@[j]@),
            old(self).index >= old(self).entities@.len() ==> r is None && final(self).index == old(self).index,
    {
        if self.index < self.entities.len() {
            let e = self.entities[self.index];
            let v = copy_values(&self.values[self.index]);
            self.index = self.index + 1;
            Some((e, v))
        } else {
            None
        }
    }
}

impl Store {
    /// Walks group `G`'s forward links from the head: the yields are
    /// exactly the members whose archetype carries every requested
    /// component, in link order, each with its payload copies.
    #[verifier::loop_isolation(false)]
    #[verifier::rlimit(100)]
    #[verifier::spinoff_prover]
    pub fn ordered_query_iter(&self, query: &OrderedComponentQuery) -> (it:
        OrderedComponentQueryIter)
        requires
            self.wf(),
        ensures
            it.values@.len() == it.entities@.len(),
            it.index == 0,
            ({
                let matched = spec_filtered_ids(
                    *self,
                    query.access.component_types@,
                    self.order_group_container.spec_order(query.group),
                );
                &&& it.entities@.len() == matched.len()
                &&& forall|k: int|
                    0 <= k < matched.len() ==> (#[trigger] it.entities@[k]).id == matched[k]
                        && it.entities@[k].version == self.entities_container.spec_version(
                        matched[k] as int,
                    ) && values_match(
                        *self,
                        query.access.component_types@,
                        matched[k],
                        it.values@[k]@,
                    )
            }),
    {
        let ghost types = query.access.component_types@;
        let ghost ord = self.order_group_container.spec_order(query.group);
        proof {
            crate::order_group_container::lemma_order_shape(
                self.order_group_container,
                query.group,
            );
        }
        let mut entities: Vec<Entity> = Vec::new();
        let mut values: Vec<Vec<Vec<u8>>> = Vec::new();
        let mut cur = self.order_group_container.get_head_id(query.group);
        let ghost mut j: int = 0;
        proof {
            if ord.len() > 0 {
                assert(cur == Some(ord[0]));
            } else {
                assert(cur is None);
            }
        }
        while cur.is_some()
            invariant
                0 <= j <= ord.len(),
                cur == (if j < ord.len() {
                    Some(ord[j])
                } else {
                    None::<u32>
                }),
                entities@.len() == values@.len(),
                ({
                    let matched = spec_filtered_ids(*self, types, ord.subrange(0, j));
                    &&& entities@.len() == matched.len()
                    &&& forall|k: int|
                        0 <= k < matched.len() ==> (#[trigger] entities@[k]).id == matched[k]
                            && entities@[k].version == self.entities_container.spec_version(
                            matched[k] as int,
                        ) && values_match(*self, types, matched[k], values@[k]@)
                }),
            decreases ord.len() - j,
        {
            let id = cur.unwrap();
            proof {
                assert(ord[j] == id);
                assert((id as int) < self.spec_capacity());
                assert(ord.subrange(0, j + 1) =~= ord.subrange(0, j).push(id));
                lemma_filtered_ids_snoc(*self, types, ord.subrange(0, j), id);
            }
            let e = self.entity_by_id(id);
            match self.get_components_refs(e, query.access.component_types.as_slice()) {
                Some(vals) => {
                    proof {
                        assert(spec_matches_id(*self, types, id));
                    }
                    entities.push(e);
                    values.push(vals);
                },
                None => {
                    proof {
                        assert(!spec_matches_id(*self, types, id));
                    }
                },
            }
            cur = self.order_group_container.get_next_id_ordered_by(query.group, id);
            proof {
                crate::order_group_container::lemma_order_next(
                    self.order_group_container,
                    query.group,
                    id,
                    j,
                );
                j = j + 1;
            }
        }
        proof {
            assert(ord.subrange(0, j) =~= ord);
        }
        OrderedComponentQueryIter { entities, values, index: 0 }
    }
}

} // verus!
