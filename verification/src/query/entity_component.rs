use vstd::prelude::*;

use crate::component_type::ComponentType;
use crate::entity::Entity;
use crate::query::access::ComponentQueryAccess;
use crate::query::component::{copy_values, spec_matches, values_match};
use crate::store::Store;

verus! {

/// The subsequence of `s` matched by the store for a query over `types`,
/// in the order given.
pub open spec fn spec_filtered(store: Store, types: Seq<ComponentType>, s: Seq<Entity>) -> Seq<
    Entity,
>
    decreases s.len(),
{
    if s.len() == 0 {
        Seq::<Entity>::empty()
    } else {
        let rest = spec_filtered(store, types, s.drop_first());
        if spec_matches(store, types, s[0]) {
            seq![s[0]] + rest
        } else {
            rest
        }
    }
}

/// Filtering one more entity at the end appends it exactly when it
/// matches.
pub proof fn lemma_filtered_snoc(store: Store, types: Seq<ComponentType>, s: Seq<Entity>, e: Entity)
    ensures
        spec_filtered(store, types, s.push(e)) == (if spec_matches(store, types, e) {
            spec_filtered(store, types, s).push(e)
        } else {
            spec_filtered(store, types, s)
        }),
    decreases s.len(),
{
    if s.len() == 0 {
        assert(s.push(e)[0] == e);
        assert(s.push(e).drop_first() =~= Seq::<Entity>::empty());
        assert(spec_filtered(store, types, s.push(e).drop_first()) =~= Seq::<Entity>::empty());
        assert(spec_filtered(store, types, s) =~= Seq::<Entity>::empty());
        if spec_matches(store, types, e) {
            assert(spec_filtered(store, types, s.push(e)) == seq![e] + spec_filtered(
                store,
                types,
                s.push(e).drop_first(),
            ));
            assert(spec_filtered(store, types, s.push(e)) =~= spec_filtered(
                store,
                types,
                s,
            ).push(e));
        }
    } else {
        assert(s.push(e)[0] == s[0]);
        assert(s.push(e).drop_first() =~= s.drop_first().push(e));
        lemma_filtered_snoc(store, types, s.drop_first(), e);
        assert(spec_filtered(store, types, s.push(e)) == (if spec_matches(store, types, s[0]) {
            seq![s[0]] + spec_filtered(store, types, s.drop_first().push(e))
        } else {
            spec_filtered(store, types, s.drop_first().push(e))
        }));
        assert(spec_filtered(store, types, s) == (if spec_matches(store, types, s[0]) {
            seq![s[0]] + spec_filtered(store, types, s.drop_first())
        } else {
            spec_filtered(store, types, s.drop_first())
        }));
        if spec_matches(store, types, s[0]) {
            if spec_matches(store, types, e) {
                assert(spec_filtered(store, types, s.push(e)) =~= spec_filtered(
                    store,
                    types,
                    s,
                ).push(e));
            }
        }
    }
}

/// A query over an externally supplied entity list: the matched entities
/// are visited in the list's order.
pub struct EntityComponentQuery {
    pub access: ComponentQueryAccess,
}

/// A snapshot iterator over the matched entities of the supplied list.
pub struct EntityComponentQueryIter {
    pub entities: Vec<Entity>,
    pub values: Vec<Vec<Vec<u8>>>,
    pub index: usize,
}

/// A query reading the given component types.
pub fn readonly(read_types: Vec<ComponentType>) -> (r: EntityComponentQuery)
    ensures
        r.access.component_types@ == read_types@,
{
    EntityComponentQuery { access: ComponentQueryAccess { component_types: read_types } }
}

/// A query writing the given component types.
pub fn write(write_types: Vec<ComponentType>) -> (r: EntityComponentQuery)
    ensures
        r.access.component_types@ == write_types@,
{
    EntityComponentQuery { access: ComponentQueryAccess { component_types: write_types } }
}

/// A query reading one set of component types and writing another.
pub fn read_write(read_types: Vec<ComponentType>, write_types: Vec<ComponentType>) -> (r:
    EntityComponentQuery)
    ensures
        r.access.component_types@ == read_types@ + write_types@,
{
    let mut component_types = read_types;
    let mut w = write_types;
    component_types.append(&mut w);
    EntityComponentQuery { access: ComponentQueryAccess { component_types } }
}

impl EntityComponentQuery {
    /// A query over the given access.
    pub fn new(access: ComponentQueryAccess) -> (r: EntityComponentQuery)
        ensures
            r.access.component_types@ == access.component_types@,
    {
        EntityComponentQuery { access }
    }
}

/// The ids of a component type list, in order.
pub(crate) fn collect_type_ids(types: &Vec<ComponentType>) -> (r: Vec<u64>)
    ensures
        r@.len() == types@.len(),
        forall|j: int| 0 <= j < types@.len() ==> r@[j] == (#[trigger] types@[j]).id,
{
    let n = types.len();
    let mut r: Vec<u64> = Vec::new();
    let mut j: usize = 0;
    while j < n
        invariant
            n == types@.len(),
            0 <= j <= n,
            r@.len() == j,
            forall|i: int| 0 <= i < j ==> r@[i] == (#[trigger] types@[i]).id,
        decreases n - j,
    {
        r.push(types[j].id());
        j = j + 1;
    }
    r
}

impl EntityComponentQueryIter {
    /// How many entities matched.
    pub fn len(&self) -> (r: usize)
        ensures
            r == self.entities@.len(),
    {
        self.entities.len()
    }

    /// The same iterator: it already yields each entity with its payload
    /// row.
    pub fn with_entities(self) -> (r: EntityComponentQueryIter)
        ensures
            r == self,
    {
        self
    }

    /// The next matched entity and its payload row, if any.
    pub fn next(&mut self) -> (r: Option<(Entity, Vec<Vec<u8>>)>)
        requires
            old(self).values@.len() == old(self).entities@.len(),
        ensures
            final(self).entities@ == old(self).entities@,
            final(self).values@ == old(self).values@,
            old(self).index < old(self).entities@.len() ==> r is Some && final(self).index
                == old(self).index + 1 && r.unwrap().0 == old(self).entities@[
                old(self).index as int
            ] && r.unwrap().1@.len() == old(self).values@[old(self).index as int]@.len() && (
            forall|j: int|
                0 <= j < r.unwrap().1@.len() ==> (#[trigger] r.unwrap().1@[j])@ == old(
                    self,
                ).values@[old(self).index as int]@[j]@),
            old(self).index >= old(self).entities@.len() ==> r is None && final(self).index == old(self).index,
    {
        if self.index < self.entities.len() {
            let e = self.entities[self.index];
            let v = copy_values(&self.values[self.index]);
            self.index = self.index + 1;
            Some((e, v))
        } else {
            None
        }
    }
}

impl Store {
    /// Visits the supplied entities in order, skipping those that are
    /// dead or whose archetype lacks a requested component: the yields
    /// are exactly the matching subsequence, each with its payloads.
    #[verifier::loop_isolation(false)]
    #[verifier::rlimit(100)]
    #[verifier::spinoff_prover]
    pub fn entity_component_query_iter(
        &self,
        entities: &[Entity],
        query: &EntityComponentQuery,
    ) -> (it: EntityComponentQueryIter)
        requires
            self.wf(),
        ensures
            it.values@.len() == it.entities@.len(),
            it.index == 0,
            it.entities@ == spec_filtered(*self, query.access.component_types@, entities@),
            forall|k: int|
                0 <= k < it.entities@.len() ==> values_match(
                    *self,
                    query.access.component_types@,
                    (#[trigger] it.entities@[k]).id,
                    it.values@[k]@,
                ),
    {
        let ghost types = query.access.component_types@;
        let n = entities.len();
        let mut kept: Vec<Entity> = Vec::new();
        let mut values: Vec<Vec<Vec<u8>>> = Vec::new();
        let mut i: usize = 0;
        while i < n
            invariant
                0 <= i <= n,
                kept@.len() == values@.len(),
                kept@ == spec_filtered(*self, types, entities@.subrange(0, i as int)),
                forall|k: int|
                    0 <= k < kept@.len() ==> values_match(
                        *self,
                        types,
                        (#[trigger] kept@[k]).id,
                        values@[k]@,
                    ),
            decreases n - i,
        {
            proof {
                assert(entities@.subrange(0, i + 1) =~= entities@.subrange(0, i as int).push(
                    entities@[i as int],
                ));
                lemma_filtered_snoc(
                    *self,
                    types,
                    entities@.subrange(0, i as int),
                    entities@[i as int],
                );
            }
            let e = entities[i];
            match self.get_components_refs(e, query.access.component_types.as_slice()) {
                Some(vals) => {
                    kept.push(e);
                    values.push(vals);
                },
                None => {},
            }
            i = i + 1;
        }
        proof {
            assert(entities@.subrange(0, n as int) =~= entities@);
        }
        EntityComponentQueryIter { entities: kept, values, index: 0 }
    }
}

} // verus!
