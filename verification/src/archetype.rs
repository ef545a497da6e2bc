use vstd::prelude::*;

use crate::component_type::ComponentType;

verus! {

/// The ids of a component sequence, in order.
pub open spec fn comp_ids(s: Seq<ComponentType>) -> Seq<u64> {
    s.map_values(|c: ComponentType| c.id)
}

/// Whether a component sequence is sorted strictly by id: the canonical
/// form of an archetype (sortedness gives uniqueness of ids).
pub open spec fn sorted_by_id(s: Seq<ComponentType>) -> bool {
    forall|i: int, j: int| 0 <= i < j < s.len() ==> s[i].id < s[j].id
}

/// Whether some component of `s` carries the id `id`.
pub open spec fn has_comp_id(s: Seq<ComponentType>, id: u64) -> bool {
    exists|k: int| 0 <= k < s.len() && s[k].id == id
}

/// Whether two component sequences agree in ids, sizes and alignments
/// position by position (names may differ).
pub open spec fn comps_equiv(s1: Seq<ComponentType>, s2: Seq<ComponentType>) -> bool {
    &&& s1.len() == s2.len()
    &&& forall|k: int|
        0 <= k < s1.len() ==> (#[trigger] s1[k]).id == s2[k].id && s1[k].size == s2[k].size
            && s1[k].align == s2[k].align
}

/// The first index of the component with id `id` in `s`.
pub open spec fn comp_index_of(s: Seq<ComponentType>, id: u64) -> int
    decreases s.len(),
{
    if s.len() == 0 {
        0
    } else if s[0].id == id {
        0
    } else {
        1 + comp_index_of(s.drop_first(), id)
    }
}

/// When `s` holds `id`, `comp_index_of` points at it.
pub proof fn lemma_comp_index_of(s: Seq<ComponentType>, id: u64)
    requires
        has_comp_id(s, id),
    ensures
        0 <= comp_index_of(s, id) < s.len(),
        s[comp_index_of(s, id)].id == id,
        forall|i: int| 0 <= i < comp_index_of(s, id) ==> s[i].id != id,
    decreases s.len(),
{
    if s.len() > 0 && s[0].id != id {
        let k = choose|k: int| 0 <= k < s.len() && s[k].id == id;
        assert(s.drop_first()[k - 1].id == id);
        lemma_comp_index_of(s.drop_first(), id);
        assert forall|i: int| 0 <= i < comp_index_of(s, id) implies s[i].id != id by {
            if i > 0 {
                assert(s.drop_first()[i - 1].id != id);
                assert(s.drop_first()[i - 1] == s[i]);
            }
        }
    }
}

/// A canonical set of component types: a vector sorted strictly by id.
/// Archetypes are immutable after construction; the `ArchetypeBuilder`
/// produces new ones.
#[derive(Debug)]
pub struct Archetype {
    pub component_types: Vec<ComponentType>,
}

impl View for Archetype {
    type V = Seq<ComponentType>;

    open spec fn view(&self) -> Seq<ComponentType> {
        self.component_types@
    }
}

impl Archetype {
    /// Canonical form: ids strictly increasing.
    pub open spec fn wf(self) -> bool {
        sorted_by_id(self@)
    }

    /// The id sequence of this archetype.
    pub open spec fn ids(self) -> Seq<u64> {
        comp_ids(self@)
    }

    /// Whether this archetype carries a component with the given id.
    pub open spec fn has_id(self, id: u64) -> bool {
        has_comp_id(self@, id)
    }

    /// Builds the canonical archetype over the given component types:
    /// duplicates (by id) are dropped, the rest is sorted by id.
    pub fn with_components(component_types: &[ComponentType]) -> (r: Archetype)
        ensures
            r.wf(),
            r@ == crate::archetype_builder::sort_by_id_spec(
                crate::archetype_builder::include_all(
                    Seq::<ComponentType>::empty(),
                    component_types@,
                ),
            ),
            forall|id: u64| r.has_id(id) <==> has_comp_id(component_types@, id),
            forall|i: int| 0 <= i < r@.len() ==> component_types@.contains(r@[i]),
    {
        let builder = crate::archetype_builder::ArchetypeBuilder::new().include_component_types(
            component_types,
        );
        let r = builder.build();
        proof {
            crate::archetype_builder::lemma_include_all_props(
                Seq::<ComponentType>::empty(),
                component_types@,
            );
            assert forall|i: int| 0 <= i < r@.len() implies component_types@.contains(r@[i]) by {
                assert(r@.contains(r@[i]));
            }
        }
        r
    }

    /// Wraps an already-sorted component vector.
    pub(crate) fn new(sorted_components: Vec<ComponentType>) -> (r: Archetype)
        requires
            sorted_by_id(sorted_components@),
        ensures
            r@ == sorted_components@,
            r.wf(),
    {
        Archetype { component_types: sorted_components }
    }

    /// Whether the archetype carries a component with this id.
    #[inline(always)]
    pub fn has_component(&self, type_id: u64) -> (r: bool)
        ensures
            r == self.has_id(type_id),
    {
        self.find_component_index(type_id).is_some()
    }

    /// Same as [`Self::find_component_index`].
    pub fn find_component_index_of(&self, type_id: u64) -> (r: Option<usize>)
        ensures
            r matches Some(i) ==> 0 <= i < self@.len() && self@[i as int].id == type_id,
            r is Some <==> self.has_id(type_id),
    {
        self.find_component_index(type_id)
    }

    /// The index of the component with id `type_id`, if the archetype
    /// carries it.
    pub fn find_component_index(&self, type_id: u64) -> (r: Option<usize>)
        ensures
            r matches Some(i) ==> 0 <= i < self@.len() && self@[i as int].id == type_id,
            r is Some <==> self.has_id(type_id),
    {
        let n = self.component_types.len();
        let mut i: usize = 0;
        while i < n
            invariant
                n == self@.len(),
                0 <= i <= n,
                forall|k: int| 0 <= k < i ==> self@[k].id != type_id,
            decreases n - i,
        {
            if self.component_types[i].id == type_id {
                return Some(i);
            }
            i = i + 1;
        }
        None
    }

    /// How many component types the archetype carries.
    #[inline]
    pub fn component_count(&self) -> (r: usize)
        ensures
            r == self@.len(),
    {
        self.component_types.len()
    }

    /// The components in canonical order.
    #[inline]
    pub fn components(&self) -> (r: &Vec<ComponentType>)
        ensures
            r@ == self@,
    {
        &self.component_types
    }

    /// The component at a canonical index.
    #[inline]
    pub fn component_at(&self, index: usize) -> (r: ComponentType)
        requires
            index < self@.len(),
        ensures
            r == self@[index as int],
    {
        self.component_types[index]
    }

    /// Whether the two archetypes carry exactly the same id sequence.
    pub fn is_same_as(&self, other: &Self) -> (r: bool)
        ensures
            r <==> self.ids() == other.ids(),
    {
        let n = self.component_types.len();
        if n != other.component_types.len() {
            proof {
                assert(self.ids().len() != other.ids().len());
            }
            return false;
        }

        let mut i: usize = 0;
        while i < n
            invariant
                n == self@.len(),
                n == other@.len(),
                0 <= i <= n,
                forall|k: int| 0 <= k < i ==> self@[k].id == other@[k].id,
            decreases n - i,
        {
            if self.component_types[i].id != other.component_types[i].id {
                proof {
                    assert(self.ids()[i as int] != other.ids()[i as int]);
                }
                return false;
            }
            i = i + 1;
        }
        proof {
            assert(self.ids() =~= other.ids());
        }
        true
    }

    /// Whether every id of `other` appears in `self`.
    #[inline(always)]
    pub fn is_include(&self, other: &Self) -> (r: bool)
        ensures
            r <==> (forall|k: int| 0 <= k < other@.len() ==> self.has_id(other@[k].id)),
    {
        let n = other.component_types.len();
        let mut i: usize = 0;
        while i < n
            invariant
                n == other@.len(),
                0 <= i <= n,
                forall|k: int| 0 <= k < i ==> self.has_id(other@[k].id),
            decreases n - i,
        {
            if !self.has_component(other.component_types[i].id) {
                return false;
            }
            i = i + 1;
        }
        true
    }

    /// Whether every id in `ids_to_check` appears in `self`.
    pub fn is_include_ids(&self, ids_to_check: &[u64]) -> (r: bool)
        ensures
            r <==> (forall|k: int| 0 <= k < ids_to_check@.len() ==> self.has_id(ids_to_check@[k])),
    {
        let n = ids_to_check.len();
        let mut i: usize = 0;
        while i < n
            invariant
                n == ids_to_check@.len(),
                0 <= i <= n,
                forall|k: int| 0 <= k < i ==> self.has_id(ids_to_check@[k]),
            decreases n - i,
        {
            if !self.has_component(ids_to_check[i]) {
                return false;
            }
            i = i + 1;
        }
        true
    }

    /// Whether `self` carries exactly the ids in `ids_to_check`: every id
    /// appears, and the lengths match.
    pub fn is_include_only_ids(&self, ids_to_check: &[u64]) -> (r: bool)
        ensures
            r <==> ((forall|k: int|
                0 <= k < ids_to_check@.len() ==> self.has_id(ids_to_check@[k]))
                && self@.len() == ids_to_check@.len()),
    {
        if self.component_types.len() != ids_to_check.len() {
            return false;
        }
        self.is_include_ids(ids_to_check)
    }

    /// Whether `self` and `other` share no id.
    #[inline(always)]
    pub fn is_exclude(&self, other: &Self) -> (r: bool)
        ensures
            r <==> (forall|k: int| 0 <= k < other@.len() ==> !self.has_id(other@[k].id)),
    {
        let n = other.component_types.len();
        let mut i: usize = 0;
        while i < n
            invariant
                n == other@.len(),
                0 <= i <= n,
                forall|k: int| 0 <= k < i ==> !self.has_id(other@[k].id),
            decreases n - i,
        {
            if self.has_component(other.component_types[i].id) {
                return false;
            }
            i = i + 1;
        }
        true
    }

    /// Whether `self` carries none of the ids in `ids_to_check`.
    pub fn is_exclude_ids(&self, ids_to_check: &[u64]) -> (r: bool)
        ensures
            r <==> (forall|k: int| 0 <= k < ids_to_check@.len() ==> !self.has_id(ids_to_check@[k])),
    {
        let n = ids_to_check.len();
        let mut i: usize = 0;
        while i < n
            invariant
                n == ids_to_check@.len(),
                0 <= i <= n,
                forall|k: int| 0 <= k < i ==> !self.has_id(ids_to_check@[k]),
            decreases n - i,
        {
            if self.has_component(ids_to_check[i]) {
                return false;
            }
            i = i + 1;
        }
        true
    }

    /// A copy of the id sequence, in canonical order.
    pub fn included_ids(&self) -> (r: Vec<u64>)
        ensures
            r@ == self.ids(),
    {
        let n = self.component_types.len();
        let mut r: Vec<u64> = Vec::new();
        let mut i: usize = 0;
        while i < n
            invariant
                n == self@.len(),
                0 <= i <= n,
                r@.len() == i,
                forall|k: int| 0 <= k < i ==> r@[k] == self@[k].id,
            decreases n - i,
        {
            r.push(self.component_types[i].id);
            i = i + 1;
        }
        proof {
            assert(r@ =~= self.ids());
        }
        r
    }
}

impl Clone for Archetype {
    /// Clones keep the component sequence exactly.
    fn clone(&self) -> (r: Self)
        ensures
            r@ == self@,
    {
        let n = self.component_types.len();
        let mut component_types: Vec<ComponentType> = Vec::new();
        let mut i: usize = 0;
        while i < n
            invariant
                n == self@.len(),
                0 <= i <= n,
                component_types@.len() == i,
                forall|k: int| 0 <= k < i ==> component_types@[k] == self@[k],
            decreases n - i,
        {
            component_types.push(self.component_types[i]);
            i = i + 1;
        }
        proof {
            assert(component_types@ =~= self@);
        }
        Archetype { component_types }
    }
}

/// The positions at which two archetypes carry the same component id:
/// `lhs_indices[k]` and `rhs_indices[k]` point at components with equal
/// ids.  Used to copy the overlapping columns when an entity migrates
/// between archetypes.
pub struct ArchetypesUnion {
    pub lhs_indices: Vec<usize>,
    pub rhs_indices: Vec<usize>,
}

impl ArchetypesUnion {
    /// Matches the common ids of two canonical archetypes, in increasing
    /// id order, one index pair per common id, covering every common id.
    #[verifier::rlimit(100)]
    #[verifier::spinoff_prover]
    pub fn calculate(lhs: &Archetype, rhs: &Archetype) -> (r: ArchetypesUnion)
        requires
            lhs.wf(),
            rhs.wf(),
        ensures
            r.lhs_indices@.len() == r.rhs_indices@.len(),
            forall|k: int|
                0 <= k < r.lhs_indices@.len() ==> r.lhs_indices@[k] < lhs@.len()
                    && r.rhs_indices@[k] < rhs@.len() && lhs@[r.lhs_indices@[k] as int].id
                    == rhs@[r.rhs_indices@[k] as int].id,
            forall|k1: int, k2: int|
                0 <= k1 < k2 < r.lhs_indices@.len() ==> r.lhs_indices@[k1] < r.lhs_indices@[k2]
                    && r.rhs_indices@[k1] < r.rhs_indices@[k2],
            forall|i: int, j: int|
                #![trigger lhs@[i], rhs@[j]]
                0 <= i < lhs@.len() && 0 <= j < rhs@.len() && lhs@[i].id == rhs@[j].id
                    ==> exists|k: int|
                    0 <= k < r.lhs_indices@.len() && r.lhs_indices@[k] == i && r.rhs_indices@[k]
                        == j,
    {
        let lhs_len = lhs.component_types.len();
        let rhs_len = rhs.component_types.len();
        let mut lhs_indices: Vec<usize> = Vec::new();
        let mut rhs_indices: Vec<usize> = Vec::new();

        let mut li: usize = 0;
        let mut ri: usize = 0;
        while li < lhs_len && ri < rhs_len
            invariant
                lhs.wf(),
                rhs.wf(),
                lhs_len == lhs@.len(),
                rhs_len == rhs@.len(),
                0 <= li <= lhs_len,
                0 <= ri <= rhs_len,
                lhs_indices@.len() == rhs_indices@.len(),
                forall|k: int|
                    0 <= k < lhs_indices@.len() ==> lhs_indices@[k] < li && rhs_indices@[k] < ri
                        && lhs@[lhs_indices@[k] as int].id == rhs@[rhs_indices@[k] as int].id,
                forall|k1: int, k2: int|
                    0 <= k1 < k2 < lhs_indices@.len() ==> lhs_indices@[k1] < lhs_indices@[k2]
                        && rhs_indices@[k1] < rhs_indices@[k2],
                forall|i: int, j: int|
                    #![trigger lhs@[i], rhs@[j]]
                    0 <= i < li && 0 <= j < rhs@.len() && lhs@[i].id == rhs@[j].id ==> exists|
                        k: int,
                    |
                        0 <= k < lhs_indices@.len() && lhs_indices@[k] == i && rhs_indices@[k]
                            == j,
                forall|i: int, j: int|
                    #![trigger lhs@[i], rhs@[j]]
                    0 <= i < lhs@.len() && 0 <= j < ri && lhs@[i].id == rhs@[j].id ==> exists|
                        k: int,
                    |
                        0 <= k < lhs_indices@.len() && lhs_indices@[k] == i && rhs_indices@[k]
                            == j,
            decreases lhs_len - li + rhs_len - ri,
        {
            let lid = lhs.component_types[li].id;
            let rid = rhs.component_types[ri].id;
            if lid == rid {
                let ghost old_lhs = lhs_indices@;
                let ghost old_rhs = rhs_indices@;
                lhs_indices.push(li);
                rhs_indices.push(ri);
                proof {
                    let newk = old_lhs.len() as int;
                    assert(lhs_indices@[newk] == li && rhs_indices@[newk] == ri);
                    assert forall|i: int, j: int|
                        0 <= i < li + 1 && 0 <= j < rhs@.len() && lhs@[i].id == rhs@[j].id
                            implies exists|k: int|
                        0 <= k < lhs_indices@.len() && lhs_indices@[k] == i && rhs_indices@[k]
                            == j by {
                        if i == li {
                            assert(rhs@[j].id == rid);
                            if j < ri {
                                assert(rhs@[j].id < rhs@[ri as int].id);
                            } else if j > ri {
                                assert(rhs@[ri as int].id < rhs@[j].id);
                            }
                            assert(j == ri);
                            assert(lhs_indices@[newk] == i && rhs_indices@[newk] == j);
                        } else {
                            let k = choose|k: int|
                                0 <= k < old_lhs.len() && old_lhs[k] == i && old_rhs[k] == j;
                            assert(lhs_indices@[k] == i && rhs_indices@[k] == j);
                        }
                    }
                    assert forall|i: int, j: int|
                        0 <= i < lhs@.len() && 0 <= j < ri + 1 && lhs@[i].id == rhs@[j].id
                            implies exists|k: int|
                        0 <= k < lhs_indices@.len() && lhs_indices@[k] == i && rhs_indices@[k]
                            == j by {
                        if j == ri {
                            assert(lhs@[i].id == lid);
                            if i < li {
                                assert(lhs@[i].id < lhs@[li as int].id);
                            } else if i > li {
                                assert(lhs@[li as int].id < lhs@[i].id);
                            }
                            assert(i == li);
                            assert(lhs_indices@[newk] == i && rhs_indices@[newk] == j);
                        } else {
                            let k = choose|k: int|
                                0 <= k < old_lhs.len() && old_lhs[k] == i && old_rhs[k] == j;
                            assert(lhs_indices@[k] == i && rhs_indices@[k] == j);
                        }
                    }
                }
                li = li + 1;
                ri = ri + 1;
            } else if lid < rid {
                proof {
                    assert forall|j: int|
                        0 <= j < rhs@.len() && rhs@[j].id == lid implies j < ri by {
                        if j > ri {
                            assert(rhs@[ri as int].id < rhs@[j].id);
                        }
                    }
                }
                li = li + 1;
            } else {
                proof {
                    assert forall|i: int|
                        0 <= i < lhs@.len() && lhs@[i].id == rid implies i < li by {
                        if i > li {
                            assert(lhs@[li as int].id < lhs@[i].id);
                        }
                    }
                }
                ri = ri + 1;
            }
        }

        proof {
            assert forall|i: int, j: int|
                #![trigger lhs@[i], rhs@[j]]
                0 <= i < lhs@.len() && 0 <= j < rhs@.len() && lhs@[i].id == rhs@[j].id
                    implies exists|k: int|
                0 <= k < lhs_indices@.len() && lhs_indices@[k] == i && rhs_indices@[k] == j by {
                if li < lhs_len {
                    assert(ri == rhs_len);
                }
            }
        }
        ArchetypesUnion { lhs_indices, rhs_indices }
    }

    /// How many component ids the two archetypes share.
    #[inline]
    pub fn len(&self) -> (r: usize)
        ensures
            r == self.lhs_indices@.len(),
    {
        self.lhs_indices.len()
    }
}

} // verus!
