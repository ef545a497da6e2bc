use vstd::prelude::*;

use crate::archetype::{comp_index_of, has_comp_id, lemma_comp_index_of, sorted_by_id, Archetype};
use crate::component_type::ComponentType;

verus! {

/// Whether no two components of `s` share an id.
pub open spec fn distinct_ids(s: Seq<ComponentType>) -> bool {
    forall|i: int, j: int| 0 <= i < j < s.len() ==> s[i].id != s[j].id
}

/// `acc` with `c` appended, unless a component with `c`'s id is already
/// present.
pub open spec fn add_if_absent(acc: Seq<ComponentType>, c: ComponentType) -> Seq<ComponentType> {
    if has_comp_id(acc, c.id) {
        acc
    } else {
        acc.push(c)
    }
}

/// `acc` extended by every component of `cs` in order, skipping ids that
/// are already present.
pub open spec fn include_all(acc: Seq<ComponentType>, cs: Seq<ComponentType>) -> Seq<
    ComponentType,
>
    decreases cs.len(),
{
    if cs.len() == 0 {
        acc
    } else {
        include_all(add_if_absent(acc, cs[0]), cs.drop_first())
    }
}

/// `acc` without its component of id `id` (if any).
pub open spec fn remove_id(acc: Seq<ComponentType>, id: u64) -> Seq<ComponentType> {
    if has_comp_id(acc, id) {
        acc.remove(comp_index_of(acc, id))
    } else {
        acc
    }
}

/// `acc` without any component whose id appears in `ids`.
pub open spec fn exclude_all(acc: Seq<ComponentType>, ids: Seq<u64>) -> Seq<ComponentType>
    decreases ids.len(),
{
    if ids.len() == 0 {
        acc
    } else {
        exclude_all(remove_id(acc, ids[0]), ids.drop_first())
    }
}

/// `s` with `c` inserted before the first component of larger id.
pub open spec fn insert_by_id(s: Seq<ComponentType>, c: ComponentType) -> Seq<ComponentType>
    decreases s.len(),
{
    if s.len() == 0 {
        seq![c]
    } else if c.id < s[0].id {
        seq![c] + s
    } else {
        seq![s[0]] + insert_by_id(s.drop_first(), c)
    }
}

/// The canonical form of a set of components: sorted strictly by id.
pub open spec fn sort_by_id_spec(s: Seq<ComponentType>) -> Seq<ComponentType>
    decreases s.len(),
{
    if s.len() == 0 {
        s
    } else {
        insert_by_id(sort_by_id_spec(s.drop_first()), s[0])
    }
}

/// Inserting a component with a fresh id keeps the sequence sorted and
/// adds exactly that element.
pub proof fn lemma_insert_by_id_props(s: Seq<ComponentType>, c: ComponentType)
    requires
        sorted_by_id(s),
        forall|k: int| 0 <= k < s.len() ==> (#[trigger] s[k]).id != c.id,
    ensures
        insert_by_id(s, c).len() == s.len() + 1,
        sorted_by_id(insert_by_id(s, c)),
        forall|x: ComponentType| insert_by_id(s, c).contains(x) <==> (s.contains(x) || x == c),
    decreases s.len(),
{
    let r = insert_by_id(s, c);
    if s.len() == 0 {
        assert(r =~= seq![c]);
        assert(r[0] == c);
        assert forall|x: ComponentType| r.contains(x) implies (s.contains(x) || x == c) by {
            let k = choose|k: int| 0 <= k < r.len() && r[k] == x;
        }
    } else if c.id < s[0].id {
        assert(r =~= seq![c] + s);
        assert forall|i: int, j: int| 0 <= i < j < r.len() implies r[i].id < r[j].id by {
            assert(r[i] == (if i == 0 { c } else { s[i - 1] }));
            assert(r[j] == s[j - 1]);
            if i > 0 {
                assert(s[i - 1].id < s[j - 1].id);
            } else if j > 1 {
                assert(s[0].id < s[j - 1].id);
            }
        }
        assert forall|x: ComponentType| r.contains(x) implies (s.contains(x) || x == c) by {
            let k = choose|k: int| 0 <= k < r.len() && r[k] == x;
            if k > 0 {
                assert(s[k - 1] == x);
            }
        }
        assert forall|x: ComponentType| s.contains(x) || x == c implies r.contains(x) by {
            if s.contains(x) {
                let k = choose|k: int| 0 <= k < s.len() && s[k] == x;
                assert(r[k + 1] == x);
            } else {
                assert(r[0] == x);
            }
        }
    } else {
        assert(c.id > s[0].id);
        let sub = s.drop_first();
        assert forall|k: int| 0 <= k < sub.len() implies (#[trigger] sub[k]).id != c.id by {
            assert(sub[k] == s[k + 1]);
        }
        lemma_insert_by_id_props(sub, c);
        let rsub = insert_by_id(sub, c);
        assert(r =~= seq![s[0]] + rsub);
        assert forall|k: int| 0 <= k < rsub.len() implies (#[trigger] rsub[k]).id > s[0].id by {
            assert(insert_by_id(sub, c).contains(rsub[k]));
            assert(sub.contains(rsub[k]) || rsub[k] == c);
            if sub.contains(rsub[k]) {
                let m = choose|m: int| 0 <= m < sub.len() && sub[m] == rsub[k];
                assert(sub[m] == s[m + 1]);
            } else {
                assert(rsub[k] == c);
            }
        }
        assert forall|i: int, j: int| 0 <= i < j < r.len() implies r[i].id < r[j].id by {
            assert(r[j] == rsub[j - 1]);
            if i > 0 {
                assert(r[i] == rsub[i - 1]);
            }
        }
        assert forall|x: ComponentType| r.contains(x) implies (s.contains(x) || x == c) by {
            let k = choose|k: int| 0 <= k < r.len() && r[k] == x;
            if k > 0 {
                assert(rsub[k - 1] == x);
                if sub.contains(x) {
                    let m = choose|m: int| 0 <= m < sub.len() && sub[m] == x;
                    assert(s[m + 1] == x);
                }
            } else {
                assert(s[0] == x);
            }
        }
        assert forall|x: ComponentType| s.contains(x) || x == c implies r.contains(x) by {
            if s.contains(x) {
                let k = choose|k: int| 0 <= k < s.len() && s[k] == x;
                if k == 0 {
                    assert(r[0] == x);
                } else {
                    assert(sub[k - 1] == x);
                    assert(sub.contains(x)) by {
                        assert(sub[k - 1] == x);
                    }
                    assert(insert_by_id(sub, c).contains(x));
                    let m = choose|m: int| 0 <= m < rsub.len() && rsub[m] == x;
                    assert(r[m + 1] == x);
                }
            } else {
                assert(!sub.contains(c)) by {
                    if sub.contains(c) {
                        let m = choose|m: int| 0 <= m < sub.len() && sub[m] == c;
                        assert(sub[m].id == c.id);
                    }
                }
                assert(insert_by_id(sub, c).contains(c));
                let m = choose|m: int| 0 <= m < rsub.len() && rsub[m] == c;
                assert(r[m + 1] == x);
            }
        }
    }
}

/// Sorting a duplicate-free component set yields a sorted sequence with
/// exactly the same elements.
pub proof fn lemma_sort_by_id_spec_props(s: Seq<ComponentType>)
    requires
        distinct_ids(s),
    ensures
        sort_by_id_spec(s).len() == s.len(),
        sorted_by_id(sort_by_id_spec(s)),
        forall|x: ComponentType| sort_by_id_spec(s).contains(x) <==> s.contains(x),
    decreases s.len(),
{
    if s.len() > 0 {
        let sub = s.drop_first();
        assert(distinct_ids(sub)) by {
            assert forall|i: int, j: int|
                0 <= i < j < sub.len() implies sub[i].id != sub[j].id by {
                assert(sub[i] == s[i + 1] && sub[j] == s[j + 1]);
            }
        }
        lemma_sort_by_id_spec_props(sub);
        let sorted_sub = sort_by_id_spec(sub);
        assert forall|k: int|
            0 <= k < sorted_sub.len() implies (#[trigger] sorted_sub[k]).id != s[0].id by {
            assert(sort_by_id_spec(sub).contains(sorted_sub[k]));
            assert(sub.contains(sorted_sub[k]));
            let m = choose|m: int| 0 <= m < sub.len() && sub[m] == sorted_sub[k];
            assert(sub[m] == s[m + 1]);
        }
        lemma_insert_by_id_props(sorted_sub, s[0]);
        assert forall|x: ComponentType| sort_by_id_spec(s).contains(x) implies s.contains(x) by {
            assert(insert_by_id(sorted_sub, s[0]).contains(x));
            if sorted_sub.contains(x) {
                assert(sort_by_id_spec(sub).contains(x));
                assert(sub.contains(x));
                let m = choose|m: int| 0 <= m < sub.len() && sub[m] == x;
                assert(s[m + 1] == x);
            } else {
                assert(x == s[0]);
            }
        }
        assert forall|x: ComponentType| s.contains(x) implies sort_by_id_spec(s).contains(x) by {
            let k = choose|k: int| 0 <= k < s.len() && s[k] == x;
            if k > 0 {
                assert(sub[k - 1] == x);
                assert(sub.contains(x));
                assert(sort_by_id_spec(sub).contains(x));
                assert(insert_by_id(sorted_sub, s[0]).contains(x));
            } else {
                assert(!sorted_sub.contains(s[0])) by {
                    if sorted_sub.contains(s[0]) {
                        let m = choose|m: int|
                            0 <= m < sorted_sub.len() && sorted_sub[m] == s[0];
                        assert(sorted_sub[m].id == s[0].id);
                    }
                }
                assert(insert_by_id(sorted_sub, s[0]).contains(s[0]));
            }
        }
    }
}

/// Two sorted duplicate-free sequences with the same elements are equal.
pub proof fn lemma_sorted_unique(a: Seq<ComponentType>, b: Seq<ComponentType>)
    requires
        sorted_by_id(a),
        sorted_by_id(b),
        forall|x: ComponentType| a.contains(x) <==> b.contains(x),
    ensures
        a == b,
    decreases a.len(),
{
    if a.len() == 0 {
        if b.len() > 0 {
            assert(b.contains(b[0]));
        }
        assert(a =~= b);
    } else {
        assert(a.contains(a[0]));
        assert(b.contains(a[0]));
        let j = choose|j: int| 0 <= j < b.len() && b[j] == a[0];
        assert(b.contains(b[0]));
        assert(a.contains(b[0]));
        let i = choose|i: int| 0 <= i < a.len() && a[i] == b[0];
        assert(a[0] == b[0]) by {
            if i > 0 {
                assert(a[0].id < a[i].id);
            }
            if j > 0 {
                assert(b[0].id < b[j].id);
            }
        }
        let ta = a.drop_first();
        let tb = b.drop_first();
        assert forall|x: ComponentType| ta.contains(x) <==> tb.contains(x) by {
            if ta.contains(x) {
                let k = choose|k: int| 0 <= k < ta.len() && ta[k] == x;
                assert(a[k + 1] == x);
                assert(b.contains(x));
                let m = choose|m: int| 0 <= m < b.len() && b[m] == x;
                assert(m > 0) by {
                    if m == 0 {
                        assert(a[0] == x);
                        assert(a[0].id < a[k + 1].id);
                    }
                }
                assert(tb[m - 1] == x);
            }
            if tb.contains(x) {
                let k = choose|k: int| 0 <= k < tb.len() && tb[k] == x;
                assert(b[k + 1] == x);
                assert(a.contains(x));
                let m = choose|m: int| 0 <= m < a.len() && a[m] == x;
                assert(m > 0) by {
                    if m == 0 {
                        assert(b[0] == x);
                        assert(b[0].id < b[k + 1].id);
                    }
                }
                assert(ta[m - 1] == x);
            }
        }
        lemma_sorted_unique(ta, tb);
        assert forall|i: int| 0 <= i < a.len() implies a[i] == b[i] by {
            if i > 0 {
                assert(a[i] == ta[i - 1]);
                assert(b[i] == tb[i - 1]);
            }
        }
        assert(a =~= b);
    }
}

/// Components whose ids are all fresh are appended verbatim.
pub proof fn lemma_include_all_disjoint(acc: Seq<ComponentType>, cs: Seq<ComponentType>)
    requires
        distinct_ids(cs),
        forall|k: int| 0 <= k < cs.len() ==> !has_comp_id(acc, (#[trigger] cs[k]).id),
    ensures
        include_all(acc, cs) == acc + cs,
    decreases cs.len(),
{
    if cs.len() == 0 {
        assert(include_all(acc, cs) =~= acc + cs);
    } else {
        assert(!has_comp_id(acc, cs[0].id));
        let step = acc.push(cs[0]);
        assert(include_all(acc, cs) == include_all(step, cs.drop_first()));
        assert(distinct_ids(cs.drop_first())) by {
            assert forall|i: int, j: int|
                0 <= i < j < cs.drop_first().len() implies cs.drop_first()[i].id
                != cs.drop_first()[j].id by {
                assert(cs.drop_first()[i] == cs[i + 1] && cs.drop_first()[j] == cs[j + 1]);
            }
        }
        assert forall|k: int|
            0 <= k < cs.drop_first().len() implies !has_comp_id(
            step,
            (#[trigger] cs.drop_first()[k]).id,
        ) by {
            assert(cs.drop_first()[k] == cs[k + 1]);
            if has_comp_id(step, cs[k + 1].id) {
                let m = choose|m: int| 0 <= m < step.len() && step[m].id == cs[k + 1].id;
                if m < acc.len() {
                    assert(has_comp_id(acc, cs[k + 1].id)) by {
                        assert(acc[m].id == cs[k + 1].id);
                    }
                } else {
                    assert(cs[0].id == cs[k + 1].id);
                }
            }
        }
        lemma_include_all_disjoint(step, cs.drop_first());
        assert(include_all(acc, cs) =~= acc + cs);
    }
}

/// Extending by a later component commutes with processing the prefix.
pub proof fn lemma_include_all_snoc(acc: Seq<ComponentType>, cs: Seq<ComponentType>, c: ComponentType)
    ensures
        include_all(acc, cs.push(c)) == add_if_absent(include_all(acc, cs), c),
    decreases cs.len(),
{
    if cs.len() == 0 {
        assert(cs.push(c)[0] == c);
        assert(cs.push(c).drop_first() =~= Seq::<ComponentType>::empty());
        assert(include_all(acc, cs.push(c)) == include_all(
            add_if_absent(acc, c),
            cs.push(c).drop_first(),
        ));
        assert(include_all(add_if_absent(acc, c), cs.push(c).drop_first()) == add_if_absent(
            acc,
            c,
        ));
        assert(include_all(acc, cs) == acc);
    } else {
        assert(cs.push(c)[0] == cs[0]);
        assert(cs.push(c).drop_first() =~= cs.drop_first().push(c));
        lemma_include_all_snoc(add_if_absent(acc, cs[0]), cs.drop_first(), c);
        assert(include_all(acc, cs.push(c)) == include_all(
            add_if_absent(acc, cs[0]),
            cs.drop_first().push(c),
        ));
        assert(include_all(acc, cs) == include_all(add_if_absent(acc, cs[0]), cs.drop_first()));
    }
}

/// What `include_all` holds: distinctness is preserved, an id is present
/// iff it was present in either input, and every element comes from one of
/// the inputs.
pub proof fn lemma_include_all_props(acc: Seq<ComponentType>, cs: Seq<ComponentType>)
    requires
        distinct_ids(acc),
    ensures
        distinct_ids(include_all(acc, cs)),
        forall|id: u64|
            has_comp_id(include_all(acc, cs), id) <==> (has_comp_id(acc, id) || has_comp_id(
                cs,
                id,
            )),
        forall|x: ComponentType|
            include_all(acc, cs).contains(x) ==> acc.contains(x) || cs.contains(x),
        include_all(acc, cs).len() >= acc.len(),
        forall|i: int| 0 <= i < acc.len() ==> include_all(acc, cs)[i] == acc[i],
    decreases cs.len(),
{
    if cs.len() > 0 {
        let step = add_if_absent(acc, cs[0]);
        assert(include_all(acc, cs) == include_all(step, cs.drop_first()));
        assert forall|id: u64|
            has_comp_id(step, id) <==> (has_comp_id(acc, id) || cs[0].id == id) by {
            if has_comp_id(acc, id) {
                let k = choose|k: int| 0 <= k < acc.len() && acc[k].id == id;
                assert(step[k].id == id);
            }
            if cs[0].id == id && !has_comp_id(acc, id) {
                assert(step[step.len() - 1].id == id);
            }
            if has_comp_id(step, id) && !has_comp_id(acc, id) {
                let k = choose|k: int| 0 <= k < step.len() && step[k].id == id;
                assert(k == step.len() - 1);
            }
        }
        assert(distinct_ids(step));
        lemma_include_all_props(step, cs.drop_first());
        assert forall|i: int| 0 <= i < acc.len() implies include_all(acc, cs)[i] == acc[i] by {
            assert(include_all(step, cs.drop_first())[i] == step[i]);
            assert(step[i] == acc[i]);
        }
        assert forall|id: u64| has_comp_id(cs, id) implies has_comp_id(step, id) || has_comp_id(
            cs.drop_first(),
            id,
        ) by {
            let k = choose|k: int| 0 <= k < cs.len() && cs[k].id == id;
            if k == 0 {
                assert(has_comp_id(step, id)) by {
                    if !has_comp_id(acc, id) {
                        assert(step[step.len() - 1].id == id);
                    }
                }
            } else {
                assert(cs.drop_first()[k - 1].id == id);
            }
        }
        assert forall|id: u64| has_comp_id(cs.drop_first(), id) implies has_comp_id(cs, id) by {
            let k = choose|k: int| 0 <= k < cs.drop_first().len() && cs.drop_first()[k].id == id;
            assert(cs[k + 1].id == id);
        }
        assert forall|id: u64| has_comp_id(step, id) implies has_comp_id(acc, id) || has_comp_id(
            cs,
            id,
        ) by {
            if !has_comp_id(acc, id) {
                assert(cs[0].id == id);
            }
        }
        assert forall|x: ComponentType|
            include_all(acc, cs).contains(x) implies acc.contains(x) || cs.contains(x) by {
            if step.contains(x) {
                if !acc.contains(x) {
                    let k = choose|k: int| 0 <= k < step.len() && step[k] == x;
                    assert(step[k] == cs[0]);
                    assert(cs.contains(cs[0]));
                }
            } else {
                assert(cs.drop_first().contains(x));
                let k = choose|k: int| 0 <= k < cs.drop_first().len() && cs.drop_first()[k] == x;
                assert(cs[k + 1] == x);
            }
        }
    }
}

/// What `exclude_all` holds: distinctness is preserved, an id survives iff
/// it was present and is not excluded, and every element was present.
pub proof fn lemma_exclude_all_props(acc: Seq<ComponentType>, ids: Seq<u64>)
    requires
        distinct_ids(acc),
    ensures
        distinct_ids(exclude_all(acc, ids)),
        forall|id: u64|
            has_comp_id(exclude_all(acc, ids), id) <==> (has_comp_id(acc, id) && !ids.contains(
                id,
            )),
        forall|x: ComponentType| exclude_all(acc, ids).contains(x) ==> acc.contains(x),
    decreases ids.len(),
{
    if ids.len() > 0 {
        let step = remove_id(acc, ids[0]);
        lemma_remove_id_props(acc, ids[0]);
        lemma_exclude_all_props(step, ids.drop_first());
        assert forall|id: u64| ids.contains(id) implies id == ids[0] || ids.drop_first().contains(
            id,
        ) by {
            let k = choose|k: int| 0 <= k < ids.len() && ids[k] == id;
            if k > 0 {
                assert(ids.drop_first()[k - 1] == id);
            }
        }
        assert forall|id: u64| ids.drop_first().contains(id) implies ids.contains(id) by {
            let k = choose|k: int| 0 <= k < ids.drop_first().len() && ids.drop_first()[k] == id;
            assert(ids[k + 1] == id);
        }
    }
}

/// What removing one id does to membership.
pub proof fn lemma_remove_id_props(acc: Seq<ComponentType>, id: u64)
    requires
        distinct_ids(acc),
    ensures
        distinct_ids(remove_id(acc, id)),
        forall|x: u64| has_comp_id(remove_id(acc, id), x) <==> (has_comp_id(acc, x) && x != id),
        forall|x: ComponentType| remove_id(acc, id).contains(x) ==> acc.contains(x),
{
    if has_comp_id(acc, id) {
        lemma_comp_index_of(acc, id);
        let p = comp_index_of(acc, id);
        let r = acc.remove(p);
        assert forall|x: u64| has_comp_id(r, x) implies has_comp_id(acc, x) && x != id by {
            let k = choose|k: int| 0 <= k < r.len() && r[k].id == x;
            if k < p {
                assert(acc[k].id == x);
            } else {
                assert(acc[k + 1].id == x);
            }
        }
        assert forall|x: u64| has_comp_id(acc, x) && x != id implies has_comp_id(r, x) by {
            let k = choose|k: int| 0 <= k < acc.len() && acc[k].id == x;
            if k < p {
                assert(r[k].id == x);
            } else {
                assert(r[k - 1].id == x);
            }
        }
        assert forall|x: ComponentType| r.contains(x) implies acc.contains(x) by {
            let k = choose|k: int| 0 <= k < r.len() && r[k] == x;
            if k < p {
                assert(acc[k] == x);
            } else {
                assert(acc[k + 1] == x);
            }
        }
        assert forall|i: int, j: int| 0 <= i < j < r.len() implies r[i].id != r[j].id by {
            assert(r[i] == (if i < p { acc[i] } else { acc[i + 1] }));
            assert(r[j] == (if j < p { acc[j] } else { acc[j + 1] }));
        }
    }
}

/// Accumulates a set of component types (no two sharing an id) and emits
/// the canonical `Archetype`: the same set, sorted by id.
pub struct ArchetypeBuilder {
    pub component_types: Vec<ComponentType>,
}

impl View for ArchetypeBuilder {
    type V = Seq<ComponentType>;

    open spec fn view(&self) -> Seq<ComponentType> {
        self.component_types@
    }
}

impl ArchetypeBuilder {
    /// No two accumulated components share an id.
    pub open spec fn wf(self) -> bool {
        distinct_ids(self@)
    }

    /// An empty builder.
    pub fn new() -> (r: ArchetypeBuilder)
        ensures
            r@ == Seq::<ComponentType>::empty(),
            r.wf(),
    {
        ArchetypeBuilder { component_types: Vec::new() }
    }

    /// Adds the given component types; ids already present are skipped.
    pub fn include_components(self, components: &[ComponentType]) -> (r: Self)
        requires
            self.wf(),
        ensures
            r.wf(),
            r@ == include_all(self@, components@),
    {
        self.include_component_types(components)
    }

    /// Adds the given component types; ids already present are skipped.
    pub fn include_component_types(self, components: &[ComponentType]) -> (r: Self)
        requires
            self.wf(),
        ensures
            r.wf(),
            r@ == include_all(self@, components@),
    {
        let ghost orig = self@;
        let mut r = self;
        let n = components.len();
        let mut i: usize = 0;
        while i < n
            invariant
                n == components@.len(),
                0 <= i <= n,
                r.wf(),
                r@ == include_all(orig, components@.subrange(0, i as int)),
            decreases n - i,
        {
            proof {
                assert(components@.subrange(0, i + 1) =~= components@.subrange(0, i as int).push(
                    components@[i as int],
                ));
                lemma_include_all_snoc(
                    orig,
                    components@.subrange(0, i as int),
                    components@[i as int],
                );
            }
            let c = components[i];
            if !contains_id(&r.component_types, c.id) {
                r.component_types.push(c);
            }
            i = i + 1;
        }
        proof {
            assert(components@.subrange(0, n as int) =~= components@);
        }
        r
    }

    /// Removes the given component types; ids not present are ignored.
    pub fn exclude_components(self, components: &[ComponentType]) -> (r: Self)
        requires
            self.wf(),
        ensures
            r.wf(),
            r@ == exclude_all(self@, crate::archetype::comp_ids(components@)),
    {
        self.exclude_component_types(components)
    }

    /// Removes the given component types; ids not present are ignored.
    pub fn exclude_component_types(self, components: &[ComponentType]) -> (r: Self)
        requires
            self.wf(),
        ensures
            r.wf(),
            r@ == exclude_all(self@, crate::archetype::comp_ids(components@)),
    {
        let ghost all_ids = crate::archetype::comp_ids(components@);
        let ghost orig = self@;
        let mut r = self;
        let n = components.len();
        let mut i: usize = 0;
        while i < n
            invariant
                n == components@.len(),
                all_ids == crate::archetype::comp_ids(components@),
                0 <= i <= n,
                r.wf(),
                r@ == exclude_all(orig, all_ids.subrange(0, i as int)),
            decreases n - i,
        {
            proof {
                assert(all_ids.subrange(0, i + 1) =~= all_ids.subrange(0, i as int).push(
                    all_ids[i as int],
                ));
                lemma_exclude_all_snoc(
                    orig,
                    all_ids.subrange(0, i as int),
                    all_ids[i as int],
                );
            }
            let id = components[i].id;
            r = r.remove_component_id(id);
            i = i + 1;
        }
        proof {
            assert(all_ids.subrange(0, n as int) =~= all_ids);
        }
        r
    }

    /// Adds every component of an archetype; ids already present are
    /// skipped.
    pub fn include_archetype(self, archetype: &Archetype) -> (r: Self)
        requires
            self.wf(),
        ensures
            r.wf(),
            r@ == include_all(self@, archetype@),
    {
        self.include_component_types(archetype.components().as_slice())
    }

    /// Removes the component with the given id, if present.
    fn remove_component_id(self, id: u64) -> (r: Self)
        requires
            self.wf(),
        ensures
            r.wf(),
            r@ == remove_id(self@, id),
    {
        let ghost orig = self@;
        let mut r = self;
        let n = r.component_types.len();
        let mut i: usize = 0;
        while i < n
            invariant
                n == r@.len(),
                orig == self@,
                r@ == orig,
                r.wf(),
                0 <= i <= n,
                forall|k: int| 0 <= k < i ==> r@[k].id != id,
            decreases n - i,
        {
            if r.component_types[i].id == id {
                proof {
                    assert(r@[i as int].id == id);
                    assert(has_comp_id(r@, id));
                    lemma_comp_index_of(r@, id);
                    assert(comp_index_of(r@, id) == i) by {
                        let p = comp_index_of(r@, id);
                        if p < i {
                            assert(r@[p].id != id);
                        }
                    }
                }
                r.component_types.remove(i);
                return r;
            }
            i = i + 1;
        }
        r
    }

    /// Emits the canonical archetype: exactly the accumulated set of
    /// component types, sorted by id.
    pub fn build(self) -> (r: Archetype)
        requires
            self.wf(),
        ensures
            r.wf(),
            r@ == sort_by_id_spec(self@),
            r@.len() == self@.len(),
            forall|x: ComponentType| r@.contains(x) <==> self@.contains(x),
            forall|id: u64| r.has_id(id) <==> has_comp_id(self@, id),
    {
        let n = self.component_types.len();
        let mut out: Vec<ComponentType> = Vec::new();
        let mut i: usize = 0;
        while i < n
            invariant
                n == self@.len(),
                0 <= i <= n,
                self.wf(),
                out@.len() == i,
                sorted_by_id(out@),
                forall|x: ComponentType| out@.contains(x) <==> self@.subrange(0, i as int).contains(x),
            decreases n - i,
        {
            let c = self.component_types[i];
            let out_len = out.len();
            let mut p: usize = 0;
            while p < out_len && out[p].id < c.id
                invariant
                    out_len == out@.len(),
                    0 <= p <= out_len,
                    forall|k: int| 0 <= k < p ==> out@[k].id < c.id,
                decreases out_len - p,
            {
                p = p + 1;
            }
            proof {
                // the inserted id is fresh among out's elements
                assert forall|k: int| 0 <= k < out@.len() implies out@[k].id != c.id by {
                    if out@[k].id == c.id {
                        assert(out@.contains(out@[k]));
                        assert(self@.subrange(0, i as int).contains(out@[k]));
                        let sub = self@.subrange(0, i as int);
                        let m = choose|m: int| 0 <= m < sub.len() && sub[m] == out@[k];
                        assert(self@[m].id == c.id && m < i);
                    }
                }
            }
            let ghost old_out = out@;
            proof {
                assert forall|k: int| p <= k < old_out.len() implies old_out[k].id > c.id by {
                    assert(old_out[p as int].id >= c.id);
                    if k > p {
                        assert(old_out[p as int].id < old_out[k].id);
                    }
                }
            }
            out.insert(p, c);
            proof {
                lemma_build_step(old_out, out@, self@, i as int, p as int, c);
            }
            i = i + 1;
        }
        proof {
            assert(self@.subrange(0, n as int) =~= self@);
            lemma_same_elements_same_ids(out@, self@);
            lemma_sort_by_id_spec_props(self@);
            lemma_sorted_unique(out@, sort_by_id_spec(self@));
        }
        Archetype::new(out)
    }
}

/// One step of the canonical sort: inserting the `i`-th component at its
/// sorted position keeps the output sorted and carrying exactly the
/// elements of the prefix processed so far.
proof fn lemma_build_step(
    old_out: Seq<ComponentType>,
    new_out: Seq<ComponentType>,
    all: Seq<ComponentType>,
    i: int,
    p: int,
    c: ComponentType,
)
    requires
        0 <= i < all.len(),
        c == all[i],
        0 <= p <= old_out.len(),
        sorted_by_id(old_out),
        forall|k: int| 0 <= k < p ==> old_out[k].id < c.id,
        forall|k: int| p <= k < old_out.len() ==> old_out[k].id > c.id,
        new_out == old_out.insert(p, c),
        forall|x: ComponentType| old_out.contains(x) <==> all.subrange(0, i).contains(x),
    ensures
        sorted_by_id(new_out),
        forall|x: ComponentType| new_out.contains(x) <==> all.subrange(0, i + 1).contains(x),
{
    lemma_insert_props(old_out, p, c);
    let small = all.subrange(0, i);
    let sub = all.subrange(0, i + 1);
    assert(sub =~= small.push(c));
    assert forall|x: ComponentType|
        new_out.contains(x) <==> all.subrange(0, i + 1).contains(x) by {
        vstd::seq_lib::lemma_seq_contains_after_push(small, c, x);
        assert(old_out.insert(p, c).contains(x) <==> old_out.contains(x) || x == c);
    }
}

/// Two sequences with the same elements carry the same ids.
proof fn lemma_same_elements_same_ids(a: Seq<ComponentType>, b: Seq<ComponentType>)
    requires
        forall|x: ComponentType| a.contains(x) <==> b.contains(x),
    ensures
        forall|id: u64| has_comp_id(a, id) <==> has_comp_id(b, id),
{
    assert forall|id: u64| has_comp_id(a, id) <==> has_comp_id(b, id) by {
        if has_comp_id(a, id) {
            let k = choose|k: int| 0 <= k < a.len() && a[k].id == id;
            assert(a.contains(a[k]));
            let m = choose|m: int| 0 <= m < b.len() && b[m] == a[k];
            assert(b[m].id == id);
        }
        if has_comp_id(b, id) {
            let k = choose|k: int| 0 <= k < b.len() && b[k].id == id;
            assert(b.contains(b[k]));
            let m = choose|m: int| 0 <= m < a.len() && a[m] == b[k];
            assert(a[m].id == id);
        }
    }
}

/// Membership and sortedness facts about inserting into a sorted sequence
/// at the position found by the scan.
proof fn lemma_insert_props(s: Seq<ComponentType>, p: int, c: ComponentType)
    requires
        0 <= p <= s.len(),
        sorted_by_id(s),
        forall|k: int| 0 <= k < p ==> s[k].id < c.id,
        forall|k: int| p <= k < s.len() ==> s[k].id > c.id,
    ensures
        sorted_by_id(s.insert(p, c)),
        forall|x: ComponentType| s.insert(p, c).contains(x) <==> (s.contains(x) || x == c),
{
    let r = s.insert(p, c);
    assert forall|i: int, j: int| 0 <= i < j < r.len() implies r[i].id < r[j].id by {
        assert(r[i] == (if i < p { s[i] } else if i == p { c } else { s[i - 1] }));
        assert(r[j] == (if j < p { s[j] } else if j == p { c } else { s[j - 1] }));
    }
    assert forall|x: ComponentType| r.contains(x) implies (s.contains(x) || x == c) by {
        let k = choose|k: int| 0 <= k < r.len() && r[k] == x;
        if k < p {
            assert(s[k] == x);
        } else if k > p {
            assert(s[k - 1] == x);
        }
    }
    assert forall|x: ComponentType| s.contains(x) || x == c implies r.contains(x) by {
        if s.contains(x) {
            let k = choose|k: int| 0 <= k < s.len() && s[k] == x;
            if k < p {
                assert(r[k] == x);
            } else {
                assert(r[k + 1] == x);
            }
        } else {
            assert(r[p] == x);
        }
    }
}

/// Excluding a later id commutes with processing the prefix.
proof fn lemma_exclude_all_snoc(acc: Seq<ComponentType>, ids: Seq<u64>, id: u64)
    ensures
        exclude_all(acc, ids.push(id)) == remove_id(exclude_all(acc, ids), id),
    decreases ids.len(),
{
    if ids.len() == 0 {
        assert(ids.push(id)[0] == id);
        assert(ids.push(id).drop_first() =~= Seq::<u64>::empty());
        assert(exclude_all(acc, ids.push(id)) == exclude_all(
            remove_id(acc, id),
            ids.push(id).drop_first(),
        ));
        assert(exclude_all(remove_id(acc, id), ids.push(id).drop_first()) == remove_id(acc, id));
        assert(exclude_all(acc, ids) == acc);
    } else {
        assert(ids.push(id)[0] == ids[0]);
        assert(ids.push(id).drop_first() =~= ids.drop_first().push(id));
        lemma_exclude_all_snoc(remove_id(acc, ids[0]), ids.drop_first(), id);
        assert(exclude_all(acc, ids.push(id)) == exclude_all(
            remove_id(acc, ids[0]),
            ids.drop_first().push(id),
        ));
        assert(exclude_all(acc, ids) == exclude_all(remove_id(acc, ids[0]), ids.drop_first()));
    }
}

/// Whether the vector holds a component with the given id.
fn contains_id(v: &Vec<ComponentType>, id: u64) -> (r: bool)
    ensures
        r == has_comp_id(v@, id),
{
    let n = v.len();
    let mut i: usize = 0;
    while i < n
        invariant
            n == v@.len(),
            0 <= i <= n,
            forall|k: int| 0 <= k < i ==> v@[k].id != id,
        decreases n - i,
    {
        if v[i].id == id {
            return true;
        }
        i = i + 1;
    }
    false
}

} // verus!

verus! {

/// Removing components keeps a sorted sequence sorted.
pub proof fn lemma_exclude_preserves_sorted(acc: Seq<ComponentType>, ids: Seq<u64>)
    requires
        sorted_by_id(acc),
    ensures
        sorted_by_id(exclude_all(acc, ids)),
    decreases ids.len(),
{
    if ids.len() > 0 {
        let step = remove_id(acc, ids[0]);
        assert(sorted_by_id(step)) by {
            if has_comp_id(acc, ids[0]) {
                lemma_comp_index_of(acc, ids[0]);
                let p = comp_index_of(acc, ids[0]);
                assert forall|i: int, j: int|
                    0 <= i < j < step.len() implies step[i].id < step[j].id by {
                    assert(step[i] == (if i < p { acc[i] } else { acc[i + 1] }));
                    assert(step[j] == (if j < p { acc[j] } else { acc[j + 1] }));
                }
            }
        }
        lemma_exclude_preserves_sorted(step, ids.drop_first());
    }
}

/// Excluding ids the sequence does not carry changes nothing.
pub proof fn lemma_exclude_absent(acc: Seq<ComponentType>, ids: Seq<u64>)
    requires
        forall|k: int| 0 <= k < ids.len() ==> !has_comp_id(acc, #[trigger] ids[k]),
    ensures
        exclude_all(acc, ids) == acc,
    decreases ids.len(),
{
    if ids.len() > 0 {
        assert(!has_comp_id(acc, ids[0]));
        assert(remove_id(acc, ids[0]) == acc);
        assert forall|k: int|
            0 <= k < ids.drop_first().len() implies !has_comp_id(
            acc,
            #[trigger] ids.drop_first()[k],
        ) by {
            assert(ids.drop_first()[k] == ids[k + 1]);
        }
        lemma_exclude_absent(acc, ids.drop_first());
    }
}

/// Excluding never grows the sequence, and strictly shrinks it when some
/// excluded id is present.
pub proof fn lemma_exclude_all_len(acc: Seq<ComponentType>, ids: Seq<u64>)
    ensures
        exclude_all(acc, ids).len() <= acc.len(),
        (exists|k: int| 0 <= k < ids.len() && has_comp_id(acc, #[trigger] ids[k]))
            ==> exclude_all(acc, ids).len() < acc.len(),
    decreases ids.len(),
{
    if ids.len() > 0 {
        let step = remove_id(acc, ids[0]);
        lemma_exclude_all_len(step, ids.drop_first());
        if exists|k: int| 0 <= k < ids.len() && has_comp_id(acc, #[trigger] ids[k]) {
            let k = choose|k: int| 0 <= k < ids.len() && has_comp_id(acc, #[trigger] ids[k]);
            if has_comp_id(acc, ids[0]) {
                lemma_comp_index_of(acc, ids[0]);
            } else {
                assert(step == acc);
                assert(k > 0);
                assert(ids.drop_first()[k - 1] == ids[k]);
                assert(exists|m: int|
                    0 <= m < ids.drop_first().len() && has_comp_id(
                        step,
                        #[trigger] ids.drop_first()[m],
                    ));
            }
        }
    }
}

} // verus!
