use vstd::prelude::*;

use crate::archetype::Archetype;
use crate::archetype_data_page::PAGE_SIZE_BYTES;
use crate::component_type::ComponentType;

verus! {

/// `off` rounded up to the next multiple of `align`.
pub open spec fn aligned_up(off: int, align: int) -> int {
    if off % align == 0 {
        off
    } else {
        off + align - off % align
    }
}

/// The largest alignment among the first `k` components.
pub open spec fn max_align_prefix(s: Seq<ComponentType>, k: int) -> int
    decreases k,
{
    if k <= 0 {
        0
    } else if s[k - 1].align > max_align_prefix(s, k - 1) {
        s[k - 1].align as int
    } else {
        max_align_prefix(s, k - 1)
    }
}

/// The provisional per-column byte budget: the page divided evenly among
/// the columns, less the slack reserved for alignment.
pub open spec fn approx_row_bytes(s: Seq<ComponentType>) -> int {
    PAGE_SIZE_BYTES as int / s.len() as int - max_align_prefix(s, s.len() as int) % 8
}

/// The smallest of `approx / size` over the first `k` components.
pub open spec fn capacity_prefix(s: Seq<ComponentType>, k: int) -> int
    decreases k,
{
    if k <= 1 {
        approx_row_bytes(s) / (s[0].size as int)
    } else if approx_row_bytes(s) / (s[k - 1].size as int) < capacity_prefix(s, k - 1) {
        approx_row_bytes(s) / (s[k - 1].size as int)
    } else {
        capacity_prefix(s, k - 1)
    }
}

/// How many entities fit in one page of this archetype: the provisional
/// row budget divided by the largest component size.
pub open spec fn layout_capacity(s: Seq<ComponentType>) -> int {
    capacity_prefix(s, s.len() as int)
}

/// The end of column `k - 1`'s storage (0 for `k == 0`): columns are laid
/// out back to back, each aligned to its component's alignment and
/// `size * cap` bytes long.
pub open spec fn off_after(s: Seq<ComponentType>, cap: int, k: int) -> int
    decreases k,
{
    if k <= 0 {
        0
    } else {
        aligned_up(off_after(s, cap, k - 1), s[k - 1].align as int) + s[k - 1].size * cap
    }
}

/// The byte offset of column `k` within a page.
pub open spec fn column_offset(s: Seq<ComponentType>, cap: int, k: int) -> int {
    aligned_up(off_after(s, cap, k), s[k].align as int)
}

/// The total number of bytes the columns occupy.
pub open spec fn layout_end(s: Seq<ComponentType>, cap: int) -> int {
    off_after(s, cap, s.len() as int)
}

/// Whether every component has a positive size and alignment.
pub open spec fn components_sized(s: Seq<ComponentType>) -> bool {
    forall|k: int| 0 <= k < s.len() ==> s[k].size >= 1 && s[k].align >= 1
}

/// Whether the layout computation succeeds for this component sequence:
/// at least one entity per page, and the columns fit in the page.  The
/// layout construction asserts this; a component too large relative to
/// the page size breaks it.
pub open spec fn layout_fits(s: Seq<ComponentType>) -> bool {
    &&& s.len() >= 1
    &&& components_sized(s)
    &&& layout_capacity(s) >= 1
    &&& layout_end(s, layout_capacity(s)) <= PAGE_SIZE_BYTES as int
}

/// Derived from an archetype: the byte offset of each column within a
/// page, and the number of entities per page.  Deterministic for a given
/// archetype and page size.
#[derive(Debug)]
pub struct ArchetypeLayout {
    pub offsets: Vec<usize>,
    pub entities_capacity: usize,
}

/// The structural facts every archetype's layout obeys: one offset per
/// column, columns pairwise disjoint and within the page.
pub open spec fn layout_wf(arch: Seq<ComponentType>, layout: ArchetypeLayout) -> bool {
    &&& layout.offsets@.len() == arch.len()
    &&& layout.entities_capacity >= 1
    &&& components_sized(arch)
    &&& forall|k: int|
        0 <= k < arch.len() ==> (#[trigger] layout.offsets@[k]) + arch[k].size
            * layout.entities_capacity <= (if k + 1 < arch.len() {
            layout.offsets@[k + 1] as int
        } else {
            PAGE_SIZE_BYTES as int
        })
}

impl ArchetypeLayout {
    /// Computes the layout of an archetype: the per-entity capacity from
    /// the provisional row budget, then one aligned offset per column.
    pub fn new(archetype: &Archetype) -> (r: ArchetypeLayout)
        requires
            layout_fits(archetype@),
        ensures
            r.entities_capacity == layout_capacity(archetype@),
            r.offsets@.len() == archetype@.len(),
            forall|k: int|
                0 <= k < archetype@.len() ==> r.offsets@[k] == column_offset(
                    archetype@,
                    layout_capacity(archetype@),
                    k,
                ),
            layout_wf(archetype@, r),
    {
        let ghost s = archetype@;
        let components = archetype.components();
        let count = components.len();

        let mut max_align: usize = 0;
        let mut k: usize = 0;
        while k < count
            invariant
                count == s.len(),
                0 <= k <= count,
                max_align == max_align_prefix(s, k as int),
                components@ == s,
                max_align <= PAGE_SIZE_BYTES || max_align == max_align_prefix(s, k as int),
                components_sized(s),
                max_align <= usize::MAX,
            decreases count - k,
        {
            let a = components[k].align;
            if a > max_align {
                max_align = a;
            }
            k = k + 1;
        }

        proof {
            lemma_capacity_fits(s);
        }
        let approx = PAGE_SIZE_BYTES / count - max_align % 8;
        let mut cap = approx / components[0].size;
        let mut k: usize = 1;
        while k < count
            invariant
                count == s.len(),
                s.len() >= 1,
                1 <= k <= count,
                components@ == s,
                components_sized(s),
                approx == approx_row_bytes(s),
                cap == capacity_prefix(s, k as int),
            decreases count - k,
        {
            let ck = approx / components[k].size;
            if ck < cap {
                cap = ck;
            }
            k = k + 1;
        }

        proof {
            assert(cap == layout_capacity(s));
            lemma_off_after_bounds(s, cap as int, s.len() as int);
        }

        let mut offsets: Vec<usize> = Vec::new();
        let mut offset: usize = 0;
        let mut k: usize = 0;
        while k < count
            invariant
                count == s.len(),
                0 <= k <= count,
                components@ == s,
                components_sized(s),
                layout_fits(s),
                cap == layout_capacity(s),
                offset == off_after(s, cap as int, k as int),
                offsets@.len() == k,
                forall|j: int| 0 <= j < k ==> offsets@[j] == column_offset(s, cap as int, j),
            decreases count - k,
        {
            let c = components[k];
            let rem = offset % c.align;
            proof {
                lemma_off_after_bounds(s, cap as int, s.len() as int);
                lemma_off_after_le(s, cap as int, k as int, s.len() as int);
                lemma_off_after_le(s, cap as int, k + 1, s.len() as int);
            }
            if rem != 0 {
                offset = offset + (c.align - rem);
            }
            offsets.push(offset);
            proof {
                assert(offset == column_offset(s, cap as int, k as int));
                assert(off_after(s, cap as int, k + 1) == offset + s[k as int].size * cap);
            }
            offset = offset + c.size * cap;
            k = k + 1;
        }

        let r = ArchetypeLayout { offsets, entities_capacity: cap };
        proof {
            lemma_layout_wf(s, r);
        }
        r
    }

    /// How many entities one page of this archetype holds.
    #[inline]
    pub fn entities_capacity(&self) -> (r: usize)
        ensures
            r == self.entities_capacity,
    {
        self.entities_capacity
    }

    /// The byte offset of each column within a page.
    #[inline]
    pub fn component_offsets(&self) -> (r: &Vec<usize>)
        ensures
            r@ == self.offsets@,
    {
        &self.offsets
    }
}

/// Rounding up to an alignment moves forward by less than the alignment.
proof fn lemma_aligned_up(off: int, align: int)
    requires
        off >= 0,
        align >= 1,
    ensures
        off <= aligned_up(off, align) < off + align,
        aligned_up(off, align) % align == 0,
{
    vstd::arithmetic::div_mod::lemma_fundamental_div_mod(off, align);
    if off % align != 0 {
        let r = off % align;
        assert(0 <= r < align) by {
            vstd::arithmetic::div_mod::lemma_mod_bound(off, align);
        }
        assert((off + align - r) % align == 0) by (nonlinear_arith)
            requires
                align >= 1,
                r == off % align,
                off >= 0,
        ;
    }
}

/// `off_after` never goes negative.
proof fn lemma_off_after_nonneg(s: Seq<ComponentType>, cap: int, k: int)
    requires
        components_sized(s),
        cap >= 1,
        0 <= k <= s.len(),
    ensures
        off_after(s, cap, k) >= 0,
    decreases k,
{
    if k > 0 {
        lemma_off_after_nonneg(s, cap, k - 1);
        lemma_aligned_up(off_after(s, cap, k - 1), s[k - 1].align as int);
        assert(s[k - 1].size * cap >= 0) by (nonlinear_arith)
            requires
                s[k - 1].size >= 1,
                cap >= 1,
        ;
    }
}

/// `off_after` grows with the column index.
proof fn lemma_off_after_le(s: Seq<ComponentType>, cap: int, k1: int, k2: int)
    requires
        components_sized(s),
        cap >= 1,
        0 <= k1 <= k2 <= s.len(),
    ensures
        0 <= off_after(s, cap, k1) <= off_after(s, cap, k2),
    decreases k2 - k1,
{
    lemma_off_after_nonneg(s, cap, k1);
    if k1 < k2 {
        lemma_off_after_le(s, cap, k1, k2 - 1);
        let prev = off_after(s, cap, k2 - 1);
        lemma_off_after_nonneg(s, cap, k2 - 1);
        lemma_aligned_up(prev, s[k2 - 1].align as int);
        assert(s[k2 - 1].size * cap >= 0) by (nonlinear_arith)
            requires
                s[k2 - 1].size >= 1,
                cap >= 1,
        ;
    }
}

/// Under a fitting layout every intermediate offset stays within the
/// page, so the executable arithmetic cannot overflow.
proof fn lemma_off_after_bounds(s: Seq<ComponentType>, cap: int, k: int)
    requires
        components_sized(s),
        cap >= 1,
        0 <= k <= s.len(),
        layout_end(s, cap) <= PAGE_SIZE_BYTES as int,
    ensures
        0 <= off_after(s, cap, k) <= PAGE_SIZE_BYTES as int,
{
    lemma_off_after_le(s, cap, 0, k);
    lemma_off_after_le(s, cap, k, s.len() as int);
}

/// The capacity formula yields a positive capacity only when the row
/// budget covers every component, which also keeps the executable
/// subtraction in bounds.
proof fn lemma_capacity_fits(s: Seq<ComponentType>)
    requires
        layout_fits(s),
    ensures
        approx_row_bytes(s) >= 1,
        max_align_prefix(s, s.len() as int) % 8 <= PAGE_SIZE_BYTES as int / s.len() as int,
        layout_capacity(s) >= 1,
        forall|k: int| 1 <= k <= s.len() ==> #[trigger] capacity_prefix(s, k) >= layout_capacity(s),
        max_align_prefix(s, s.len() as int) >= 0,
{
    lemma_capacity_prefix_le(s, s.len() as int);
    assert(approx_row_bytes(s) / (s[0].size as int) >= 1);
    assert(approx_row_bytes(s) >= 1) by (nonlinear_arith)
        requires
            s[0].size >= 1,
            approx_row_bytes(s) / (s[0].size as int) >= 1,
    ;
    lemma_max_align_nonneg(s, s.len() as int);
}

/// The running minimum only decreases as more components are seen.
proof fn lemma_capacity_prefix_le(s: Seq<ComponentType>, k: int)
    requires
        1 <= k <= s.len(),
    ensures
        forall|j: int| 1 <= j <= k ==> #[trigger] capacity_prefix(s, j) >= capacity_prefix(s, k),
        capacity_prefix(s, 1) == approx_row_bytes(s) / (s[0].size as int),
    decreases k,
{
    if k > 1 {
        lemma_capacity_prefix_le(s, k - 1);
    }
}

proof fn lemma_max_align_nonneg(s: Seq<ComponentType>, k: int)
    requires
        0 <= k <= s.len(),
    ensures
        max_align_prefix(s, k) >= 0,
    decreases k,
{
    if k > 0 {
        lemma_max_align_nonneg(s, k - 1);
    }
}

/// The computed offsets obey the structural layout facts.
proof fn lemma_layout_wf(s: Seq<ComponentType>, layout: ArchetypeLayout)
    requires
        layout_fits(s),
        layout.entities_capacity == layout_capacity(s),
        layout.offsets@.len() == s.len(),
        forall|k: int|
            0 <= k < s.len() ==> layout.offsets@[k] == column_offset(
                s,
                layout_capacity(s),
                k,
            ),
    ensures
        layout_wf(s, layout),
{
    let cap = layout_capacity(s);
    assert forall|k: int|
        0 <= k < s.len() implies (#[trigger] layout.offsets@[k]) + s[k].size
        * layout.entities_capacity <= (if k + 1 < s.len() {
        layout.offsets@[k + 1] as int
    } else {
        PAGE_SIZE_BYTES as int
    }) by {
        assert(off_after(s, cap, k + 1) == column_offset(s, cap, k) + s[k].size * cap);
        if k + 1 < s.len() {
            lemma_off_after_le(s, cap, k + 1, k + 1);
            lemma_aligned_up(off_after(s, cap, k + 1), s[k + 1].align as int);
            assert(layout.offsets@[k + 1] == column_offset(s, cap, k + 1));
        } else {
            lemma_off_after_le(s, cap, k + 1, s.len() as int);
        }
    }
}

} // verus!
