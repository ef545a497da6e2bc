use vstd::prelude::*;

use crate::archetype::Archetype;
use crate::archetype_layout::{layout_wf, ArchetypeLayout};
use crate::component_type::ComponentType;

verus! {

/// The fixed size of one data page, in bytes.
pub const PAGE_SIZE_BYTES: usize = 16384;

/// A reusable page of component data with a fixed byte size, bound to one
/// archetype at a time.  Component values are stored column-wise: column
/// `k` of the page holds the bytes of component `k` for every entity row,
/// and `entities_ids[row]` names the entity occupying each row.
#[derive(Debug)]
pub struct ArchetypeDataPage {
    pub components_data: Vec<u8>,
    pub entities_ids: Vec<u32>,
    pub capacity: usize,
}

/// The entity id whose row was moved into the vacated row by a
/// swap-remove, so the caller can rewrite its side tables.
pub struct SwapRemoveInfo {
    pub id_to_replace: u32,
}

/// The first byte of the cell holding component `k` of row `row`.
pub open spec fn cell_start(offsets: Seq<usize>, comps: Seq<ComponentType>, k: int, row: int) -> int {
    offsets[k] + comps[k].size * row
}

/// Whether byte position `p` lies in the cell of component `k`, row `row`.
pub open spec fn in_cell(
    offsets: Seq<usize>,
    comps: Seq<ComponentType>,
    k: int,
    row: int,
    p: int,
) -> bool {
    cell_start(offsets, comps, k, row) <= p < cell_start(offsets, comps, k, row) + comps[k].size
}

/// Byte `b` of the cell of component `k`, row `row`, in `data`.
pub open spec fn cell_byte(
    data: Seq<u8>,
    offsets: Seq<usize>,
    comps: Seq<ComponentType>,
    k: int,
    row: int,
    b: int,
) -> u8 {
    data[cell_start(offsets, comps, k, row) + b]
}

impl ArchetypeDataPage {
    /// A page is always exactly one page of bytes, with no more rows than
    /// its capacity.
    pub open spec fn wf(self) -> bool {
        &&& self.components_data@.len() == PAGE_SIZE_BYTES
        &&& self.entities_ids@.len() <= self.capacity
    }

    /// A fresh, unbound page: no rows, no capacity yet.
    pub fn new() -> (r: ArchetypeDataPage)
        ensures
            r.wf(),
            r.entities_ids@.len() == 0,
            r.capacity == 0,
    {
        ArchetypeDataPage {
            components_data: vec![0u8; PAGE_SIZE_BYTES],
            entities_ids: Vec::new(),
            capacity: 0,
        }
    }

    /// Binds the page to an archetype's layout, fixing how many rows it
    /// holds.  Only empty pages are rebound.
    pub fn set_layout(&mut self, layout: &ArchetypeLayout)
        requires
            old(self).wf(),
            old(self).entities_ids@.len() == 0,
        ensures
            final(self).wf(),
            final(self).capacity == layout.entities_capacity,
            final(self).entities_ids@ == old(self).entities_ids@,
            final(self).components_data@ == old(self).components_data@,
    {
        self.capacity = layout.entities_capacity;
    }

    /// How many rows are currently occupied.
    #[inline(always)]
    pub fn entity_count(&self) -> (r: usize)
        ensures
            r == self.entities_ids@.len(),
    {
        self.entities_ids.len()
    }

    /// How many rows the page holds at most.
    #[inline(always)]
    pub fn entities_capacity(&self) -> (r: usize)
        ensures
            r == self.capacity,
    {
        self.capacity
    }

    /// The entity ids occupying rows `0..entity_count()`.
    #[inline(always)]
    pub fn entities_ids(&self) -> (r: &Vec<u32>)
        ensures
            r@ == self.entities_ids@,
    {
        &self.entities_ids
    }

    /// Whether another row can be added.
    #[inline(always)]
    pub fn has_free_space(&self) -> (r: bool)
        ensures
            r == (self.entities_ids@.len() < self.capacity),
    {
        self.entities_ids.len() < self.capacity
    }

    /// Appends an entity id, returning its row index.
    pub fn add_entity_id(&mut self, id: u32) -> (row: usize)
        requires
            old(self).wf(),
            old(self).entities_ids@.len() < old(self).capacity,
        ensures
            final(self).wf(),
            final(self).entities_ids@ == old(self).entities_ids@.push(id),
            final(self).components_data@ == old(self).components_data@,
            final(self).capacity == old(self).capacity,
            row == old(self).entities_ids@.len(),
    {
        self.entities_ids.push(id);
        self.entities_ids.len() - 1
    }

    /// A copy of the `type_size` bytes of the cell at the given column
    /// offset and row.
    pub fn get_component_data(
        &self,
        entity_index: usize,
        component_offset: usize,
        type_size: usize,
    ) -> (r: Vec<u8>)
        requires
            self.wf(),
            component_offset + type_size * (entity_index + 1) <= PAGE_SIZE_BYTES,
        ensures
            r@.len() == type_size,
            forall|b: int|
                0 <= b < type_size ==> r@[b] == self.components_data@[component_offset + type_size
                    * entity_index + b],
    {
        proof {
            assert(type_size * entity_index + type_size == type_size * (entity_index + 1))
                by (nonlinear_arith);
            assert(type_size * entity_index >= 0) by (nonlinear_arith);
        }
        let start = component_offset + type_size * entity_index;
        let mut r: Vec<u8> = Vec::new();
        let mut b: usize = 0;
        while b < type_size
            invariant
                start == component_offset + type_size * entity_index,
                start + type_size <= PAGE_SIZE_BYTES,
                self.components_data@.len() == PAGE_SIZE_BYTES,
                0 <= b <= type_size,
                r@.len() == b,
                forall|j: int| 0 <= j < b ==> r@[j] == self.components_data@[start + j],
            decreases type_size - b,
        {
            r.push(self.components_data[start + b]);
            b = b + 1;
        }
        r
    }

    /// Writes `bytes` into the cell at the given column offset and row;
    /// every byte outside that cell keeps its value.
    pub fn set_component_data(
        &mut self,
        entity_index: usize,
        component_offset: usize,
        bytes: &[u8],
    )
        requires
            old(self).wf(),
            component_offset + bytes@.len() * (entity_index + 1) <= PAGE_SIZE_BYTES,
        ensures
            final(self).wf(),
            final(self).entities_ids@ == old(self).entities_ids@,
            final(self).capacity == old(self).capacity,
            final(self).components_data@.len() == PAGE_SIZE_BYTES,
            forall|b: int|
                0 <= b < bytes@.len() ==> final(self).components_data@[component_offset
                    + bytes@.len() * entity_index + b] == bytes@[b],
            forall|p: int|
                0 <= p < PAGE_SIZE_BYTES && !(component_offset + bytes@.len() * entity_index <= p
                    < component_offset + bytes@.len() * entity_index + bytes@.len())
                    ==> final(self).components_data@[p] == old(self).components_data@[p],
    {
        let type_size = bytes.len();
        proof {
            assert(type_size * entity_index + type_size == type_size * (entity_index + 1))
                by (nonlinear_arith);
            assert(type_size * entity_index >= 0) by (nonlinear_arith);
        }
        let start = component_offset + type_size * entity_index;
        let mut b: usize = 0;
        while b < type_size
            invariant
                start == component_offset + type_size * entity_index,
                start + type_size <= PAGE_SIZE_BYTES,
                self.components_data@.len() == PAGE_SIZE_BYTES,
                bytes@.len() == type_size,
                0 <= b <= type_size,
                self.entities_ids@ == old(self).entities_ids@,
                self.capacity == old(self).capacity,
                forall|j: int| 0 <= j < b ==> self.components_data@[start + j] == bytes@[j],
                forall|p: int|
                    0 <= p < PAGE_SIZE_BYTES && !(start <= p < start + b) ==> self.components_data@[p]
                        == old(self).components_data@[p],
            decreases type_size - b,
        {
            self.components_data.set(start + b, bytes[b]);
            b = b + 1;
        }
    }

    /// Removes the row at `index` by moving the last row into it: the
    /// id vector is swap-removed, and every column's bytes for the last
    /// row are copied into row `index`.  Returns the id that was moved,
    /// if any, so the caller can rewrite its side tables.
    pub fn swap_remove_entity_at_index(
        &mut self,
        index: usize,
        archetype: &Archetype,
        layout: &ArchetypeLayout,
    ) -> (r: Option<SwapRemoveInfo>)
        requires
            old(self).wf(),
            index < old(self).entities_ids@.len(),
            layout_wf(archetype@, *layout),
            layout.entities_capacity == old(self).capacity,
        ensures
            final(self).wf(),
            final(self).capacity == old(self).capacity,
            final(self).entities_ids@ == old(self).entities_ids@.update(
                index as int,
                old(self).entities_ids@.last(),
            ).drop_last(),
            final(self).components_data@.len() == PAGE_SIZE_BYTES,
            index + 1 == old(self).entities_ids@.len() ==> r is None
                && final(self).components_data@ == old(self).components_data@,
            index + 1 < old(self).entities_ids@.len() ==> {
                let last = old(self).entities_ids@.len() - 1;
                &&& r == Some(SwapRemoveInfo { id_to_replace: old(self).entities_ids@.last() })
                &&& forall|k: int, b: int|
                    0 <= k < archetype@.len() && 0 <= b < archetype@[k].size ==> #[trigger]
                    cell_byte(
                        final(self).components_data@,
                        layout.offsets@,
                        archetype@,
                        k,
                        index as int,
                        b,
                    ) == cell_byte(
                        old(self).components_data@,
                        layout.offsets@,
                        archetype@,
                        k,
                        last,
                        b,
                    )
                &&& forall|p: int|
                    0 <= p < PAGE_SIZE_BYTES && (forall|k: int|
                        0 <= k < archetype@.len() ==> !in_cell(
                            layout.offsets@,
                            archetype@,
                            k,
                            index as int,
                            p,
                        )) ==> final(self).components_data@[p] == old(self).components_data@[p]
            },
    {
        let last = self.entities_ids.len() - 1;
        self.entities_ids.swap_remove(index);
        if index < last {
            let ghost old_data = self.components_data@;
            let count = archetype.component_count();
            let offsets = layout.component_offsets();
            proof {
                assert(offsets@.len() == count);
            }
            let mut k: usize = 0;
            while k < count
                invariant
                    self.wf(),
                    count == archetype@.len(),
                    offsets@ == layout.offsets@,
                    layout_wf(archetype@, *layout),
                    layout.entities_capacity == self.capacity,
                    index < last < self.capacity,
                    0 <= k <= count,
                    self.entities_ids@ == old(self).entities_ids@.update(
                        index as int,
                        old(self).entities_ids@.last(),
                    ).drop_last(),
                    self.capacity == old(self).capacity,
                    old_data == old(self).components_data@,
                    old_data.len() == PAGE_SIZE_BYTES,
                    self.components_data@.len() == PAGE_SIZE_BYTES,
                    forall|j: int, b: int|
                        0 <= j < k && 0 <= b < archetype@[j].size ==> #[trigger] cell_byte(
                            self.components_data@,
                            layout.offsets@,
                            archetype@,
                            j,
                            index as int,
                            b,
                        ) == cell_byte(old_data, layout.offsets@, archetype@, j, last as int, b),
                    forall|p: int|
                        0 <= p < PAGE_SIZE_BYTES && (forall|j: int|
                            0 <= j < k ==> !in_cell(
                                layout.offsets@,
                                archetype@,
                                j,
                                index as int,
                                p,
                            )) ==> self.components_data@[p] == old_data[p],
                decreases count - k,
            {
                let c = archetype.component_at(k);
                let off = offsets[k];
                proof {
                    lemma_cell_bounds(archetype@, *layout, k as int, last as int);
                    lemma_cell_bounds(archetype@, *layout, k as int, index as int);
                }
                let bytes = self.get_component_data(last, off, c.size);
                let ghost pre = self.components_data@;
                self.set_component_data(index, off, bytes.as_slice());
                proof {
                    lemma_swap_remove_step(
                        archetype@,
                        *layout,
                        old_data,
                        pre,
                        self.components_data@,
                        bytes@,
                        k as int,
                        index as int,
                        last as int,
                    );
                }
                k = k + 1;
            }
            let id_to_replace = self.entities_ids[index];
            proof {
                assert(id_to_replace == old(self).entities_ids@.last());
            }
            Some(SwapRemoveInfo { id_to_replace })
        } else {
            None
        }
    }
}

/// Each column's extent `[offsets[k], offsets[k] + size * capacity)`
/// ends within the page.
pub proof fn lemma_column_within_page(arch: Seq<ComponentType>, layout: ArchetypeLayout, k: int)
    requires
        layout_wf(arch, layout),
        0 <= k < arch.len(),
    ensures
        layout.offsets@[k] + arch[k].size * layout.entities_capacity <= PAGE_SIZE_BYTES,
    decreases arch.len() - k,
{
    if k + 1 < arch.len() {
        lemma_column_within_page(arch, layout, k + 1);
        assert(arch[k + 1].size * layout.entities_capacity >= 0) by (nonlinear_arith)
            requires
                arch[k + 1].size >= 1,
                layout.entities_capacity >= 1,
        ;
    }
}

/// A cell lies inside its column's extent, hence inside the page.
pub proof fn lemma_cell_bounds(arch: Seq<ComponentType>, layout: ArchetypeLayout, k: int, row: int)
    requires
        layout_wf(arch, layout),
        0 <= k < arch.len(),
        0 <= row < layout.entities_capacity,
    ensures
        layout.offsets@[k] <= cell_start(layout.offsets@, arch, k, row),
        cell_start(layout.offsets@, arch, k, row) + arch[k].size <= layout.offsets@[k] + arch[
            k
        ].size * layout.entities_capacity,
        cell_start(layout.offsets@, arch, k, row) + arch[k].size * (1 as int) <= PAGE_SIZE_BYTES,
        layout.offsets@[k] + arch[k].size * (row + 1) <= PAGE_SIZE_BYTES,
{
    lemma_column_within_page(arch, layout, k);
    assert(arch[k].size * row >= 0 && arch[k].size * row + arch[k].size == arch[k].size * (row
        + 1) && arch[k].size * (row + 1) <= arch[k].size * layout.entities_capacity)
        by (nonlinear_arith)
        requires
            arch[k].size >= 1,
            0 <= row < layout.entities_capacity,
    ;
}

/// Two cells overlap only if they are the same cell.
pub proof fn lemma_cells_disjoint(
    arch: Seq<ComponentType>,
    layout: ArchetypeLayout,
    k1: int,
    row1: int,
    k2: int,
    row2: int,
    p: int,
)
    requires
        layout_wf(arch, layout),
        0 <= k1 < arch.len(),
        0 <= k2 < arch.len(),
        0 <= row1 < layout.entities_capacity,
        0 <= row2 < layout.entities_capacity,
        in_cell(layout.offsets@, arch, k1, row1, p),
        in_cell(layout.offsets@, arch, k2, row2, p),
    ensures
        k1 == k2,
        row1 == row2,
{
    lemma_cell_bounds(arch, layout, k1, row1);
    lemma_cell_bounds(arch, layout, k2, row2);
    if k1 < k2 {
        lemma_offsets_ordered(arch, layout, k1, k2);
    }
    if k2 < k1 {
        lemma_offsets_ordered(arch, layout, k2, k1);
    }
    if k1 == k2 && row1 != row2 {
        let size = arch[k1].size as int;
        assert(false) by (nonlinear_arith)
            requires
                size >= 1,
                row1 != row2,
                0 <= row1,
                0 <= row2,
                layout.offsets@[k1] + size * row1 <= p < layout.offsets@[k1] + size * row1 + size,
                layout.offsets@[k1] + size * row2 <= p < layout.offsets@[k1] + size * row2 + size,
        ;
    }
}

/// Column extents come one after the other.
#[verifier::rlimit(50)]
/// Two cells whose bytes agree position by position are equal as byte
/// ranges.
pub proof fn lemma_cell_ranges_equal(
    d1: Seq<u8>,
    a1: Seq<ComponentType>,
    l1: ArchetypeLayout,
    k1: int,
    r1: int,
    d2: Seq<u8>,
    a2: Seq<ComponentType>,
    l2: ArchetypeLayout,
    k2: int,
    r2: int,
)
    requires
        crate::archetype_layout::layout_wf(a1, l1),
        crate::archetype_layout::layout_wf(a2, l2),
        d1.len() == PAGE_SIZE_BYTES,
        d2.len() == PAGE_SIZE_BYTES,
        0 <= k1 < a1.len(),
        0 <= r1 < l1.entities_capacity,
        0 <= k2 < a2.len(),
        0 <= r2 < l2.entities_capacity,
        a1[k1].size == a2[k2].size,
        forall|b: int|
            0 <= b < a1[k1].size ==> cell_byte(d1, l1.offsets@, a1, k1, r1, b) == cell_byte(
                d2,
                l2.offsets@,
                a2,
                k2,
                r2,
                b,
            ),
    ensures
        d1.subrange(
            cell_start(l1.offsets@, a1, k1, r1),
            cell_start(l1.offsets@, a1, k1, r1) + a1[k1].size,
        ) == d2.subrange(
            cell_start(l2.offsets@, a2, k2, r2),
            cell_start(l2.offsets@, a2, k2, r2) + a2[k2].size,
        ),
{
    lemma_cell_bounds(a1, l1, k1, r1);
    lemma_cell_bounds(a2, l2, k2, r2);
    let c1 = cell_start(l1.offsets@, a1, k1, r1);
    let c2 = cell_start(l2.offsets@, a2, k2, r2);
    let s1 = d1.subrange(c1, c1 + a1[k1].size);
    let s2 = d2.subrange(c2, c2 + a2[k2].size);
    assert forall|b: int| 0 <= b < a1[k1].size implies s1[b] == s2[b] by {
        assert(cell_byte(d1, l1.offsets@, a1, k1, r1, b) == cell_byte(d2, l2.offsets@, a2, k2, r2, b));
    }
    assert(s1 =~= s2);
}

#[verifier::rlimit(100)]
#[verifier::spinoff_prover]
pub proof fn lemma_offsets_ordered(arch: Seq<ComponentType>, layout: ArchetypeLayout, k1: int, k2: int)
    requires
        layout_wf(arch, layout),
        0 <= k1 < k2 < arch.len(),
    ensures
        layout.offsets@[k1] + arch[k1].size * layout.entities_capacity <= layout.offsets@[k2],
    decreases k2 - k1,
{
    if k1 + 1 < k2 {
        lemma_offsets_ordered(arch, layout, k1 + 1, k2);
        assert(arch[k1 + 1].size * layout.entities_capacity >= 0) by (nonlinear_arith)
            requires
                arch[k1 + 1].size >= 1,
                layout.entities_capacity >= 1,
        ;
    }
}

/// One column move of the swap-remove keeps the already-moved columns
/// and the untouched bytes, and lands the new column's bytes.
proof fn lemma_swap_remove_step(
    arch: Seq<ComponentType>,
    layout: ArchetypeLayout,
    old_data: Seq<u8>,
    pre: Seq<u8>,
    post: Seq<u8>,
    bytes: Seq<u8>,
    k: int,
    index: int,
    last: int,
)
    requires
        layout_wf(arch, layout),
        0 <= k < arch.len(),
        0 <= index < last < layout.entities_capacity,
        old_data.len() == PAGE_SIZE_BYTES,
        pre.len() == PAGE_SIZE_BYTES,
        post.len() == PAGE_SIZE_BYTES,
        bytes.len() == arch[k].size,
        // bytes read from the last row's cell in `pre`
        forall|b: int|
            0 <= b < arch[k].size ==> bytes[b] == pre[cell_start(layout.offsets@, arch, k, last)
                + b],
        // the write landed in the cell at `index` and nowhere else
        forall|b: int|
            0 <= b < arch[k].size ==> post[cell_start(layout.offsets@, arch, k, index) + b]
                == bytes[b],
        forall|p: int|
            0 <= p < PAGE_SIZE_BYTES && !(cell_start(layout.offsets@, arch, k, index) <= p
                < cell_start(layout.offsets@, arch, k, index) + arch[k].size) ==> post[p]
                == pre[p],
        // what held of `pre` after the first k columns were moved
        forall|j: int, b: int|
            0 <= j < k && 0 <= b < arch[j].size ==> #[trigger] cell_byte(
                pre,
                layout.offsets@,
                arch,
                j,
                index,
                b,
            ) == cell_byte(old_data, layout.offsets@, arch, j, last, b),
        forall|p: int|
            0 <= p < PAGE_SIZE_BYTES && (forall|j: int|
                0 <= j < k ==> !in_cell(layout.offsets@, arch, j, index, p)) ==> pre[p]
                == old_data[p],
    ensures
        forall|j: int, b: int|
            0 <= j < k + 1 && 0 <= b < arch[j].size ==> #[trigger] cell_byte(
                post,
                layout.offsets@,
                arch,
                j,
                index,
                b,
            ) == cell_byte(old_data, layout.offsets@, arch, j, last, b),
        forall|p: int|
            0 <= p < PAGE_SIZE_BYTES && (forall|j: int|
                0 <= j < k + 1 ==> !in_cell(layout.offsets@, arch, j, index, p)) ==> post[p]
                == old_data[p],
{
    let offs = layout.offsets@;
    assert forall|j: int, b: int|
        0 <= j < k + 1 && 0 <= b < arch[j].size implies #[trigger] cell_byte(
        post,
        offs,
        arch,
        j,
        index,
        b,
    ) == cell_byte(old_data, offs, arch, j, last, b) by {
        lemma_swap_one(arch, layout, old_data, pre, post, bytes, k, index, last, j, b);
    }
    assert forall|p: int|
        0 <= p < PAGE_SIZE_BYTES && (forall|j: int|
            0 <= j < k + 1 ==> !in_cell(offs, arch, j, index, p)) implies post[p] == old_data[p] by {
        assert(!in_cell(offs, arch, k, index, p));
        assert(post[p] == pre[p]);
    }
}

/// One byte of one already- or freshly-moved column, after the write of
/// column `k`.
proof fn lemma_swap_one(
    arch: Seq<ComponentType>,
    layout: ArchetypeLayout,
    old_data: Seq<u8>,
    pre: Seq<u8>,
    post: Seq<u8>,
    bytes: Seq<u8>,
    k: int,
    index: int,
    last: int,
    j: int,
    b: int,
)
    requires
        layout_wf(arch, layout),
        0 <= k < arch.len(),
        0 <= index < last < layout.entities_capacity,
        old_data.len() == PAGE_SIZE_BYTES,
        pre.len() == PAGE_SIZE_BYTES,
        post.len() == PAGE_SIZE_BYTES,
        bytes.len() == arch[k].size,
        forall|b: int|
            0 <= b < arch[k].size ==> bytes[b] == pre[cell_start(layout.offsets@, arch, k, last)
                + b],
        forall|b: int|
            0 <= b < arch[k].size ==> post[cell_start(layout.offsets@, arch, k, index) + b]
                == bytes[b],
        forall|p: int|
            0 <= p < PAGE_SIZE_BYTES && !(cell_start(layout.offsets@, arch, k, index) <= p
                < cell_start(layout.offsets@, arch, k, index) + arch[k].size) ==> post[p]
                == pre[p],
        forall|j: int, b: int|
            0 <= j < k && 0 <= b < arch[j].size ==> #[trigger] cell_byte(
                pre,
                layout.offsets@,
                arch,
                j,
                index,
                b,
            ) == cell_byte(old_data, layout.offsets@, arch, j, last, b),
        forall|p: int|
            0 <= p < PAGE_SIZE_BYTES && (forall|j: int|
                0 <= j < k ==> !in_cell(layout.offsets@, arch, j, index, p)) ==> pre[p]
                == old_data[p],
        0 <= j < k + 1,
        0 <= b < arch[j].size,
    ensures
        cell_byte(post, layout.offsets@, arch, j, index, b) == cell_byte(
            old_data,
            layout.offsets@,
            arch,
            j,
            last,
            b,
        ),
{
    let offs = layout.offsets@;
    lemma_cell_bounds(arch, layout, j, index);
    lemma_cell_bounds(arch, layout, j, last);
    let q = cell_start(offs, arch, j, index) + b;
    let src = cell_start(offs, arch, j, last) + b;
    if j < k {
        assert(in_cell(offs, arch, j, index, q));
        if cell_start(offs, arch, k, index) <= q < cell_start(offs, arch, k, index) + arch[
            k
        ].size {
            lemma_cells_disjoint(arch, layout, j, index, k, index, q);
        }
        assert(post[q] == pre[q]);
        assert(cell_byte(pre, offs, arch, j, index, b) == cell_byte(old_data, offs, arch, j, last, b));
    } else {
        assert(post[q] == bytes[b]);
        assert(bytes[b] == pre[src]);
        assert(in_cell(offs, arch, k, last, src));
        assert forall|j2: int| 0 <= j2 < k implies !in_cell(offs, arch, j2, index, src) by {
            if in_cell(offs, arch, j2, index, src) {
                lemma_cells_disjoint(arch, layout, j2, index, k, last, src);
            }
        }
        assert(pre[src] == old_data[src]);
    }
}

} // verus!
