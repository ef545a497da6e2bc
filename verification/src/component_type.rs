use vstd::prelude::*;

verus! {

/// A value object describing one component type: a process-stable numeric
/// `id`, the payload `size` in bytes, the payload `align`ment, and a
/// human-readable `name` for diagnostics.  Two descriptors are equal iff
/// their ids are equal.
#[derive(Debug, Clone, Copy)]
pub struct ComponentType {
    pub id: u64,
    pub size: usize,
    pub align: usize,
    pub name: &'static str,
}

impl ComponentType {
    /// Builds the descriptor of a component type from its stable id, its
    /// payload size and alignment in bytes, and its name.
    pub fn of(id: u64, size: usize, align: usize, name: &'static str) -> (r: ComponentType)
        ensures
            r.id == id,
            r.size == size,
            r.align == align,
            r.name == name,
    {
        ComponentType { id, size, align, name }
    }

    #[inline(always)]
    pub fn id(&self) -> (r: u64)
        ensures
            r == self.id,
    {
        self.id
    }

    #[inline(always)]
    pub fn size(&self) -> (r: usize)
        ensures
            r == self.size,
    {
        self.size
    }

    #[inline(always)]
    pub fn align(&self) -> (r: usize)
        ensures
            r == self.align,
    {
        self.align
    }

    #[inline(always)]
    pub fn name(&self) -> (r: &'static str)
        ensures
            r == self.name,
    {
        self.name
    }
}

/// Descriptor equality is equality of ids: `size`, `align` and `name` are
/// carried for layout computation and diagnostics only.
impl PartialEq for ComponentType {
    fn eq(&self, other: &Self) -> (r: bool) {
        self.id == other.id
    }
}

impl vstd::std_specs::cmp::PartialEqSpecImpl for ComponentType {
    open spec fn obeys_eq_spec() -> bool {
        true
    }

    open spec fn eq_spec(&self, other: &Self) -> bool {
        self.id == other.id
    }
}

} // verus!
