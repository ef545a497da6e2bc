use vstd::prelude::*;

use crate::component_type::ComponentType;

verus! {

/// A read-only access pattern: the component types a query reads.
pub struct ReadonlyAccess {
    pub read_types: Vec<ComponentType>,
}

/// A write access pattern: the component types a query writes back.
pub struct WriteAccess {
    pub write_types: Vec<ComponentType>,
}

/// A mixed access pattern.
pub struct ReadWriteAccess {
    pub read_types: Vec<ComponentType>,
    pub write_types: Vec<ComponentType>,
}

/// What a query needs from the store: the component types every matched
/// entity must carry, in the order their payloads are yielded.
pub struct ComponentQueryAccess {
    pub component_types: Vec<ComponentType>,
}

impl ReadonlyAccess {
    /// The access over the read types alone.
    pub fn into_query_access(self) -> (r: ComponentQueryAccess)
        ensures
            r.component_types@ == self.read_types@,
    {
        ComponentQueryAccess { component_types: self.read_types }
    }
}

impl WriteAccess {
    /// The access over the written types alone.
    pub fn into_query_access(self) -> (r: ComponentQueryAccess)
        ensures
            r.component_types@ == self.write_types@,
    {
        ComponentQueryAccess { component_types: self.write_types }
    }
}

impl ReadWriteAccess {
    /// The access over the read types followed by the written types.
    pub fn into_query_access(self) -> (r: ComponentQueryAccess)
        ensures
            r.component_types@ == self.read_types@ + self.write_types@,
    {
        let mut component_types = self.read_types;
        let mut write_types = self.write_types;
        component_types.append(&mut write_types);
        ComponentQueryAccess { component_types }
    }
}

} // verus!
