pub mod access;
pub mod component;
pub mod entity_component;
pub mod ordered_component;

pub use access::{ComponentQueryAccess, ReadWriteAccess, ReadonlyAccess, WriteAccess};
pub use component::{ComponentQuery, ComponentsQueryIter, FilterTagIter, WithEntitiesIter};
pub use entity_component::{EntityComponentQuery, EntityComponentQueryIter};
pub use ordered_component::{OrderedComponentQuery, OrderedComponentQueryIter};
