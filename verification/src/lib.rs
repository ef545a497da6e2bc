//! An archetype-based entity-component store.
//!
//! Entities are lightweight handles `{id, version}`; their data lives in
//! fixed-size pages, column by column, grouped by the exact set of component
//! types (the archetype) each entity owns.  Component payloads are plain
//! bytes: a component type is described by `{id, size, align, name}` and a
//! component value by a byte vector of that size.

mod archetype;
mod archetype_builder;
mod archetype_data_page;
mod archetypes_container;
mod archetype_layout;
mod bitvec_utils;
mod component_type;
mod entities_container;
mod entity;
mod order_group_container;
mod resource_store;
mod store;
mod tag_container;

pub use archetype::Archetype;
pub use archetype::ArchetypesUnion;
pub use archetype_builder::ArchetypeBuilder;
pub use component_type::ComponentType;
pub use entity::Entity;
pub use resource_store::ResourceStore;
pub use store::ComponentData;
pub use store::Store;
pub mod query;
