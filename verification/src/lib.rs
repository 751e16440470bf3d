//! A small entity-component core: entities are opaque identities, components
//! are typed values attached to entities, and per-tick systems read and
//! mutate component storages through a single `World` value.
//!
//! The component set is closed and registered at startup; storages keep
//! insertion order, joins walk exactly the entities holding every requested
//! component kind, and entity destruction is deferred to one sync point per
//! tick (`maintain`), after the systems and before the render pass.

pub mod components;
pub mod storage;
pub mod world;
pub mod systems;
pub mod render;
