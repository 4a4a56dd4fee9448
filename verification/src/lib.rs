//! Archetype-based entity and component storage with a query layer.
//!
//! A [`world::World`] groups entities into archetypes by the set of
//! component types they hold. Each archetype keeps one densely packed
//! column per component type. A [`query::Query`] walks every archetype
//! whose layout matches a list of requested accesses and a predicate.
//!
//! Component types are named by keys. A column keeps a record of the
//! accessors that are out on it: any number of readers or one writer, never
//! both. Handing out an accessor that the record forbids is a fault of the
//! caller, which the contracts rule out; the `try_` and `can_` functions
//! test for it at run time.

pub mod layout;
pub mod component;
pub mod column;
pub mod prototype;
pub mod archetypes;
pub mod world;
pub mod systems;
pub mod query;
pub mod laws;
