//! Storage and queries of an entity-component system: entities with
//! generational handles, their components kept in tables of the entities
//! that share one set of component types, and queries over those tables.
use vstd::prelude::*;

pub mod archetypes;
pub mod components;
pub mod draw;
pub mod entities;
pub mod frames;
pub mod queries;
pub mod queues;
pub mod registries;
pub mod type_ids;
pub mod world;

pub use crate::archetypes::{Archetype, ArchetypeKey};
pub use crate::components::{
    Camera, ComponentStorage, ComponentTuple, ComponentTypeIndexRegistry, MeshHandle,
};
pub use crate::entities::{EntityAllocator, EntityId, EntityLocationMap};
pub use crate::queries::{Query, QueryRow};
pub use crate::world::World;

verus! {

} // verus!
