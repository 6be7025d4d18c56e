//! An in-memory store that attaches values to lightweight entity handles and
//! finds the entities that hold a given combination of them, with every
//! operation proved against a mathematical model of the store.
//!
//! The store itself:
//! - `entity`: handles with generations, and the registry that hands them out;
//! - `component`: the ids of component types, and the columns of values;
//! - `archetype`: the buckets of entities that hold the same types;
//! - `world`: the store and its operations;
//! - `query`: running a function over the entities that hold given types;
//! - `model`: what a store holds and how it keeps it, as mathematics;
//! - `laws`: what follows for every store.
//!
//! Beside it, what a game built on the store computes in whole numbers:
//! - `atlas`: laying images out in a texture atlas;
//! - `chunk`: the cells and blocks of a piece of terrain;
//! - `tile`: the files and the drawing data of a tile.

pub mod archetype;
pub mod atlas;
pub mod chunk;
pub mod component;
pub mod entity;
pub mod error;
mod index;
pub mod laws;
pub mod model;
pub mod query;
pub mod tile;
pub mod world;

pub use archetype::{Archetype, Bucket};
pub use component::{
    Bundle, Component, ComponentId, ComponentList, ComponentListOps, ComponentRegistry, TypeKey,
};
pub use entity::{Entity, EntityId, EntityRegistry};
pub use error::EcsError;
pub use model::{Layout, Step, WorldView};
pub use world::World;
