//! An entity-component-system core for a small game engine: generational
//! entity handles, archetype storage, worlds with resources, queries,
//! staged system scheduling, lazily resolved resources and scene management.

pub mod assets;
pub mod components;
pub mod entity;
pub mod input;
pub mod manager;
pub mod query;
pub mod scene;
pub mod settings;
pub mod system;
pub mod world;

