//! The parent-child hierarchy of entities: each entity may point to a parent with a
//! `ChildOf` component, and each parent lists its children, in order, in a `Children`
//! component. Inserting, replacing or removing `ChildOf` keeps the lists in step;
//! despawning an entity despawns everything below it.

pub mod entity;
pub mod model;
pub mod world;
pub mod hierarchy;
pub mod bundle;
pub mod commands;
pub mod laws;
