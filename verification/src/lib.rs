//! Bidirectional entity relationships: reverse collections of referencing
//! entities, and the maintenance protocol that keeps forward links and
//! reverse collections consistent under insertion, removal, replacement,
//! and cascading despawn.

pub mod collection;
pub mod entity;
pub mod hash_set;
pub mod laws;
pub mod single_slot;
pub mod small_list;
pub mod world;
