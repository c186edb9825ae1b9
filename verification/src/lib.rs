//! Core of a small game engine: an archetype-based entity/component world,
//! generational asset storage, queries, deferred commands, snapshot replication,
//! input action bindings and frame scheduling.

pub mod assets;
pub mod client;
pub mod ecs;
pub mod engine;
pub mod entity;
pub mod input;
pub mod logging;
pub mod networking;
pub mod physics;
