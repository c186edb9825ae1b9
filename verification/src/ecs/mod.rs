pub mod component;
pub mod archetype;
pub mod resources;
pub mod world;
pub mod query;
pub mod component_registry;
pub mod systems;
pub mod commands;
pub mod term;
pub mod param;
