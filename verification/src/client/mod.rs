pub mod hierarchy;
pub mod menu;
pub mod registry;
pub mod settings;
