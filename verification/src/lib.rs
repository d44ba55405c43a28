//! An entity-component-system core: typed component storages, a world
//! registry, joins over storages, and a scheduler of per-tick processors.

pub mod application;
pub mod components;
pub mod entity;
pub mod join;
pub mod main_state;
pub mod scheduler;
pub mod storage;
pub mod systems;
pub mod world;
