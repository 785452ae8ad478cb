//! Grid maps, shortest-path planning on them, delivery tasks and the
//! configuration that ties them together.

pub mod grid_map;
pub mod path_planning;
pub mod task_core;
pub mod config;
pub mod demo;
