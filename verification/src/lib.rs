//! Resource collection simulation: the verified core.
//!
//! Autonomous robots explore a procedurally generated grid and bring
//! resources back to a base. This crate holds the world model, the shared
//! knowledge that the base aggregates, breadth-first pathfinding and the
//! per-tick decisions of scouts and collectors.

pub mod types;
pub mod posmap;
pub mod message;
pub mod map;
pub mod path;
pub mod knowledge;
pub mod rng;
pub mod robot;
pub mod laws;
pub mod render;
