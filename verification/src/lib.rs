//! Verified core of a grid simulation in which scout robots explore a map
//! and collector robots carry resources back to a central base.

pub mod config;
pub mod collections;
pub mod display;
pub mod grid;
pub mod map;
pub mod model;
pub mod pathfinding;
pub mod rng;
pub mod robot;
pub mod search;
pub mod text;
pub mod world;
