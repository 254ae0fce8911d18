use vstd::prelude::*;

verus! {

/// Number of columns of the simulated map.
pub const MAP_WIDTH: usize = 40;

/// Number of rows of the simulated map.
pub const MAP_HEIGHT: usize = 20;

/// Number of exploring robots.
pub const SCOUT_COUNT: usize = 3;

/// Number of harvesting robots.
pub const COLLECTOR_COUNT: usize = 2;

/// Size of the whole fleet.
pub const ROBOT_COUNT: usize = SCOUT_COUNT + COLLECTOR_COUNT;

/// Smallest number of units a generated deposit holds.
pub const RESOURCE_MIN_QUANTITY: u32 = 50;

/// Largest number of units a generated deposit holds.
pub const RESOURCE_MAX_QUANTITY: u32 = 200;

/// Delay between two moves of a robot, in milliseconds.
pub const TICK_MS: u64 = 200;

/// Delay between two redraws of the interface, in milliseconds.
pub const UI_REFRESH_MS: u64 = 50;

/// Number of recent events kept in the world's history.
pub const EVENT_LOG_LINES: usize = 6;

} // verus!
