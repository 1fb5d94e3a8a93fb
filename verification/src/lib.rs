//! Grid-based A* navigation for agents moving along a long vertical corridor.
//!
//! The crate models the world with integer coordinates: an occupancy grid
//! built from sensing data, a four-connected A* search producing world-space
//! waypoints, a waypoint-following controller, and the timer/displacement
//! trigger that decides when an agent replans.

pub mod geom;
pub mod grid;
pub mod search;
pub mod controller;
pub mod agent;
