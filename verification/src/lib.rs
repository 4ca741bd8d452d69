//! Point-to-point routing over a road network.
//!
//! A [`graph::Graph`] stores the network under dense node indices,
//! [`graph::shortest_path`] finds a route of least total distance between
//! two of its nodes, and an [`engine::Engine`] answers queries given as
//! coordinates by resolving each one to the nearest node first. What a
//! route is, and what makes one shortest, is stated in [`route`].
//!
//! Distances are whole numbers of a unit that the caller chooses, and
//! coordinates are whole numbers of 1e-7 degrees.

pub mod engine;
pub mod graph;
pub mod osm;
pub mod parser;
pub mod queue;
pub mod route;
mod search;
pub mod spatialindex;
