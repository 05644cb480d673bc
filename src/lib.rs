//! Stable identity for the edges of a proximity graph that is rebuilt from a
//! Delaunay triangulation on every frame.
//!
//! * [`edge`] holds the canonical form of an undirected pair of particle indices.
//! * [`graph`] turns triangle and halfedge arrays into one undirected edge per
//!   geometric edge.
//! * [`registry`] matches each frame's edges against the links tracked so far, so
//!   that a link keeps the time at which it first appeared.
pub mod edge;
pub mod graph;
pub mod registry;
