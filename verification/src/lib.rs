//! Procedural generation and spatial queries for hexagonal grid worlds.
//!
//! The crate works on an unbounded hex plane addressed by axial coordinates
//! `(q, r)`.  It offers hex geometry (distances, neighbor and ring
//! enumeration), A* shortest paths over caller-supplied traversable sets,
//! Voronoi-style region assignment, an incremental road-network builder,
//! chunk-level topology bookkeeping, a sparse grid state store with a
//! persistent constraint overlay, and a deterministic content-seeded shuffle
//! used for reproducible building placement.

pub mod astar;
pub mod buildings;
pub mod chunks;
pub mod coordset;
pub mod geometry;
pub mod roads;
pub mod shuffle;
pub mod store;
pub mod voronoi;
