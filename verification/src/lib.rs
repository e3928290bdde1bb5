//! A* pathfinding over a tile map whose passability is packed into integers.
//!
//! The library holds the decisions of the pathfinder: edge decoding, the single-level and the
//! multi-level search, the portal heuristic and the job registry. Whatever has to be asked of the
//! game server is named by a request value, performed by the caller, and handed back as a reply.

pub mod diagonals;

pub mod directions;

pub mod error;

pub mod frontier;

pub mod geometry;

pub mod grid;

pub mod layered_grid;

pub mod layered_world;

pub mod measure;

pub mod multi_search;

pub mod multi_slices;

pub mod nav_pass;

pub mod packed_map;

pub mod portal;

pub mod probe;

pub mod queue;

pub mod registry;

pub mod request;

pub mod room;

pub mod search;

pub mod slices;

pub mod topology;

pub mod walks;

pub mod world;
