//! Core of a procedural 3-D cave generator: a cellular automaton over a dense
//! voxel grid, together with structural analyses of the finished grid
//! (connected components, percolation, surface roughness, tunnel radius).
//!
//! The library is pure in-memory computation; all file, CLI and progress
//! plumbing lives outside it.

pub mod cell;
pub mod connectivity;
pub mod engine;
pub mod grid;
pub mod percolation;
pub mod presets;
pub mod neighborhood;
pub mod rng;
pub mod roughness;
pub mod rule;
pub mod seeds;
pub mod tunnel;

pub use cell::CACell;
pub use connectivity::components;
pub use engine::{CAConfig, CAEngine};
pub use percolation::percolation;
pub use presets::{neighbourhoods, rulesets};
pub use grid::{CAContext, GridModel};
pub use neighborhood::CANeighborhood;
pub use roughness::{RoughnessStats, roughness_stats};
pub use rule::CARule;
pub use seeds::generate_seeds;
pub use tunnel::{largest_component, tunnel_distances, distance_stats};
