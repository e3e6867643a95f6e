//! Procedural city-map generation: a rectangular master grid is partitioned
//! into named districts by randomized, distance-biased growth from one seed
//! cell per district, and every claimed cell then receives a private
//! sub-grid of typed, colored buildings laid out around randomly placed
//! roads.
//!
//! The growth engine proves that a finished run partitions the grid exactly:
//! every cell is claimed once, the districts' claim histories cover the grid
//! with no overlap, and no district could grow any further.
pub mod engine;
pub mod grids;
pub mod grouping;
pub mod neighborhood;
pub mod rng;
pub mod text;
