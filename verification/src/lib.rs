//! A 2D rigid-circle physics core: circular particles under gravity,
//! confined to a rectangular arena, with grid-accelerated pairwise
//! collision detection and position-based resolution.
//!
//! All coordinates, velocities and factors are fixed-point integers
//! (`fx::SCALE` sub-units per pixel), so every formula in the simulation
//! is exact and its behaviour is fully specified and machine-checked.

pub mod fx;
pub mod ball;
pub mod seqs;
pub mod store;
pub mod grid;
pub mod collide;
pub mod sim;
pub mod laws;
