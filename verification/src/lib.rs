//! Gradient-art pixel placement: a greedy, frontier-growing engine that
//! assigns every color of a procedurally generated palette to a unique grid
//! cell, so that similar colors end up clustered spatially.

pub mod color;
pub mod engine;
pub mod palette;
pub mod random;
