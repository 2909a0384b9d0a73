//! Deterministic procedural world-map generation on a cylindrical grid.
//!
//! This crate holds the discrete core of the generator. Every quantity in
//! it is an integer: positions, velocities, heights, rain, noise and
//! temperature are fixed-point numbers, each module saying in which units.
//!
//! - [`rng`]: the hash mixers and the sequential generator that every
//!   stage draws from.
//! - [`grid`]: the row-major grid and the topology of the cylinder:
//!   columns wrap east-west, rows stop at the poles.
//! - [`limits`]: the sizes that the generator takes.
//! - [`noise`]: gradient noise and the fractal sums over it.
//! - [`queue`]: the priority queue of plate growth and of the flood.
//! - [`plates`]: seeding, growth, grouping, boundaries and the distance to
//!   them.
//! - [`elevation`]: smoothing on the cylinder and the distance from the
//!   coast.
//! - [`climate`]: temperature.
//! - [`hydrology`]: filling, routing and rivers.
//! - [`render`]: diagnostic pictures of the discrete fields.

pub mod climate;
pub mod elevation;
pub mod grid;
pub mod hydrology;
pub mod limits;
pub mod noise;
pub mod plates;
pub mod queue;
pub mod render;
pub mod rng;
