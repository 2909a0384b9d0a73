//! The two-level plate tessellation: placing the centres, growing the
//! plates, grouping them, classifying their boundaries, and finding for
//! every cell the boundary nearest to it.

pub mod boundary;
pub mod distance;
pub mod grow;
pub mod properties;
pub mod seed;
