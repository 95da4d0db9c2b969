//! Fixed-point numbers with a scale fixed in the type, their decimal and
//! binary rendering, and the stationary-to-rotating frame transforms of a
//! motor-control loop.

pub mod fixed;
pub mod render;
pub mod transform;
