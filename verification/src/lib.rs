//! Escape-time rendering of the Mandelbrot set, in exact arithmetic wherever
//! the numbers allow it.
//!
//! * [`fraction`]: rationals in lowest terms.
//! * [`grid`]: the affine map from pixel coordinates to sample points.
//! * [`escape`]: the escape-time iteration, for any number type.
//! * [`field`]: the velocity field of a whole grid.
//! * [`palette`]: ordered colour stops and their piecewise-linear blend.

pub mod fraction;
pub mod grid;
pub mod escape;
pub mod palette;
pub mod field;
