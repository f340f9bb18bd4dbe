//! Deterministic core of a face-aligned image stacker: a seeded generator,
//! rectangle geometry, the parameter grammar and the layer compositor.

pub mod blending;
pub mod compositor;
pub mod geom;
pub mod number;
pub mod parsing;
pub mod raster;
pub mod rng;
pub mod rounding;
pub mod run;
pub mod text;
pub mod units;
