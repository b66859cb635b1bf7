//! Terrain-coupled shallow water simulation on a fixed square grid.
//!
//! The library has three parts: a terrain field built from sparse elevation
//! samples by inverse-distance weighting, a hydraulic simulator that moves
//! water between neighbouring cells through virtual pipes, and a rain source
//! that drops bounded droplets into the water field.
//!
//! All quantities are fixed-point integers: grid coordinates carry
//! `COORD_SCALE` steps per world unit and heights/depths carry
//! `HEIGHT_SCALE` steps per world unit, so every computation is exact and
//! deterministic.

pub mod controls;
pub mod fixed;
pub mod flux;
pub mod terrain;
pub mod parse;
pub mod rain;
pub mod water;

pub use fixed::COORD_SCALE;
pub use fixed::DIM;
pub use fixed::HEIGHT_SCALE;
