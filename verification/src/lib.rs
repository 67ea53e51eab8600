//! Interactive Voronoi diagram engine.
//!
//! The core of an interactive visualizer: a deduplicated point store with
//! per-site colors, an adapter that normalizes the output of a planar
//! subdivision algorithm, a pure render pipeline producing draw commands,
//! a small input-event state machine, and a textual persistence codec.
//!
//! All geometry is kept in fixed-point micro-units: one canvas unit is
//! `UNIT` micro-units, so the coordinate `10.0005` is stored as the
//! integer `10_000_500`.

pub mod codec;
pub mod controller;
pub mod diagram;
pub mod geom;
pub mod render;
pub mod rng;
pub mod store;
