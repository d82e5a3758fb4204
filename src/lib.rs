//! Metaball iso-contours on a regular grid.
//!
//! A set of point sources defines a scalar field; the field is sampled at the
//! vertices of a square grid and the iso-line at the threshold is extracted
//! with marching squares. All quantities are integers: positions are viewport
//! units and field values are fixed-point numbers with `SCALE` units per 1.0.
pub mod field;
pub mod contour;
pub mod model;

pub use contour::{
    classify, extract_contours, interpolate, CellCase, Contours, Edge, Point, Segment,
};
pub use field::{evaluate, Metaball, SCALE, THRESHOLD, UNBOUNDED};
pub use model::{marching_squares, Model, DEFAULT_GRID_SIZE};
