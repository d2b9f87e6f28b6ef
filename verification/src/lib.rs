//! Star-convex instance segmentation on fixed-point geometry.
//!
//! A detection is a probability, a center pixel and one radial distance per
//! ray. The crate decodes such detections into polygons, suppresses the ones
//! that overlap a more probable detection, and paints the survivors into a
//! label image.
//!
//! All geometry is exact integer arithmetic. Coordinates and distances count
//! [`geometry::polygon::SUBPIXEL`]-ths of a pixel, directions are fixed-point
//! pairs of sine and cosine, areas are kept doubled so that they stay
//! integral, and a probability is a score: any integer that grows with it.
//! Two things come from outside: the area that two polygons share, which
//! [`process::nms`] takes as measured, and floating-point numbers, which the
//! caller converts.
//!
//! - [`geometry`]: ray directions, polygons, bounding boxes, areas.
//! - [`process`]: ranking, neighbor search, suppression, survivors.
//! - [`labeling`]: point-in-polygon, rasterizing, the label image.
//! - [`models`]: the steps around a StarDist network's output.
//! - [`utils`]: padding and mask borders.
pub mod error;
pub mod geometry;
pub mod labeling;
pub mod models;
pub mod process;
pub mod utils;
