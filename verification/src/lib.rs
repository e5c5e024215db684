//! Bulk tile-copy library: computes the exact set of tile coordinates implied
//! by zoom levels and geographic bounding boxes, enumerates them without
//! duplication, and drives the batching, progress, and schema decisions of a
//! copy run.

pub mod args;
pub mod pipeline;
pub mod progress;
pub mod schema;
pub mod tiles;
