//! Reconstruction of a three-level start-list hierarchy (competitions,
//! heats, lane results) from flat, offset-tagged scan results, with
//! affiliation filtering, pruning of empty containers, and rendering of
//! the flattened rows as delimiter-separated text.

pub mod assemble;
pub mod extract;
pub mod laws;
pub mod model;
pub mod pipeline;
pub mod render;
