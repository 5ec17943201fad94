//! A binary image classifier: images are encoded as fixed-length feature
//! vectors of grayscale intensities, a model holds labelled training vectors,
//! and queries are classified by a k-nearest-neighbour majority vote.

pub mod features;
pub mod model;
pub mod predict;
pub mod train;
