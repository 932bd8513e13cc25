//! Estimates the hit rate a cache of a given size would reach on a stream of
//! keys, without storing the keys.

pub mod cache;
pub mod filters;
pub mod horizon;
pub mod laws;
pub mod replay;
pub mod stats;
pub mod window;

pub use crate::cache::{Cache, Classification, Insertion};
pub use crate::horizon::{LongHorizonFilter, ALL_KEY_DURATION_NANOS, ALL_KEY_NUM_BUCKETS};
pub use crate::stats::{BucketStats, BUCKET_PERCENTAGES};
pub use crate::window::RecencyWindow;
