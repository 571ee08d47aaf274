//! A fixed-capacity key/value cache that approximates least-recently-used
//! eviction with a circular buffer of keys (the "ring") instead of a linked
//! list. Slot position in the ring encodes approximate recency; a hit may
//! advance its entry part of the way toward the `top` cursor through a bounded
//! swap chain, steered by self-tuning parameters.

pub mod cache;
pub mod laws;
pub mod model;

pub use cache::SwapCache;
