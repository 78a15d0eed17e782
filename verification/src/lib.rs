//! An inverted-file (IVFFlat) vector index: exact distance primitives, a
//! seeded k-means quantizer, index construction with atomic publication,
//! and probe-based approximate nearest-neighbor search.
//!
//! Vector components are fixed-point 16-bit values (a host float scaled by
//! a constant), so every distance, mean, and ranking the engine computes is
//! exact integer arithmetic: rankings are total orders, clustering is
//! bit-for-bit reproducible, and each operation's contract pins its result.
//! Converting host floats to and from this representation is the host
//! glue's concern, outside the engine.
//!
//! - [`vector`]: the vector value, the metric, and the engine's size limits.
//! - [`math`]: squared Euclidean distance, dot product, squared norm.
//! - [`rank`]: the exact better/tied comparison of two vectors against a query.
//! - [`quantizer`]: seeded Lloyd's k-means with cooperative cancellation.
//! - [`index`]: the immutable snapshot, its builder, and the publish store.
//! - [`search`]: probe-based search, the exhaustive scan, and the recall laws.

pub mod errors;
pub mod vector;
pub mod math;
pub mod rank;
pub mod quantizer;
pub mod index;
pub mod search;
