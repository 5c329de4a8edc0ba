//! A probabilistic pre-filter for range queries over binary vectors.
//!
//! A `Segment` is an exact bitmap over the full 16-bit value space; a
//! `BloomCache` assigns the 2-byte chunks of inserted vectors to segments
//! by cyclic position and uses per-segment membership to lower-bound how
//! many chunks of a query were never observed, rejecting the query when
//! that bound exceeds the acceptance radius.

pub mod cache;
pub mod segment;

pub use cache::BloomCache;
pub use segment::Segment;
