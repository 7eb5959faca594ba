//! Bounded, approximate frequency counting over a stream of string items.
//!
//! The crate offers two data structures: [`counter::Counter`], an ordered
//! mapping from string keys to strictly positive counts, and
//! [`misra_gries::MisraGries`], a capacity-limited heavy-hitters tracker
//! built on one `Counter` that follows the Misra-Gries admission and
//! eviction protocol. Memory never grows past the configured limit,
//! however long the stream runs.

pub mod counter;
pub mod misra_gries;
pub mod order;
