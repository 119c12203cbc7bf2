//! Core of a per-shard vector search pipeline: segments with point payloads,
//! a write-ahead log, ordered update application, proxy segments for
//! non-blocking optimization, and a multi-segment searcher.

pub mod cluster;
pub mod fixtures;
pub mod framing;
pub mod holder;
pub mod laws;
pub mod locked_segment;
pub mod ranking;
pub mod replay_laws;
pub mod searcher;
pub mod shard;
pub mod wal;
pub mod segment;
pub mod types;

use vstd::prelude::*;

verus! {

/// Identifier of a point within a collection.
pub type PointIdType = u64;

/// WAL sequence number, doubling as a logical clock for point versions.
pub type SeqNumberType = u64;

} // verus!
