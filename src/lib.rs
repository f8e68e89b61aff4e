//! Projection of a blockchain block stream into per-address voting-power
//! records: block enrichment, reducers that turn blocks into an idempotent
//! command stream, and the storage sinks that apply that stream.
use vstd::prelude::*;

pub mod enrich;
pub mod hexfmt;
pub mod model;
pub mod pipeline;
pub mod reducers;
pub mod storage;

verus! {

} // verus!
