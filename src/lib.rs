use vstd::prelude::*;

pub mod engine;
pub mod laws;
pub mod packet_id;

verus! {

/// Nanoseconds in one second.
pub const NANOS_PER_SEC: u64 = 1_000_000_000;

} // verus!
