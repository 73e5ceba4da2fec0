//! Incremental synchronization of a hierarchical, component-based object
//! graph into an append-only, time-indexed recording sink.
//!
//! Each tick the engine resolves a hierarchy-derived path for every live
//! entity, detects which component values actually changed via content
//! hashing, dispatches changed values through a three-tier logger
//! resolution chain, and issues targeted retractions for state that
//! disappeared since the previous tick.

use vstd::prelude::*;

pub mod change_detection;
pub mod default_loggers;
pub mod entity_path;
pub mod laws;
pub mod rerun_logger;
pub mod snapshot;
pub mod sync;
pub mod text;

verus! {

/// The fixed root segment that every resolved entity path starts with.
pub open spec fn root_segment() -> Seq<char> {
    "world"@
}

/// Returns the fixed root segment as an owned string.
pub fn root_segment_str() -> (s: String)
    ensures
        s@ == root_segment(),
{
    String::from_str("world")
}

} // verus!
