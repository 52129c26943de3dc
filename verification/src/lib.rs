//! Analysis library for instruction traces captured from an instrumented
//! emulator, together with raw memory snapshots.
//!
//! The trace side parses fixed-layout per-instruction register dumps into
//! records, indexes unique entry points, and answers search, stack and
//! call-hierarchy queries.  The memory side loads captured regions, answers
//! point lookups, correlates external binary assets by substring search, and
//! diffs snapshot groups.  Query results are structured values; rendering
//! them as text is left to callers.

pub mod cpustep;
pub mod dump;
pub mod memdump;
pub mod errors;
pub mod hex;
pub mod utils;
