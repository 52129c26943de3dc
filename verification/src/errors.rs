//! Error taxonomy of the trace and snapshot engines.

use vstd::prelude::*;

verus! {

/// Failures surfaced by trace queries.
///
/// Malformed fields inside a record never surface: they parse as zero.
#[derive(Clone, Copy, Debug, PartialEq, Eq, Structural)]
pub enum DumpError {
    /// The record stream is exhausted; normal parser termination.
    EndOfInput,
    /// The requested program counter never occurs in the trace.
    PcNotFound,
    /// A following step's pc lies before the predecessor's stored next pc.
    NonMonotonicTrace,
    /// A following step's pc jumps 80 or more bytes past the predecessor.
    ExcessiveGap,
}

} // verus!
