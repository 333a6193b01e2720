//! Spans of time.

use vstd::prelude::*;

verus! {

/// The longest span, in nanoseconds.
pub const MAX_SPAN_NANOS: u128 = 18_446_744_073_709_551_615_999_999_999;

/// A span of time.
#[derive(Debug, Clone, Copy, PartialEq, Eq, Structural)]
pub struct Span {
    /// Length in nanoseconds.
    pub nanos: u128,
}

impl Span {
    /// A span of whole seconds.
    pub fn from_secs(secs: u64) -> (r: Span)
        ensures
            r.nanos == secs * 1_000_000_000,
            r.nanos <= MAX_SPAN_NANOS,
    {
        Span { nanos: secs as u128 * 1_000_000_000 }
    }
}

} // verus!
