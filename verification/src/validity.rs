//! The bitemporal validity marker.
//!
//! A version of a row in a validity-bearing relation pairs a logical
//! timestamp with an assertion flag: true asserts the fact from that time,
//! false retracts it from that time. Versions of one key are append-only
//! and participate in key ordering: timestamp first, and at equal
//! timestamps the retraction before the assertion, so that a query "as of"
//! time `t` resolves by one bounded reverse scan (see
//! `storage::resolve_at`).
use vstd::prelude::*;

verus! {

/// A validity marker: `(ts, asserted)`. Timestamps are signed 64-bit
/// integers.
#[derive(Debug, Clone, Copy, PartialEq, Eq, Structural)]
pub struct Validity {
    pub ts: i64,
    pub asserted: bool,
}

/// The order of validity markers under one key: by timestamp, retraction
/// before assertion at equal timestamps.
pub open spec fn valid_lt(a: Validity, b: Validity) -> bool {
    a.ts < b.ts || (a.ts == b.ts && !a.asserted && b.asserted)
}

/// The order of the optional validity component of a stored entry: a plain
/// row (no marker) sorts before every versioned row of the same key.
pub open spec fn overs_lt(a: Option<Validity>, b: Option<Validity>) -> bool {
    match (a, b) {
        (Option::None, Option::Some(_)) => true,
        (Option::Some(x), Option::Some(y)) => valid_lt(x, y),
        _ => false,
    }
}

} // verus!
