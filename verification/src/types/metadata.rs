//! Metadata of a token.

use vstd::prelude::*;
use std::time::{SystemTime, UNIX_EPOCH};

verus! {

/// What a token carries beside its value. It never travels on the wire.
#[derive(Debug, Clone, Copy, PartialEq, Eq, Hash, Structural)]
pub struct Metadata {
    pub created_at_ms: u64,
    pub flags: u32,
}

/// Milliseconds since the Unix epoch by the system clock.
///
/// Reads `std::time::SystemTime::now`; a clock set before the epoch counts as 0.
/// Nothing is claimed of the reading.
#[verifier::external_body]
fn now_unix_ms() -> u64 {
    SystemTime::now().duration_since(UNIX_EPOCH).unwrap_or_default().as_millis() as u64
}

impl Metadata {
    /// Metadata with the given creation time and flags.
    pub fn new(created_at_ms: u64, flags: u32) -> (metadata: Metadata)
        ensures
            metadata.created_at_ms == created_at_ms,
            metadata.flags == flags,
    {
        Metadata { created_at_ms, flags }
    }
}

impl Default for Metadata {
    /// Metadata stamped with the current time and no flags.
    fn default() -> (metadata: Metadata)
        ensures
            metadata.flags == 0,
    {
        Metadata { created_at_ms: now_unix_ms(), flags: 0 }
    }
}

} // verus!
