//! Error conditions surfaced by the fingerprinting core.
use vstd::prelude::*;

verus! {

/// Errors of the analysis pipeline and of the persistence codec.
///
/// `UndersizedInput` is returned when a sample stream is shorter than one
/// transform window; `MalformedDatabase` when a persisted database image is
/// truncated or otherwise not a valid encoding.
#[derive(Debug, Clone, Copy, PartialEq, Eq, Structural)]
pub enum FingerprintError {
    UndersizedInput,
    MalformedDatabase,
}

} // verus!
