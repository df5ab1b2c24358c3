//! Heuristic scanner for plausible AES-256 key material in a binary buffer.
//!
//! The scanner slides a 32-byte window over the buffer, classifies each
//! window with a small fixed rule set, filters windows by a Shannon-entropy
//! estimate and a list of known degenerate patterns, and ranks the survivors
//! by entropy with duplicate key values removed.
//!
//! Entropy is measured in fixed point: bits per byte scaled by
//! [`ENTROPY_SCALE`], so that the whole pipeline is exact integer
//! arithmetic.

use vstd::prelude::*;

pub mod aggregate;
pub mod candidate;
pub mod engine;
pub mod entropy;
pub mod log2;
pub mod rules;

pub use candidate::AesKeyCandidate;
pub use candidate::KeyType;
pub use engine::AesDumpster;
pub use engine::ScanRule;

verus! {

/// Fixed-point scale for entropy values: one bit per byte is
/// `ENTROPY_SCALE` units, so 8 bits per byte is `8 * ENTROPY_SCALE`.
pub const ENTROPY_SCALE: u64 = 4096;

} // verus!
