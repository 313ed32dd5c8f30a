//! The ways in which a chunking run can be refused.

use vstd::prelude::*;

verus! {

/// Why a run produced no chunks.
#[derive(Debug, Clone, Copy, PartialEq, Eq, Structural)]
pub enum ChunkError {
    /// The line or byte limit was zero.
    InvalidConfiguration,
    /// A line of the source is not valid UTF-8 text.
    LineDecodeError,
    /// A filled window holds no whitespace byte, so no word-safe cut exists.
    TokenExceedsMaxBytes,
}

} // verus!
