//! A minimal verified video codec.
//!
//! The pipeline turns fixed-resolution interleaved-RGB frames into a compact
//! byte stream and back: per-pixel color-space conversion to planar YUV,
//! 2x2 chroma subsampling, byte-wise wrap-around delta coding between
//! consecutive frames, a demonstrative run-length stage, and a final
//! lossless deflate stage provided by an outside crate.

use vstd::prelude::*;

pub mod chunk;
pub mod color;
pub mod decoder;
pub mod delta;
pub mod encoder;
pub mod rle;
pub mod stream;

verus! {

/// The errors a pipeline run can surface.
#[derive(Clone, Copy, Debug, PartialEq, Eq, Structural)]
pub enum CodecError {
    /// Width or height is zero or odd; checked before any pipeline run.
    ConfigurationError,
    /// A frame does not have the byte length the configured resolution demands.
    FrameLengthMismatch,
    /// The compressed stream could not be decompressed.
    CorruptStream,
}

/// The configured resolution is usable: both dimensions positive and even,
/// as exact 2x2 chroma block partitioning requires.
pub open spec fn dims_ok(width: nat, height: nat) -> bool {
    width > 0 && height > 0 && width % 2 == 0 && height % 2 == 0
}

/// Checks the configured resolution.
pub fn check_dims(width: usize, height: usize) -> (r: bool)
    ensures
        r == dims_ok(width as nat, height as nat),
{
    width > 0 && height > 0 && width % 2 == 0 && height % 2 == 0
}

} // verus!
