//! # flac_lite
//!
//! A minimal FLAC frame decoder: borrow-only bit reader, frame and subframe
//! headers, partitioned-Rice residuals, FIXED/LPC reconstruction and stereo
//! decorrelation. The decode path never allocates: it reads from a byte
//! slice through a cursor and writes into caller-provided buffers.
//!
//! Every public function carries a contract stated over the bitstream grammar
//! (see [`bits`] for the bit-level model the other modules build on).
use vstd::prelude::*;

pub mod bits;
pub mod encoding;
pub mod format;
pub mod frame;
pub mod header_coding;
pub mod residual;
pub mod stereo;
pub mod subframe;
pub mod subframe_coding;

pub use format::{Blocksize, ChannelConfig, SampleRate};
pub use frame::FrameHeader;
pub use subframe::{PredictorState, SubframeType};

verus! {

/// Flat decode error type.
#[derive(Clone, Copy, Debug, PartialEq, Eq, Structural)]
pub enum Error {
    /// Ran out of bytes mid-read.
    EndOfStream,
    /// Frame sync code not found where expected.
    FrameSync,
    /// Reserved/undefined value in a field, or a caller-contract violation.
    InvalidField,
    /// Sample size not supported by this decoder (8 and 16 bits are).
    UnsupportedSampleSize,
    /// Predictor order exceeds what the decoder's buffers can hold.
    UnsupportedPredictorOrder,
    /// Valid FLAC that lies outside the constrained encode profile.
    ProfileViolation,
    /// CRC-8 (frame header) mismatch.
    HeaderCrc,
    /// CRC-16 (frame footer) mismatch.
    FrameCrc,
    /// Manifest magic/version/length invalid.
    Manifest,
    /// Manifest declares a stream property this decoder cannot handle.
    UnsupportedStream,
}

/// Crate-local result alias.
pub type Result<T> = core::result::Result<T, Error>;

/// Highest LPC predictor order FLAC defines.
pub const MAX_LPC_ORDER: usize = 32;

/// Highest FIXED predictor order FLAC defines.
pub const MAX_FIXED_ORDER: usize = 4;

/// Largest block size representable by the 4-bit block-size code (8 << 11).
pub const MAX_BLOCKSIZE: usize = 32768;

} // verus!
