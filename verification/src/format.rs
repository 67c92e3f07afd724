//! Stream-level vocabulary: sample-rate, block-size and channel-assignment
//! codes, and the constrained encode profile the packer and decoder agree on.
use vstd::prelude::*;

use crate::Error;

verus! {

/// Sample rate of a frame.
#[derive(Clone, Copy, Debug, PartialEq, Eq, Structural)]
pub enum SampleRate {
    /// A rate the frame names itself (a table code or an uncommon value), in Hz.
    Explicit(u32),
    /// FLAC code `0b0000` — "get from stream": the only way a rate outside
    /// the 4-bit table (65,536 Hz, say) can be carried.
    FromStreamDefault,
}

/// RFC 9639 Table 15 for the self-contained codes: `0b0000` is "from
/// stream", `0b0001..=0b1011` are the eleven table rates, and the codes that
/// carry a value after the coded number (`0b1100..=0b1110`) or are forbidden
/// (`0b1111`, and anything wider than four bits) are [`Error::InvalidField`].
pub open spec fn rate_table(code: u8) -> Result<SampleRate, Error> {
    if code == 0 {
        Ok(SampleRate::FromStreamDefault)
    } else if code == 1 {
        Ok(SampleRate::Explicit(88_200))
    } else if code == 2 {
        Ok(SampleRate::Explicit(176_400))
    } else if code == 3 {
        Ok(SampleRate::Explicit(192_000))
    } else if code == 4 {
        Ok(SampleRate::Explicit(8_000))
    } else if code == 5 {
        Ok(SampleRate::Explicit(16_000))
    } else if code == 6 {
        Ok(SampleRate::Explicit(22_050))
    } else if code == 7 {
        Ok(SampleRate::Explicit(24_000))
    } else if code == 8 {
        Ok(SampleRate::Explicit(32_000))
    } else if code == 9 {
        Ok(SampleRate::Explicit(44_100))
    } else if code == 10 {
        Ok(SampleRate::Explicit(48_000))
    } else if code == 11 {
        Ok(SampleRate::Explicit(96_000))
    } else {
        Err(Error::InvalidField)
    }
}

impl SampleRate {
    /// Samples per second: an explicit rate is itself; only
    /// [`SampleRate::FromStreamDefault`] consults the stream's default.
    pub fn hz(self, stream_default: u32) -> (r: u32)
        ensures
            r == (match self {
                SampleRate::Explicit(hz) => hz,
                SampleRate::FromStreamDefault => stream_default,
            }),
    {
        match self {
            SampleRate::Explicit(hz) => hz,
            SampleRate::FromStreamDefault => stream_default,
        }
    }

    /// Decode FLAC's 4-bit sample-rate code for the codes that are
    /// self-contained (see [`rate_table`]). The three uncommon codes are
    /// refused here because their value follows the coded number; the frame
    /// header parser reads it and builds [`SampleRate::Explicit`] itself.
    pub fn from_flac_code(code: u8) -> (r: Result<SampleRate, Error>)
        ensures
            r == rate_table(code),
    {
        let hz = match code {
            0b0000 => return Ok(SampleRate::FromStreamDefault),
            0b0001 => 88_200,
            0b0010 => 176_400,
            0b0011 => 192_000,
            0b0100 => 8_000,
            0b0101 => 16_000,
            0b0110 => 22_050,
            0b0111 => 24_000,
            0b1000 => 32_000,
            0b1001 => 44_100,
            0b1010 => 48_000,
            0b1011 => 96_000,
            _ => return Err(Error::InvalidField),
        };
        Ok(SampleRate::Explicit(hz))
    }
}

/// Block size (samples per subframe).
#[derive(Clone, Copy, Debug, PartialEq, Eq, Structural)]
pub enum Blocksize {
    /// A concrete sample count.
    Explicit(u16),
    /// A reserved code or a value the profile forbids.
    Invalid,
}

impl Blocksize {
    /// Number of samples per subframe; [`Blocksize::Invalid`] is
    /// [`Error::InvalidField`].
    pub fn samples(self) -> (r: Result<usize, Error>)
        ensures
            r == (match self {
                Blocksize::Explicit(n) => Ok::<usize, Error>(n as usize),
                Blocksize::Invalid => Err::<usize, Error>(Error::InvalidField),
            }),
    {
        match self {
            Blocksize::Explicit(n) => Ok(n as usize),
            Blocksize::Invalid => Err(Error::InvalidField),
        }
    }
}

/// Channel assignment (RFC 9639 Table 16), restricted to the one- and
/// two-subframe modes of the profile.
#[derive(Clone, Copy, Debug, PartialEq, Eq, Structural)]
pub enum ChannelConfig {
    /// Independent channel(s), no interchannel decorrelation (`0b0000` mono,
    /// `0b0001` left/right). `channels` is the subframe count.
    Independent {
        /// Number of independently coded subframes (1 or 2).
        channels: u8,
    },
    /// Mid/side, `0b1010`: subframe 0 is the mid, subframe 1 the side.
    MidSide,
    /// Left/side, `0b1000`: subframe 0 is the left, subframe 1 the side.
    LeftSide,
    /// Side/right, `0b1001`: subframe 0 is the side, subframe 1 the right.
    RightSide,
}

/// Number of subframes a channel assignment carries.
pub open spec fn subframes_of(c: ChannelConfig) -> u8 {
    match c {
        ChannelConfig::Independent { channels } => channels,
        _ => 2,
    }
}

impl ChannelConfig {
    /// Number of subframes in the frame.
    pub fn subframe_count(self) -> (r: u8)
        ensures
            r == subframes_of(self),
    {
        match self {
            ChannelConfig::Independent { channels } => channels,
            ChannelConfig::MidSide | ChannelConfig::LeftSide | ChannelConfig::RightSide => 2,
        }
    }
}

} // verus!
