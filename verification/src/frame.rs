//! Frame layer (RFC 9639 §9.1): header parse and the one-frame decode driver.
//!
//! ```text
//! fixed fields, 32 bits:
//!   [sync 14 = 0x3FFE][reserved 1 = 0][blocking strategy 1]
//!   [blocksize code 4][sample rate code 4][channel assignment 4]
//!   [sample size code 3][reserved 1 = 0]
//! then whole octets:
//!   [coded frame number][uncommon blocksize 8|16][uncommon sample rate 8|16]
//!   [CRC-8]
//! then the body:
//!   [subframes...][padding to a byte boundary][CRC-16]
//! ```
//!
//! The channel assignment is four bits wide, and because the fixed fields
//! add up to 32 bits and everything after them is whole octets, the CRC-8
//! is always byte-aligned. Both CRCs are consumed, not verified.
//!
//! Error taxonomy: a value the format forbids (a reserved bit or code, the
//! forbidden rate code, an over-large frame number, a zero uncommon rate) is
//! [`Error::InvalidField`]; valid FLAC outside the profile (3–8 channel
//! layouts, variable blocking) is [`Error::ProfileViolation`]; valid bit
//! depths this decoder does not carry (12/20/24/32) are
//! [`Error::UnsupportedSampleSize`].
use vstd::prelude::*;
use vstd::arithmetic::power2::pow2;

use crate::Error;
use crate::bits::{BitReader, field, byte_field, coded_number, align_gap, lemma_bits_bound};
use crate::format::{ChannelConfig, SampleRate, rate_table, subframes_of};
use crate::stereo::{decorrelate, recombined};
use crate::subframe::{
    PredictorState, SubframeType, decode_subframe, subframe, subframe_head, subframe_stop, subframe_written, holds_warm_up,
    lemma_subframe_written_len,
};
use crate::residual::splice;

verus! {

/// Stream-level facts a frame header cannot carry by itself: sample-rate
/// code `0b0000` and sample-size code `0b000` mean "as the stream says", and
/// the manifest (there is no STREAMINFO) supplies these.
#[derive(Clone, Copy, Debug, PartialEq, Eq, Structural)]
pub struct StreamDefaults {
    /// Stream sample rate in Hz, for sample-rate code `0b0000`.
    pub sample_rate_hz: u32,
    /// Stream bit depth, for sample-size code `0b000`.
    pub bits_per_sample: u8,
}

/// Parsed frame header.
#[derive(Clone, Copy, Debug, PartialEq, Eq, Structural)]
pub struct FrameHeader {
    /// Samples per subframe in this frame (the final frame of a track is
    /// legitimately shorter than the rest).
    pub blocksize: usize,
    /// Sample rate; [`SampleRate::FromStreamDefault`] resolves through
    /// [`StreamDefaults`]. The uncommon codes arrive already explicit.
    pub sample_rate: SampleRate,
    /// Channel assignment, including the decorrelation mode.
    pub channels: ChannelConfig,
    /// Bits per sample, already resolved through [`StreamDefaults`].
    pub bits_per_sample: u8,
    /// The coded frame number.
    pub number: u64,
}

/// What a 4-bit block-size code denotes: a table size, or a value stored
/// after the coded number (§9.1.6).
#[derive(Clone, Copy, Debug, PartialEq, Eq, Structural)]
pub enum BlocksizeCode {
    /// A size given by the table.
    Table(u16),
    /// Size minus one follows as 8 bits.
    Uncommon8,
    /// Size minus one follows as 16 bits.
    Uncommon16,
}

/// RFC 9639 Table 14: `0b0000` is reserved, `0b0001` is 192, `0b0010..=0b0101`
/// are `144 * 2^code`, `0b0110`/`0b0111` carry the size after the coded
/// number, `0b1000..=0b1111` are `2^code`.
pub open spec fn block_code_of(code: u32) -> Result<BlocksizeCode, Error> {
    if code == 1 {
        Ok(BlocksizeCode::Table(192))
    } else if code == 2 {
        Ok(BlocksizeCode::Table(576))
    } else if code == 3 {
        Ok(BlocksizeCode::Table(1152))
    } else if code == 4 {
        Ok(BlocksizeCode::Table(2304))
    } else if code == 5 {
        Ok(BlocksizeCode::Table(4608))
    } else if code == 6 {
        Ok(BlocksizeCode::Uncommon8)
    } else if code == 7 {
        Ok(BlocksizeCode::Uncommon16)
    } else if 8 <= code <= 15 {
        Ok(BlocksizeCode::Table(pow2(code as nat) as u16))
    } else {
        Err(Error::InvalidField)
    }
}

/// RFC 9639 Table 16, split along the profile line: mono and independent
/// stereo, the three decorrelated stereo modes; 3–8 channel layouts are
/// [`Error::ProfileViolation`], the reserved codes [`Error::InvalidField`].
pub open spec fn channels_of_code(code: u32) -> Result<ChannelConfig, Error> {
    if code == 0 {
        Ok(ChannelConfig::Independent { channels: 1 })
    } else if code == 1 {
        Ok(ChannelConfig::Independent { channels: 2 })
    } else if 2 <= code <= 7 {
        Err(Error::ProfileViolation)
    } else if code == 8 {
        Ok(ChannelConfig::LeftSide)
    } else if code == 9 {
        Ok(ChannelConfig::RightSide)
    } else if code == 10 {
        Ok(ChannelConfig::MidSide)
    } else {
        Err(Error::InvalidField)
    }
}

/// RFC 9639 Table 17, resolved: `0b000` is the stream default (which must
/// itself be 8 or 16), `0b001` is 8, `0b100` is 16, `0b011` is reserved; the
/// other depths are [`Error::UnsupportedSampleSize`].
pub open spec fn bps_of_code(code: u32, default_bps: u8) -> Result<u8, Error> {
    if code == 0 {
        if default_bps == 8 || default_bps == 16 {
            Ok(default_bps)
        } else {
            Err(Error::UnsupportedSampleSize)
        }
    } else if code == 1 {
        Ok(8)
    } else if code == 4 {
        Ok(16)
    } else if code == 3 {
        Err(Error::InvalidField)
    } else {
        Err(Error::UnsupportedSampleSize)
    }
}

/// The sample rate for `code`, reading the uncommon value at bit `p` when
/// the code calls for one (§9.1.7): `0b1100` is 8-bit kHz, `0b1101` 16-bit
/// Hz, `0b1110` 16-bit tens of Hz; a zero value is [`Error::InvalidField`].
pub open spec fn rate_field(data: Seq<u8>, p: int, code: u32) -> Result<(SampleRate, int), Error> {
    if code == 12 {
        match byte_field(data, p) {
            Err(e) => Err(e),
            Ok(k) => if k == 0 {
                Err(Error::InvalidField)
            } else {
                Ok((SampleRate::Explicit((k * 1000) as u32), p + 8))
            },
        }
    } else if code == 13 || code == 14 {
        match field(data, p, 16) {
            Err(e) => Err(e),
            Ok(v) => if v == 0 {
                Err(Error::InvalidField)
            } else {
                Ok(
                    (
                        SampleRate::Explicit(
                            if code == 13 {
                                v
                            } else {
                                (v * 10) as u32
                            },
                        ),
                        p + 16,
                    ),
                )
            },
        }
    } else {
        match rate_table(code as u8) {
            Err(e) => Err(e),
            Ok(r) => Ok((r, p)),
        }
    }
}

/// Where reading the sample rate for `code` at bit `p` leaves the cursor on
/// an error: past the uncommon value when it was read (and is zero),
/// otherwise unmoved — a missing value is not consumed, and the other codes
/// read nothing.
pub open spec fn rate_stop(data: Seq<u8>, p: int, code: u32) -> int {
    if code == 12 {
        match byte_field(data, p) {
            Err(_) => p,
            Ok(_) => p + 8,
        }
    } else if code == 13 || code == 14 {
        match field(data, p, 16) {
            Err(_) => p,
            Ok(_) => p + 16,
        }
    } else {
        p
    }
}

/// The block size for a block-size code, reading the uncommon value at bit
/// `p` when there is one (§9.1.6): the stored value is the size minus one,
/// and a 16-bit `0xFFFF` is [`Error::InvalidField`].
pub open spec fn blocksize_field(data: Seq<u8>, p: int, code: BlocksizeCode) -> Result<(nat, int), Error> {
    match code {
        BlocksizeCode::Table(n) => Ok((n as nat, p)),
        BlocksizeCode::Uncommon8 => match byte_field(data, p) {
            Err(e) => Err(e),
            Ok(v) => Ok(((v + 1) as nat, p + 8)),
        },
        BlocksizeCode::Uncommon16 => match field(data, p, 16) {
            Err(e) => Err(e),
            Ok(v) => if v == 0xFFFF {
                Err(Error::InvalidField)
            } else {
                Ok(((v + 1) as nat, p + 16))
            },
        },
    }
}

/// The 32 fixed header bits at `p`: a 14-bit sync other than `0x3FFE` is
/// [`Error::FrameSync`], a set reserved bit [`Error::InvalidField`], the
/// variable blocking strategy [`Error::ProfileViolation`]. Yields the
/// block-size, sample-rate, channel and sample-size codes.
pub open spec fn fixed_fields(data: Seq<u8>, p: int) -> Result<(u32, u32, u32, u32), Error> {
    match field(data, p, 14) {
        Err(e) => Err(e),
        Ok(sync) => if sync != 0x3FFE {
            Err(Error::FrameSync)
        } else {
            match field(data, p + 14, 1) {
                Err(e) => Err(e),
                Ok(reserved) => if reserved != 0 {
                    Err(Error::InvalidField)
                } else {
                    match field(data, p + 15, 1) {
                        Err(e) => Err(e),
                        Ok(strategy) => if strategy != 0 {
                            Err(Error::ProfileViolation)
                        } else {
                            code_fields(data, p + 16)
                        },
                    }
                },
            }
        },
    }
}

/// The four code fields (4, 4, 4 and 3 bits) at `p` and the reserved bit
/// after them.
pub open spec fn code_fields(data: Seq<u8>, p: int) -> Result<(u32, u32, u32, u32), Error> {
    match field(data, p, 4) {
        Err(e) => Err(e),
        Ok(bs) => match field(data, p + 4, 4) {
            Err(e) => Err(e),
            Ok(rate) => match field(data, p + 8, 4) {
                Err(e) => Err(e),
                Ok(ch) => match field(data, p + 12, 3) {
                    Err(e) => Err(e),
                    Ok(size) => match field(data, p + 15, 1) {
                        Err(e) => Err(e),
                        Ok(reserved) => if reserved != 0 {
                            Err(Error::InvalidField)
                        } else {
                            Ok((bs, rate, ch, size))
                        },
                    },
                },
            },
        },
    }
}

/// The header fields after the coded number, at `p`: uncommon block size,
/// uncommon sample rate and the CRC-8 octet. Yields the block size, the
/// rate and the position after the CRC-8.
pub open spec fn header_tail(data: Seq<u8>, p: int, code: BlocksizeCode, rate: u32) -> Result<
    (nat, SampleRate, int),
    Error,
> {
    match blocksize_field(data, p, code) {
        Err(e) => Err(e),
        Ok((blocksize, p2)) => match rate_field(data, p2, rate) {
            Err(e) => Err(e),
            Ok((sr, p3)) => match byte_field(data, p3) {
                Err(e) => Err(e),
                Ok(_) => Ok((blocksize, sr, p3 + 8)),
            },
        },
    }
}

/// A frame header at bit `p` (§9.1.1–§9.1.8), validated field by field in
/// stream order (the codes fixed by the first 32 bits are judged before the
/// coded number is read): the header and the position of the first
/// subframe bit. A cursor off a byte boundary is [`Error::FrameSync`]; a
/// frame number above 31 bits is [`Error::InvalidField`].
pub open spec fn frame_header(data: Seq<u8>, p: int, defaults: StreamDefaults) -> Result<
    (FrameHeader, int),
    Error,
> {
    if p % 8 != 0 {
        Err(Error::FrameSync)
    } else {
        match fixed_fields(data, p) {
            Err(e) => Err(e),
            Ok((bs, rate, ch, size)) => match channels_of_code(ch) {
                Err(e) => Err(e),
                Ok(channels) => match bps_of_code(size, defaults.bits_per_sample) {
                    Err(e) => Err(e),
                    Ok(bps) => match block_code_of(bs) {
                        Err(e) => Err(e),
                        Ok(code) => match coded_number(data, p + 32) {
                            Err(e) => Err(e),
                            Ok((number, p1)) => if number as u64 > 0x7FFF_FFFF {
                                Err(Error::InvalidField)
                            } else {
                                match header_tail(data, p1, code, rate) {
                                    Err(e) => Err(e),
                                    Ok((blocksize, sr, end)) => Ok(
                                        (
                                            FrameHeader {
                                                blocksize: blocksize as usize,
                                                sample_rate: sr,
                                                channels,
                                                bits_per_sample: bps,
                                                number: number as u64,
                                            },
                                            end,
                                        ),
                                    ),
                                }
                            },
                        },
                    },
                },
            },
        }
    }
}

/// Block-size code to size class (Table 14).
fn blocksize_code(code: u8) -> (r: Result<BlocksizeCode, Error>)
    ensures
        r == block_code_of(code as u32),
{
    proof {
        vstd::arithmetic::power2::lemma2_to64();
    }
    match code {
        0b0001 => Ok(BlocksizeCode::Table(192)),
        0b0010 => Ok(BlocksizeCode::Table(576)),
        0b0011 => Ok(BlocksizeCode::Table(1152)),
        0b0100 => Ok(BlocksizeCode::Table(2304)),
        0b0101 => Ok(BlocksizeCode::Table(4608)),
        0b0110 => Ok(BlocksizeCode::Uncommon8),
        0b0111 => Ok(BlocksizeCode::Uncommon16),
        0b1000 => Ok(BlocksizeCode::Table(256)),
        0b1001 => Ok(BlocksizeCode::Table(512)),
        0b1010 => Ok(BlocksizeCode::Table(1024)),
        0b1011 => Ok(BlocksizeCode::Table(2048)),
        0b1100 => Ok(BlocksizeCode::Table(4096)),
        0b1101 => Ok(BlocksizeCode::Table(8192)),
        0b1110 => Ok(BlocksizeCode::Table(16384)),
        0b1111 => Ok(BlocksizeCode::Table(32768)),
        _ => Err(Error::InvalidField),
    }
}

/// Channel-assignment code to configuration (Table 16).
fn channel_config(code: u8) -> (r: Result<ChannelConfig, Error>)
    ensures
        r == channels_of_code(code as u32),
{
    match code {
        0b0000 => Ok(ChannelConfig::Independent { channels: 1 }),
        0b0001 => Ok(ChannelConfig::Independent { channels: 2 }),
        0b0010..=0b0111 => Err(Error::ProfileViolation),
        0b1000 => Ok(ChannelConfig::LeftSide),
        0b1001 => Ok(ChannelConfig::RightSide),
        0b1010 => Ok(ChannelConfig::MidSide),
        _ => Err(Error::InvalidField),
    }
}

/// Sample-size code to bits per sample (Table 17).
fn bits_per_sample(code: u8, defaults: &StreamDefaults) -> (r: Result<u8, Error>)
    ensures
        r == bps_of_code(code as u32, defaults.bits_per_sample),
{
    match code {
        0b000 => if defaults.bits_per_sample == 8 || defaults.bits_per_sample == 16 {
            Ok(defaults.bits_per_sample)
        } else {
            Err(Error::UnsupportedSampleSize)
        },
        0b001 => Ok(8),
        0b100 => Ok(16),
        0b011 => Err(Error::InvalidField),
        _ => Err(Error::UnsupportedSampleSize),
    }
}

/// Sample-rate code to rate, reading the uncommon value when there is one;
/// on an error the cursor is where [`rate_stop`] says.
fn sample_rate(code: u8, reader: &mut BitReader<'_>) -> (r: Result<SampleRate, Error>)
    requires
        old(reader).wf(),
    ensures
        final(reader).wf(),
        final(reader).data() == old(reader).data(),
        match rate_field(old(reader).data(), old(reader).pos(), code as u32) {
            Ok((sr, end)) => r == Ok::<SampleRate, Error>(sr) && final(reader).pos() == end,
            Err(e) => r == Err::<SampleRate, Error>(e) && final(reader).pos() == rate_stop(
                old(reader).data(),
                old(reader).pos(),
                code as u32,
            ),
        },
{
    let ghost d = reader.data();
    let ghost p = reader.pos();
    if code == 0b1100 {
        let khz = reader.read_u8()? as u32;
        if khz == 0 {
            return Err(Error::InvalidField);
        }
        Ok(SampleRate::Explicit(khz * 1000))
    } else if code == 0b1101 || code == 0b1110 {
        let v = reader.read_bits(16)?;
        if v == 0 {
            return Err(Error::InvalidField);
        }
        proof {
            lemma_bits_bound(d, p, 16);
            vstd::arithmetic::power2::lemma2_to64();
        }
        if code == 0b1101 {
            Ok(SampleRate::Explicit(v))
        } else {
            Ok(SampleRate::Explicit(v * 10))
        }
    } else {
        SampleRate::from_flac_code(code)
    }
}

/// The 32 fixed bits: sync, reserved bit, blocking strategy, the four code
/// fields and the second reserved bit.
fn read_fixed_fields(reader: &mut BitReader<'_>) -> (r: Result<(u32, u32, u32, u32), Error>)
    requires
        old(reader).wf(),
    ensures
        final(reader).wf(),
        final(reader).data() == old(reader).data(),
        r == fixed_fields(old(reader).data(), old(reader).pos()),
        r is Ok ==> final(reader).pos() == old(reader).pos() + 32,
{
    if reader.read_bits(14)? != 0x3FFE {
        return Err(Error::FrameSync);
    }
    if reader.read_bits(1)? != 0 {
        return Err(Error::InvalidField);
    }
    if reader.read_bits(1)? != 0 {
        return Err(Error::ProfileViolation);
    }
    let bs = reader.read_bits(4)?;
    let rate = reader.read_bits(4)?;
    let ch = reader.read_bits(4)?;
    let size = reader.read_bits(3)?;
    if reader.read_bits(1)? != 0 {
        return Err(Error::InvalidField);
    }
    Ok((bs, rate, ch, size))
}

/// The uncommon block size, when the code has one.
fn read_blocksize(reader: &mut BitReader<'_>, code: BlocksizeCode) -> (r: Result<usize, Error>)
    requires
        old(reader).wf(),
    ensures
        final(reader).wf(),
        final(reader).data() == old(reader).data(),
        match blocksize_field(old(reader).data(), old(reader).pos(), code) {
            Ok((n, end)) => r == Ok::<usize, Error>(n as usize) && final(reader).pos() == end && n
                <= 0x1_0000,
            Err(e) => r == Err::<usize, Error>(e),
        },
{
    let ghost d = reader.data();
    let ghost p = reader.pos();
    match code {
        BlocksizeCode::Table(n) => Ok(n as usize),
        BlocksizeCode::Uncommon8 => {
            let v = reader.read_u8()?;
            Ok(v as usize + 1)
        },
        BlocksizeCode::Uncommon16 => {
            let v = reader.read_bits(16)?;
            proof {
                lemma_bits_bound(d, p, 16);
                vstd::arithmetic::power2::lemma2_to64();
            }
            if v == 0xFFFF {
                return Err(Error::InvalidField);
            }
            Ok(v as usize + 1)
        },
    }
}

impl FrameHeader {
    /// Read a frame header; the reader must sit on the frame's first byte,
    /// and a cursor off a byte boundary is [`Error::FrameSync`] with nothing
    /// read. `defaults`
    /// resolves the "from stream" codes. On success the cursor sits on the
    /// first subframe bit; on an error it may sit part-way through the
    /// header.
    pub fn parse(reader: &mut BitReader<'_>, defaults: &StreamDefaults) -> (r: Result<Self, Error>)
        requires
            old(reader).wf(),
        ensures
            final(reader).wf(),
            final(reader).data() == old(reader).data(),
            old(reader).pos() % 8 != 0 ==> final(reader).pos() == old(reader).pos(),
            match frame_header(old(reader).data(), old(reader).pos(), *defaults) {
                Ok((h, end)) => r == Ok::<FrameHeader, Error>(h) && final(reader).pos() == end,
                Err(e) => r == Err::<FrameHeader, Error>(e),
            },
    {
        if reader.bit_position() % 8 != 0 {
            return Err(Error::FrameSync);
        }
        let (bs, rate, ch, size) = read_fixed_fields(reader)?;
        proof {
            let d = old(reader).data();
            let p = old(reader).pos();
            lemma_bits_bound(d, p + 16, 4);
            lemma_bits_bound(d, p + 20, 4);
            lemma_bits_bound(d, p + 24, 4);
            lemma_bits_bound(d, p + 28, 3);
            vstd::arithmetic::power2::lemma2_to64();
        }
        let channels = channel_config(ch as u8)?;
        let bits_per_sample = bits_per_sample(size as u8, defaults)?;
        let code = blocksize_code(bs as u8)?;
        let number = reader.read_utf8_coded()?;
        if number > 0x7FFF_FFFF {
            return Err(Error::InvalidField);
        }
        let blocksize = read_blocksize(reader, code)?;
        let sample_rate = sample_rate(rate as u8, reader)?;
        let _crc8 = reader.read_u8()?;
        Ok(FrameHeader { blocksize, sample_rate, channels, bits_per_sample, number })
    }
}

/// Bits per sample of subframe `slot`: the header's, one more for the side
/// channel of a decorrelated pair (slot 0 for side/right, slot 1 for
/// left/side and mid/side; §4.2).
pub open spec fn slot_bits(h: FrameHeader, slot: nat) -> nat {
    let side: nat = if (h.channels is RightSide && slot == 0) || ((h.channels is LeftSide
        || h.channels is MidSide) && slot == 1) {
        1
    } else {
        0
    };
    h.bits_per_sample as nat + side
}

/// The footer at bit `p`: padding to the next byte boundary, then the
/// two CRC-16 octets. Yields the position after it.
pub open spec fn frame_footer(data: Seq<u8>, p: int) -> Result<int, Error> {
    let pa = p + align_gap(p);
    match byte_field(data, pa) {
        Err(e) => Err(e),
        Ok(_) => match byte_field(data, pa + 8) {
            Err(e) => Err(e),
            Ok(_) => Ok(pa + 16),
        },
    }
}

/// The second subframe at `p`, when the assignment has two; otherwise
/// nothing is read.
pub open spec fn second_subframe(data: Seq<u8>, p: int, h: FrameHeader) -> Result<
    (Seq<i32>, int),
    Error,
> {
    if subframes_of(h.channels) == 2 {
        match subframe(data, p, h.blocksize as nat, slot_bits(h, 1)) {
            Err(e) => Err(e),
            Ok((_, b, p2)) => Ok((b, p2)),
        }
    } else {
        Ok((Seq::empty(), p))
    }
}

/// A frame body at bit `p` under header `h` (§9.1, §9.2, §9.3): the
/// subframes as decoded (the second empty for one-subframe assignments),
/// and the position after the footer. An independent assignment of neither
/// one nor two channels is [`Error::InvalidField`] once its first subframe
/// is read (unless the block is empty).
pub open spec fn frame_body(data: Seq<u8>, p: int, h: FrameHeader) -> Result<
    (Seq<i32>, Seq<i32>, int),
    Error,
> {
    match subframe(data, p, h.blocksize as nat, slot_bits(h, 0)) {
        Err(e) => Err(e),
        Ok((_, a, p1)) => match second_subframe(data, p1, h) {
            Err(e) => Err(e),
            Ok((b, p2)) => if subframes_of(h.channels) != 2 && subframes_of(h.channels) != 1
                && h.blocksize > 0 {
                Err(Error::InvalidField)
            } else {
                match frame_footer(data, p2) {
                    Err(e) => Err(e),
                    Ok(end) => Ok((a, b, end)),
                }
            },
        },
    }
}

/// Where reading the footer at `p` leaves the cursor: aligned, then after
/// each CRC octet read whole; an octet that cannot be read leaves the cursor
/// on it.
pub open spec fn footer_stop(data: Seq<u8>, p: int) -> int {
    let pa = p + align_gap(p);
    match byte_field(data, pa) {
        Err(_) => pa,
        Ok(_) => match byte_field(data, pa + 8) {
            Err(_) => pa + 8,
            Ok(_) => pa + 16,
        },
    }
}

/// An assignment the frame decoder refuses after reading its first
/// subframe: independent channels, neither one nor two of them, in a
/// non-empty block.
pub open spec fn refused_layout(h: FrameHeader) -> bool {
    subframes_of(h.channels) != 2 && subframes_of(h.channels) != 1 && h.blocksize > 0
}

/// Where decoding a frame body at `p` leaves the cursor when it fails:
/// where the failing subframe stops ([`subframe_stop`]), after the
/// subframes for a refused layout, or where the footer stops.
pub open spec fn frame_stop(data: Seq<u8>, p: int, h: FrameHeader) -> int {
    let bs = h.blocksize as nat;
    match subframe(data, p, bs, slot_bits(h, 0)) {
        Err(_) => subframe_stop(data, p, bs, slot_bits(h, 0)),
        Ok((_, _, p1)) => match second_subframe(data, p1, h) {
            Err(_) => subframe_stop(data, p1, bs, slot_bits(h, 1)),
            Ok((_, p2)) => if refused_layout(h) {
                p2
            } else {
                footer_stop(data, p2)
            },
        },
    }
}

/// The channel buffers `l1`/`r1` hold the decoded block of subframes `a`
/// and `b` under header `h` (recombined for a decorrelated pair), with
/// everything beyond the block left as in `l0`/`r0` (all of `r0` for a
/// one-subframe assignment).
pub open spec fn holds_block(
    h: FrameHeader,
    a: Seq<i32>,
    b: Seq<i32>,
    l0: Seq<i32>,
    r0: Seq<i32>,
    l1: Seq<i32>,
    r1: Seq<i32>,
) -> bool {
    &&& forall|i: int|
        0 <= i < h.blocksize ==> (if subframes_of(h.channels) == 2 {
            (#[trigger] l1[i], r1[i]) == recombined(h.channels, a[i], b[i])
        } else {
            l1[i] == a[i]
        })
    &&& forall|i: int| h.blocksize <= i < l0.len() ==> #[trigger] l1[i] == l0[i]
    &&& forall|i: int|
        (if subframes_of(h.channels) == 2 {
            h.blocksize as int
        } else {
            0
        }) <= i < r0.len() ==> #[trigger] r1[i] == r0[i]
}

/// What a frame that fails at `p` under `h` leaves in the channel buffers
/// (from `l0`/`r0` to `l1`/`r1`). A failing subframe leaves what it wrote
/// before failing at the front of its buffer ([`subframe_written`]) and the
/// rest untouched; the buffer of a subframe not yet read is untouched, that
/// of one already read holds it. A refused layout writes nothing more; a
/// failing footer comes after the block is in place.
pub open spec fn frame_error_buffers(
    data: Seq<u8>,
    p: int,
    h: FrameHeader,
    l0: Seq<i32>,
    r0: Seq<i32>,
    l1: Seq<i32>,
    r1: Seq<i32>,
) -> bool {
    let bs = h.blocksize as nat;
    match subframe(data, p, bs, slot_bits(h, 0)) {
        Err(_) => l1 == splice(l0, 0, subframe_written(data, p, bs, slot_bits(h, 0))) && r1 == r0,
        Ok((_, a, p1)) => match second_subframe(data, p1, h) {
            Err(_) => l1 == a + l0.skip(bs as int) && r1 == splice(
                r0,
                0,
                subframe_written(data, p1, bs, slot_bits(h, 1)),
            ),
            Ok((b, _)) => if refused_layout(h) {
                l1 == a + l0.skip(bs as int) && r1 == r0
            } else {
                holds_block(h, a, b, l0, r0, l1, r1)
            },
        },
    }
}

/// What a frame at `p` under `h` leaves in the two scratch states (from
/// `s0` to `s1`), whatever the outcome: each subframe whose header was read
/// leaves its warm-up samples in its slot; a slot whose subframe was not
/// reached, or whose header failed, is unchanged.
pub open spec fn frame_states(
    data: Seq<u8>,
    p: int,
    h: FrameHeader,
    s0: [PredictorState; 2],
    s1: [PredictorState; 2],
) -> bool {
    let bs = h.blocksize as nat;
    &&& match subframe_head(data, p, bs, slot_bits(h, 0)) {
        Ok((_, _, _, warm, _)) => holds_warm_up(s1[0], warm),
        Err(_) => s1[0] == s0[0],
    }
    &&& match subframe(data, p, bs, slot_bits(h, 0)) {
        Ok((_, _, p1)) if subframes_of(h.channels) == 2 => match subframe_head(
            data,
            p1,
            bs,
            slot_bits(h, 1),
        ) {
            Ok((_, _, _, warm, _)) => holds_warm_up(s1[1], warm),
            Err(_) => s1[1] == s0[1],
        },
        _ => s1[1] == s0[1],
    }
}

/// Decode one subframe into `buf[..blocksize]` with its own copy of the
/// scratch state.
fn decode_slot(
    reader: &mut BitReader<'_>,
    blocksize: usize,
    bits: u8,
    state: &mut PredictorState,
    buf: &mut [i32],
) -> (r: Result<(), Error>)
    requires
        old(reader).wf(),
        bits <= 64,
        blocksize <= old(buf)@.len(),
    ensures
        final(reader).wf(),
        final(reader).data() == old(reader).data(),
        final(buf)@.len() == old(buf)@.len(),
        final(buf)@.skip(blocksize as int) == old(buf)@.skip(blocksize as int),
        match subframe(old(reader).data(), old(reader).pos(), blocksize as nat, bits as nat) {
            Ok((_, s, end)) => r is Ok && final(reader).pos() == end && final(buf)@ == s + old(buf)@.skip(blocksize as int),
            Err(e) => r == Err::<(), Error>(e) && final(reader).pos() == subframe_stop(
                old(reader).data(),
                old(reader).pos(),
                blocksize as nat,
                bits as nat,
            ) && final(buf)@ == splice(
                old(buf)@,
                0,
                subframe_written(old(reader).data(), old(reader).pos(), blocksize as nat, bits as nat),
            ),
        },
        subframe(old(reader).data(), old(reader).pos(), blocksize as nat, bits as nat) is Ok
            ==> subframe_head(old(reader).data(), old(reader).pos(), blocksize as nat, bits as nat) is Ok,
        match subframe_head(old(reader).data(), old(reader).pos(), blocksize as nat, bits as nat) {
            Ok((_, _, _, warm, _)) => holds_warm_up(*final(state), warm),
            Err(_) => *final(state) == *old(state),
        },
{
    proof {
        if subframe(reader.data(), reader.pos(), blocksize as nat, bits as nat) is Ok {
            crate::subframe::lemma_subframe_head_ok(reader.data(), reader.pos(), blocksize as nat, bits as nat);
        }
    }
    let ghost d = reader.data();
    let ghost p = reader.pos();
    let (head, tail) = buf.split_at_mut(blocksize);
    let r = decode_subframe(reader, blocksize, bits, state, head);
    match r {
        Ok(_) => Ok(()),
        Err(e) => {
            proof {
                lemma_subframe_written_len(d, p, blocksize as nat, bits as nat);
                let x = subframe_written(d, p, blocksize as nat, bits as nat);
                assert(head@ + tail@ =~= splice(old(buf)@, 0, x));
            }
            Err(e)
        },
    }
}

/// The warm-up samples of the frame's subframes at `p` under `h` (the
/// second empty for one-subframe assignments); meaningful when
/// [`frame_body`] succeeds.
pub open spec fn frame_warm_ups(data: Seq<u8>, p: int, h: FrameHeader) -> (Seq<i32>, Seq<i32>) {
    let bs = h.blocksize as nat;
    let w0 = subframe_head(data, p, bs, slot_bits(h, 0)).unwrap().3;
    let p1 = subframe(data, p, bs, slot_bits(h, 0)).unwrap().2;
    let w1 = if subframes_of(h.channels) == 2 {
        subframe_head(data, p1, bs, slot_bits(h, 1)).unwrap().3
    } else {
        Seq::empty()
    };
    (w0, w1)
}

/// Both subframes of the frame: subframe 0 into `left`, subframe 1 (when
/// the assignment has two) into `right`.
#[verifier::rlimit(30)]
fn decode_subframes(
    reader: &mut BitReader<'_>,
    header: &FrameHeader,
    left: &mut [i32],
    right: &mut [i32],
    state: &mut [PredictorState; 2],
) -> (r: Result<(), Error>)
    requires
        old(reader).wf(),
        header.bits_per_sample < 64,
        header.blocksize <= old(left)@.len(),
        subframes_of(header.channels) == 2 ==> header.blocksize <= old(right)@.len(),
    ensures
        final(reader).wf(),
        final(reader).data() == old(reader).data(),
        final(left)@.len() == old(left)@.len(),
        final(right)@.len() == old(right)@.len(),
        frame_states(old(reader).data(), old(reader).pos(), *header, *old(state), *final(state)),
        match subframe(old(reader).data(), old(reader).pos(), header.blocksize as nat, slot_bits(*header, 0)) {
            Err(e) => {
                &&& r == Err::<(), Error>(e)
                &&& final(reader).pos() == subframe_stop(
                    old(reader).data(),
                    old(reader).pos(),
                    header.blocksize as nat,
                    slot_bits(*header, 0),
                )
                &&& final(right)@ == old(right)@
                &&& final(left)@ == splice(
                    old(left)@,
                    0,
                    subframe_written(
                        old(reader).data(),
                        old(reader).pos(),
                        header.blocksize as nat,
                        slot_bits(*header, 0),
                    ),
                )
            },
            Ok((_, a, p1)) => match second_subframe(old(reader).data(), p1, *header) {
                Err(e) => {
                    &&& r == Err::<(), Error>(e)
                    &&& final(reader).pos() == subframe_stop(
                        old(reader).data(),
                        p1,
                        header.blocksize as nat,
                        slot_bits(*header, 1),
                    )
                    &&& final(left)@ == a + old(left)@.skip(header.blocksize as int)
                    &&& final(right)@ == splice(
                        old(right)@,
                        0,
                        subframe_written(old(reader).data(), p1, header.blocksize as nat, slot_bits(*header, 1)),
                    )
                },
                Ok((b, p2)) => {
                    &&& r is Ok
                    &&& final(reader).pos() == p2
                    &&& final(left)@ == a + old(left)@.skip(header.blocksize as int)
                    &&& final(right)@ == (if subframes_of(header.channels) == 2 {
                        b + old(right)@.skip(header.blocksize as int)
                    } else {
                        old(right)@
                    })
                    &&& holds_warm_up(final(state)[0], frame_warm_ups(old(reader).data(), old(reader).pos(), *header).0)
                    &&& (subframes_of(header.channels) == 2 ==> holds_warm_up(final(state)[1], frame_warm_ups(old(reader).data(), old(reader).pos(), *header).1))
                    &&& (subframes_of(header.channels) != 2 ==> final(state)[1] == old(state)[1])
                },
            },
        },
{
    let blocksize = header.blocksize;
    let two = header.channels.subframe_count() == 2;
    let bps = header.bits_per_sample;
    let (bits0, bits1): (u8, u8) = match header.channels {
        ChannelConfig::RightSide => (bps + 1, bps),
        ChannelConfig::LeftSide | ChannelConfig::MidSide => (bps, bps + 1),
        ChannelConfig::Independent { .. } => (bps, bps),
    };
    let mut s0 = state[0];
    let r0 = decode_slot(reader, blocksize, bits0, &mut s0, left);
    state[0] = s0;
    r0?;
    if two {
        let mut s1 = state[1];
        let r1 = decode_slot(reader, blocksize, bits1, &mut s1, right);
        state[1] = s1;
        r1?;
    }
    Ok(())
}

/// Decode one whole frame — subframes, decorrelation, footer — into `left`
/// and `right`; `header` must be the header just parsed at this cursor.
///
/// Exactly `header.blocksize` samples per channel are written; anything
/// beyond stays untouched, so one buffer can serve frames of any size. Mono
/// never touches `right` (it may be empty). Short buffers are
/// [`Error::InvalidField`] before any read. The side subframe of a
/// decorrelated pair is decoded one bit wider (see [`slot_bits`]). The
/// footer's padding and CRC-16 are consumed, landing the cursor on the next
/// frame. `state` is per-subframe scratch, one slot per subframe, and ends
/// up holding each subframe's warm-up samples ([`frame_states`], whatever
/// the outcome). Returns the samples written per channel.
///
/// A failure leaves the cursor at the start of the read that failed, or
/// after the field whose value was refused ([`frame_stop`]), and the
/// buffers as [`frame_error_buffers`] describes: subframes, layout check
/// and footer happen in that order, each on the cursor the previous one
/// left.
#[verifier::rlimit(60)]
pub fn decode_frame(
    reader: &mut BitReader<'_>,
    header: &FrameHeader,
    left: &mut [i32],
    right: &mut [i32],
    state: &mut [PredictorState; 2],
) -> (r: Result<usize, Error>)
    requires
        old(reader).wf(),
        header.bits_per_sample < 64,
    ensures
        final(reader).wf(),
        final(reader).data() == old(reader).data(),
        final(left)@.len() == old(left)@.len(),
        final(right)@.len() == old(right)@.len(),
        (old(left)@.len() < header.blocksize || (subframes_of(header.channels) == 2 && old(right)@.len() < header.blocksize)) ==> r == Err::<usize, Error>(Error::InvalidField)
            && final(reader).pos() == old(reader).pos() && final(left)@ == old(left)@ && final(right)@ == old(right)@ && *final(state) == *old(state),
        !(old(left)@.len() < header.blocksize || (subframes_of(header.channels) == 2 && old(right)@.len() < header.blocksize)) ==> match frame_body(
            old(reader).data(),
            old(reader).pos(),
            *header,
        ) {
            Ok((a, b, end)) => {
                &&& r == Ok::<usize, Error>(header.blocksize)
                &&& final(reader).pos() == end
                &&& holds_block(*header, a, b, old(left)@, old(right)@, final(left)@, final(right)@)
                &&& holds_warm_up(final(state)[0], frame_warm_ups(old(reader).data(), old(reader).pos(), *header).0)
                &&& (subframes_of(header.channels) == 2 ==> holds_warm_up(final(state)[1], frame_warm_ups(old(reader).data(), old(reader).pos(), *header).1))
                &&& (subframes_of(header.channels) != 2 ==> final(state)[1] == old(state)[1])
            },
            Err(e) => {
                &&& r == Err::<usize, Error>(e)
                &&& final(reader).pos() == frame_stop(old(reader).data(), old(reader).pos(), *header)
                &&& frame_error_buffers(
                    old(reader).data(),
                    old(reader).pos(),
                    *header,
                    old(left)@,
                    old(right)@,
                    final(left)@,
                    final(right)@,
                )
            },
        },
        !(old(left)@.len() < header.blocksize || (subframes_of(header.channels) == 2 && old(right)@.len() < header.blocksize))
            ==> frame_states(old(reader).data(), old(reader).pos(), *header, *old(state), *final(state)),
{
    let blocksize = header.blocksize;
    let two = header.channels.subframe_count() == 2;
    if left.len() < blocksize || (two && right.len() < blocksize) {
        return Err(Error::InvalidField);
    }
    decode_subframes(reader, header, left, right, state)?;
    let ghost left_mid = left@;
    let ghost right_mid = right@;
    let right_span = if two {
        blocksize
    } else {
        0
    };
    let (lh, lt) = left.split_at_mut(blocksize);
    let (rh, rt) = right.split_at_mut(right_span);
    match decorrelate(header.channels, blocksize, lh, rh) {
        Ok(()) => {},
        Err(e) => {
            proof {
                assert(!two);
                assert(refused_layout(*header));
                assert(left@ =~= left_mid);
                assert(right@ =~= right_mid);
            }
            return Err(e);
        },
    }
    reader.byte_align();
    let _crc_hi = reader.read_u8()?;
    let _crc_lo = reader.read_u8()?;
    Ok(blocksize)
}

/// The continuation octets of a coded number are whole octets.
proof fn lemma_coded_tail_octets(data: Seq<u8>, pos: int, remaining: nat, acc: nat)
    requires
        crate::bits::coded_tail(data, pos, remaining, acc) is Ok,
    ensures
        (crate::bits::coded_tail(data, pos, remaining, acc).unwrap().1 - pos) % 8 == 0,
    decreases remaining,
{
    if remaining > 0 {
        let c = field(data, pos, 8).unwrap();
        lemma_coded_tail_octets(data, pos + 8, (remaining - 1) as nat, acc * 64 + (c % 64) as nat);
    }
}

/// A frame header is whole octets: parsed from a byte boundary, it ends on
/// one, so the CRC-8 and the first subframe start byte-aligned.
#[verifier::rlimit(40)]
pub proof fn lemma_header_ends_aligned(data: Seq<u8>, p: int, defaults: StreamDefaults)
    requires
        frame_header(data, p, defaults) is Ok,
    ensures
        p % 8 == 0,
        frame_header(data, p, defaults).unwrap().1 % 8 == 0,
{
    let (bs, rate, ch, size) = fixed_fields(data, p).unwrap();
    let code = block_code_of(bs).unwrap();
    let lead = field(data, p + 32, 8).unwrap();
    let ones = crate::bits::leading_ones(lead as u8);
    let octets: nat = if ones == 0 {
        1
    } else {
        ones
    };
    lemma_coded_tail_octets(
        data,
        p + 40,
        (octets - 1) as nat,
        (lead as nat) % pow2((7 - ones) as nat),
    );
}

/// The footer ends on a byte boundary.
proof fn lemma_footer_aligned(data: Seq<u8>, p: int)
    requires
        frame_footer(data, p) is Ok,
    ensures
        frame_footer(data, p).unwrap() % 8 == 0,
{
    crate::bits::lemma_align_idempotent(p);
}

/// A decoded frame ends on a byte boundary (the footer pads to one and the
/// CRC-16 is two octets), so frames chain: the cursor lands where the next
/// frame's header may begin.
pub proof fn lemma_frame_ends_aligned(data: Seq<u8>, p: int, h: FrameHeader)
    requires
        frame_body(data, p, h) is Ok,
    ensures
        frame_body(data, p, h).unwrap().2 % 8 == 0,
{
    let r0 = subframe(data, p, h.blocksize as nat, slot_bits(h, 0));
    let p1 = r0.unwrap().2;
    let r1 = second_subframe(data, p1, h);
    let p2 = r1.unwrap().1;
    lemma_footer_aligned(data, p2);
}

/// A frame body is its subframes in slot order, then the footer (§9.1, §4.2):
/// for mono and for every two-channel assignment and every sample size, the
/// subframe in slot 0 is read at the header's bits per sample, plus one when
/// it is the side channel of side/right; the one in slot 1 at the header's
/// bits per sample, plus one when it is the side channel of left/side or
/// mid/side. Whatever those subframes decode to is what the body yields,
/// and it ends after padding to a byte boundary and two CRC octets.
pub proof fn lemma_frame_body_slots(
    data: Seq<u8>,
    p: int,
    h: FrameHeader,
    k0: SubframeType,
    a: Seq<i32>,
    p1: int,
    k1: SubframeType,
    b: Seq<i32>,
    p2: int,
)
    requires
        subframes_of(h.channels) == 1 || subframes_of(h.channels) == 2,
        subframe(
            data,
            p,
            h.blocksize as nat,
            h.bits_per_sample as nat + (if h.channels is RightSide {
                1nat
            } else {
                0nat
            }),
        ) == Ok::<(SubframeType, Seq<i32>, int), Error>((k0, a, p1)),
        subframes_of(h.channels) == 2 ==> subframe(
            data,
            p1,
            h.blocksize as nat,
            h.bits_per_sample as nat + (if h.channels is LeftSide || h.channels is MidSide {
                1nat
            } else {
                0nat
            }),
        ) == Ok::<(SubframeType, Seq<i32>, int), Error>((k1, b, p2)),
        subframes_of(h.channels) == 1 ==> p2 == p1 && b == Seq::<i32>::empty(),
        0 <= p2,
        p2 + align_gap(p2) + 16 <= crate::bits::total_bits(data),
    ensures
        frame_body(data, p, h) == Ok::<(Seq<i32>, Seq<i32>, int), Error>((a, b, p2 + align_gap(p2) + 16)),
{
    assert(0 <= align_gap(p2) < 8);
}

} // verus!
