//! The frame-header encoder (RFC 9639 §9.1), written as spec functions that
//! produce bit strings from the header's meaning (block size in samples,
//! rate in Hz, channel assignment, bit depth, frame number), and the law
//! that the header parser gives that meaning back.
use vstd::prelude::*;
use vstd::arithmetic::power2::{pow2, lemma2_to64, lemma_pow2_pos, lemma_pow2_adds};
use vstd::arithmetic::div_mod::{lemma_div_denominator, lemma_fundamental_div_mod, lemma_multiply_divide_lt};

use crate::Error;
use crate::bits::{field, byte_field, coded_number, coded_tail, leading_ones, ones_from};
use crate::encoding::{bits_of, holds_bits, lemma_holds_split, lemma_bits_of_len, lemma_field_of_bits};
use crate::format::{ChannelConfig, SampleRate};
use crate::frame::{
    FrameHeader, StreamDefaults, BlocksizeCode, block_code_of, blocksize_field, rate_field, channels_of_code,
    bps_of_code, fixed_fields, code_fields, header_tail, frame_header,
};

verus! {

/// The block-size code the encoder picks for `n` samples (Table 14): a
/// table size when `n` is one, otherwise `n - 1` after the coded number,
/// in 8 bits up to 256 samples and in 16 bits above.
pub open spec fn bs_code(n: nat) -> nat {
    if n == 192 {
        1
    } else if n == 576 {
        2
    } else if n == 1152 {
        3
    } else if n == 2304 {
        4
    } else if n == 4608 {
        5
    } else if n == 256 {
        8
    } else if n == 512 {
        9
    } else if n == 1024 {
        10
    } else if n == 2048 {
        11
    } else if n == 4096 {
        12
    } else if n == 8192 {
        13
    } else if n == 16384 {
        14
    } else if n == 32768 {
        15
    } else if n <= 256 {
        6
    } else {
        7
    }
}

/// What follows the coded number for a block of `n` samples: `n - 1` in 8
/// or 16 bits for the uncommon codes, nothing for a table size.
pub open spec fn bs_tail(n: nat) -> Seq<nat> {
    if bs_code(n) == 6 {
        bits_of((n - 1) as nat, 8)
    } else if bs_code(n) == 7 {
        bits_of((n - 1) as nat, 16)
    } else {
        Seq::empty()
    }
}

/// A sample rate the header can carry: "from the stream", or a rate in Hz
/// that is one of Table 15's, a whole number of kHz below 256 kHz, at most
/// 65535 Hz, or a whole number of tens of Hz below 655360 Hz.
pub open spec fn rate_ok(r: SampleRate) -> bool {
    match r {
        SampleRate::FromStreamDefault => true,
        SampleRate::Explicit(hz) => hz > 0 && (hz % 1000 == 0 && hz / 1000 <= 255 || hz <= 65535 || hz % 10
            == 0 && hz / 10 <= 65535),
    }
}

/// The sample-rate code the encoder picks (Table 15): 0 for "from the
/// stream", a table code for the eleven table rates, otherwise 12 (kHz in 8
/// bits), 13 (Hz in 16 bits) or 14 (tens of Hz in 16 bits).
pub open spec fn rate_code(r: SampleRate) -> nat {
    match r {
        SampleRate::FromStreamDefault => 0,
        SampleRate::Explicit(hz) => if hz == 88200 {
            1
        } else if hz == 176400 {
            2
        } else if hz == 192000 {
            3
        } else if hz == 8000 {
            4
        } else if hz == 16000 {
            5
        } else if hz == 22050 {
            6
        } else if hz == 24000 {
            7
        } else if hz == 32000 {
            8
        } else if hz == 44100 {
            9
        } else if hz == 48000 {
            10
        } else if hz == 96000 {
            11
        } else if hz % 1000 == 0 && hz / 1000 <= 255 {
            12
        } else if hz <= 65535 {
            13
        } else {
            14
        },
    }
}

/// What follows the block-size tail for the rate: the kHz, Hz or tens of
/// Hz for codes 12, 13 and 14; nothing otherwise.
pub open spec fn rate_tail(r: SampleRate) -> Seq<nat> {
    match r {
        SampleRate::FromStreamDefault => Seq::empty(),
        SampleRate::Explicit(hz) => if rate_code(r) == 12 {
            bits_of(hz as nat / 1000, 8)
        } else if rate_code(r) == 13 {
            bits_of(hz as nat, 16)
        } else if rate_code(r) == 14 {
            bits_of(hz as nat / 10, 16)
        } else {
            Seq::empty()
        },
    }
}

/// The channel-assignment code (Table 16) of the assignments the decoder
/// carries: mono 0, left/right 1, left/side 8, side/right 9, mid/side 10.
pub open spec fn ch_code(c: ChannelConfig) -> nat {
    match c {
        ChannelConfig::Independent { channels } => if channels == 1 {
            0
        } else {
            1
        },
        ChannelConfig::LeftSide => 8,
        ChannelConfig::RightSide => 9,
        ChannelConfig::MidSide => 10,
    }
}

/// An assignment the decoder carries: one or two independent channels, or
/// one of the three decorrelated pairs.
pub open spec fn ch_ok(c: ChannelConfig) -> bool {
    match c {
        ChannelConfig::Independent { channels } => channels == 1 || channels == 2,
        _ => true,
    }
}

/// The sample-size code (Table 17) for 8 and 16 bits: 1 and 4.
pub open spec fn size_code(bps: nat) -> nat {
    if bps == 8 {
        1
    } else {
        4
    }
}

/// Octets the encoder uses for the coded frame number `n` (§9.1.5): one
/// for 7 bits, otherwise `k` octets carry `5k + 1` bits.
pub open spec fn number_octets(n: nat) -> nat {
    if n < pow2(7) {
        1
    } else if n < pow2(11) {
        2
    } else if n < pow2(16) {
        3
    } else if n < pow2(21) {
        4
    } else if n < pow2(26) {
        5
    } else {
        6
    }
}

/// The last `j` octets of a coded number: `10` then six bits each, most
/// significant first.
pub open spec fn cont_code(n: nat, j: nat) -> Seq<nat>
    decreases j,
{
    if j == 0 {
        Seq::empty()
    } else {
        bits_of(128 + (n / pow2((6 * (j - 1)) as nat)) % 64, 8) + cont_code(n, (j - 1) as nat)
    }
}

/// The coded frame number (UTF-8 style): one octet below 128, otherwise a
/// lead octet of `k` ones, a zero and the top bits, then `k - 1`
/// continuation octets.
pub open spec fn number_code(n: nat) -> Seq<nat> {
    let k = number_octets(n);
    if k == 1 {
        bits_of(n, 8)
    } else {
        bits_of(((256 - pow2((8 - k) as nat)) + n / pow2((6 * (k - 1)) as nat)) as nat, 8) + cont_code(
            n,
            (k - 1) as nat,
        )
    }
}

/// The first 32 header bits: sync code `0x3FFE`, a clear reserved bit,
/// fixed blocking, the four codes and a clear reserved bit.
pub open spec fn fixed_code(n: nat, r: SampleRate, c: ChannelConfig, bps: nat) -> Seq<nat> {
    bits_of(0x3FFE, 14) + bits_of(0, 1) + bits_of(0, 1) + bits_of(bs_code(n), 4) + bits_of(rate_code(r), 4)
        + bits_of(ch_code(c), 4) + bits_of(size_code(bps), 3) + bits_of(0, 1)
}

/// A whole frame header for a block of `n` samples at rate `r`, channel
/// assignment `c`, `bps` bits per sample and frame number `number`, closed
/// by the CRC-8 octet `crc`.
pub open spec fn header_code(n: nat, r: SampleRate, c: ChannelConfig, bps: nat, number: nat, crc: nat) -> Seq<
    nat,
> {
    fixed_code(n, r, c, bps) + number_code(number) + bs_tail(n) + rate_tail(r) + bits_of(crc, 8)
}

/// The block size reads back as written, for every size from 1 to 65535.
pub proof fn lemma_blocksize_round_trip(data: Seq<u8>, p: int, n: nat)
    requires
        1 <= n <= 65535,
        holds_bits(data, p, bs_tail(n)),
    ensures
        block_code_of(bs_code(n) as u32) is Ok,
        blocksize_field(data, p, block_code_of(bs_code(n) as u32).unwrap()) == Ok::<(nat, int), Error>(
            (n, p + bs_tail(n).len()),
        ),
{
    lemma2_to64();
    let c = bs_code(n);
    if c == 6 {
        lemma_bits_of_len((n - 1) as nat, 8);
        lemma_field_of_bits(data, p, (n - 1) as nat, 8);
    } else if c == 7 {
        lemma_bits_of_len((n - 1) as nat, 16);
        lemma_field_of_bits(data, p, (n - 1) as nat, 16);
    }
}

/// The sample rate reads back as written, for every rate the header can
/// carry.
pub proof fn lemma_rate_round_trip(data: Seq<u8>, p: int, r: SampleRate)
    requires
        rate_ok(r),
        holds_bits(data, p, rate_tail(r)),
    ensures
        rate_field(data, p, rate_code(r) as u32) == Ok::<(SampleRate, int), Error>((r, p + rate_tail(r).len())),
{
    lemma2_to64();
    if let SampleRate::Explicit(hz) = r {
        let code = rate_code(r);
        if code == 12 {
            lemma_bits_of_len(hz as nat / 1000, 8);
            lemma_field_of_bits(data, p, hz as nat / 1000, 8);
        } else if code == 13 {
            lemma_bits_of_len(hz as nat, 16);
            lemma_field_of_bits(data, p, hz as nat, 16);
        } else if code == 14 {
            lemma_bits_of_len(hz as nat / 10, 16);
            lemma_field_of_bits(data, p, hz as nat / 10, 16);
        }
    }
}

/// Continuation octets read back into the number: after the `j` last
/// octets, the running value `n / 64^j` grows back to `n`.
proof fn lemma_cont_round_trip(data: Seq<u8>, p: int, n: nat, j: nat)
    requires
        holds_bits(data, p, cont_code(n, j)),
    ensures
        cont_code(n, j).len() == 8 * j,
        coded_tail(data, p, j, n / pow2((6 * j) as nat)) == Ok::<(nat, int), Error>((n, p + 8 * j)),
    decreases j,
{
    if j == 0 {
        lemma2_to64();
    } else {
        let m = (j - 1) as nat;
        let q = n / pow2((6 * m) as nat);
        let d = q % 64;
        let head = bits_of(128 + d, 8);
        lemma_bits_of_len(128 + d, 8);
        lemma_holds_split(data, p, head, cont_code(n, m));
        lemma_cont_round_trip(data, p + 8, n, m);
        lemma2_to64();
        lemma_pow2_pos((6 * m) as nat);
        lemma_field_of_bits(data, p, 128 + d, 8);
        lemma_pow2_adds((6 * m) as nat, 6);
        assert((6 * m) as nat + 6 == (6 * j) as nat);
        lemma_div_denominator(n as int, pow2((6 * m) as nat) as int, 64);
        assert(n / pow2((6 * j) as nat) == q / 64);
        lemma_fundamental_div_mod(q as int, 64);
        assert((128 + d) / 64 == 2);
        assert((128 + d) % 64 == d);
        assert((q / 64) * 64 + d == q);
    }
}

/// The lead octet of a `k`-octet coded number holding the top bits `x`
/// has `k` leading ones, and its low `7 - k` bits are `x`.
proof fn lemma_lead_octet(k: nat, x: nat)
    requires
        2 <= k <= 6,
        x < pow2((7 - k) as nat),
    ensures
        (256 - pow2((8 - k) as nat)) + x < 256,
        leading_ones(((256 - pow2((8 - k) as nat)) + x) as u8) == k,
        (((256 - pow2((8 - k) as nat)) + x) as nat) % pow2((7 - k) as nat) == x,
{
    lemma2_to64();
    reveal_with_fuel(ones_from, 8);
    let v = ((256 - pow2((8 - k) as nat)) + x) as nat;
    let b = v as u8;
    if k == 2 {
        assert(b & (0x80u8 >> 0u8) != 0 && b & (0x80u8 >> 1u8) != 0 && b & (0x80u8 >> 2u8) == 0) by (bit_vector)
            requires
                192 <= b < 224,
        ;
        assert(v == 192 + x && v % 32 == x);
    } else if k == 3 {
        assert(b & (0x80u8 >> 0u8) != 0 && b & (0x80u8 >> 1u8) != 0 && b & (0x80u8 >> 2u8) != 0 && b & (
        0x80u8 >> 3u8) == 0) by (bit_vector)
            requires
                224 <= b < 240,
        ;
        assert(v == 224 + x && v % 16 == x);
    } else if k == 4 {
        assert(b & (0x80u8 >> 0u8) != 0 && b & (0x80u8 >> 1u8) != 0 && b & (0x80u8 >> 2u8) != 0 && b & (
        0x80u8 >> 3u8) != 0 && b & (0x80u8 >> 4u8) == 0) by (bit_vector)
            requires
                240 <= b < 248,
        ;
        assert(v == 240 + x && v % 8 == x);
    } else if k == 5 {
        assert(b & (0x80u8 >> 0u8) != 0 && b & (0x80u8 >> 1u8) != 0 && b & (0x80u8 >> 2u8) != 0 && b & (
        0x80u8 >> 3u8) != 0 && b & (0x80u8 >> 4u8) != 0 && b & (0x80u8 >> 5u8) == 0) by (bit_vector)
            requires
                248 <= b < 252,
        ;
        assert(v == 248 + x && v % 4 == x);
    } else {
        assert(b & (0x80u8 >> 0u8) != 0 && b & (0x80u8 >> 1u8) != 0 && b & (0x80u8 >> 2u8) != 0 && b & (
        0x80u8 >> 3u8) != 0 && b & (0x80u8 >> 4u8) != 0 && b & (0x80u8 >> 5u8) != 0 && b & (0x80u8 >> 6u8)
            == 0) by (bit_vector)
            requires
                252 <= b < 254,
        ;
        assert(v == 252 + x && v % 2 == x);
    }
}

/// A coded frame number reads back as written, for every number below
/// `2^31`.
pub proof fn lemma_number_round_trip(data: Seq<u8>, p: int, number: nat)
    requires
        number < 0x8000_0000,
        holds_bits(data, p, number_code(number)),
    ensures
        coded_number(data, p) == Ok::<(nat, int), Error>((number, p + number_code(number).len())),
{
    lemma2_to64();
    let k = number_octets(number);
    if k == 1 {
        lemma_bits_of_len(number, 8);
        lemma_field_of_bits(data, p, number, 8);
        let b = number as u8;
        assert(b & (0x80u8 >> 0u8) == 0) by (bit_vector)
            requires
                b < 128,
        ;
        assert(ones_from(b, 0) == 0);
        assert(leading_ones(b) == 0);
        assert(coded_tail(data, p + 8, 0, (number as nat) % pow2(7)) == Ok::<(nat, int), Error>(
            (number, p + 8),
        ));
    } else {
        let sh = (6 * (k - 1)) as nat;
        lemma_pow2_pos(sh);
        let x = number / pow2(sh);
        assert(x < pow2((7 - k) as nat)) by {
            lemma_pow2_adds(sh, (7 - k) as nat);
            assert(sh + (7 - k) as nat == (5 * k + 1) as nat);
            assert(number < pow2((5 * k + 1) as nat));
            lemma_multiply_divide_lt(number as int, pow2(sh) as int, pow2((7 - k) as nat) as int);
        }
        lemma_lead_octet(k, x);
        let lead = ((256 - pow2((8 - k) as nat)) + x) as nat;
        lemma_bits_of_len(lead, 8);
        lemma_holds_split(data, p, bits_of(lead, 8), cont_code(number, (k - 1) as nat));
        lemma_field_of_bits(data, p, lead, 8);
        lemma_cont_round_trip(data, p + 8, number, (k - 1) as nat);
    }
}

/// The 32 fixed bits read back as the four codes written.
proof fn lemma_fixed_round_trip(data: Seq<u8>, p: int, n: nat, r: SampleRate, c: ChannelConfig, bps: nat)
    requires
        holds_bits(data, p, fixed_code(n, r, c, bps)),
        rate_code(r) < 16,
    ensures
        fixed_code(n, r, c, bps).len() == 32,
        fixed_fields(data, p) == Ok::<(u32, u32, u32, u32), Error>(
            (bs_code(n) as u32, rate_code(r) as u32, ch_code(c) as u32, size_code(bps) as u32),
        ),
{
    lemma2_to64();
    let s0 = bits_of(0x3FFE, 14);
    let s1 = bits_of(0, 1);
    let s2 = bits_of(0, 1);
    let s3 = bits_of(bs_code(n), 4);
    let s4 = bits_of(rate_code(r), 4);
    let s5 = bits_of(ch_code(c), 4);
    let s6 = bits_of(size_code(bps), 3);
    let s7 = bits_of(0, 1);
    lemma_bits_of_len(0x3FFE, 14);
    lemma_bits_of_len(0, 1);
    lemma_bits_of_len(bs_code(n), 4);
    lemma_bits_of_len(rate_code(r), 4);
    lemma_bits_of_len(ch_code(c), 4);
    lemma_bits_of_len(size_code(bps), 3);
    lemma_holds_split(data, p, s0 + s1 + s2 + s3 + s4 + s5 + s6, s7);
    lemma_holds_split(data, p, s0 + s1 + s2 + s3 + s4 + s5, s6);
    lemma_holds_split(data, p, s0 + s1 + s2 + s3 + s4, s5);
    lemma_holds_split(data, p, s0 + s1 + s2 + s3, s4);
    lemma_holds_split(data, p, s0 + s1 + s2, s3);
    lemma_holds_split(data, p, s0 + s1, s2);
    lemma_holds_split(data, p, s0, s1);
    lemma_field_of_bits(data, p, 0x3FFE, 14);
    lemma_field_of_bits(data, p + 14, 0, 1);
    lemma_field_of_bits(data, p + 15, 0, 1);
    lemma_field_of_bits(data, p + 16, bs_code(n), 4);
    lemma_field_of_bits(data, p + 20, rate_code(r), 4);
    lemma_field_of_bits(data, p + 24, ch_code(c), 4);
    lemma_field_of_bits(data, p + 28, size_code(bps), 3);
    lemma_field_of_bits(data, p + 31, 0, 1);
    assert(code_fields(data, p + 16) == Ok::<(u32, u32, u32, u32), Error>(
        (bs_code(n) as u32, rate_code(r) as u32, ch_code(c) as u32, size_code(bps) as u32),
    ));
}

/// A frame header laid out by [`header_code`] parses back to the header
/// written, and the first subframe starts right after it: for every block
/// size from 1 to 65535, every rate the header can carry, every channel
/// assignment and bit depth the decoder carries, every frame number below
/// `2^31` and every CRC-8 octet.
pub proof fn lemma_header_round_trip(
    data: Seq<u8>,
    p: int,
    defaults: StreamDefaults,
    n: nat,
    r: SampleRate,
    c: ChannelConfig,
    bps: nat,
    number: nat,
    crc: nat,
)
    requires
        p % 8 == 0,
        1 <= n <= 65535,
        rate_ok(r),
        ch_ok(c),
        bps == 8 || bps == 16,
        number < 0x8000_0000,
        crc < 256,
        holds_bits(data, p, header_code(n, r, c, bps, number, crc)),
    ensures
        frame_header(data, p, defaults) == Ok::<(FrameHeader, int), Error>(
            (
                FrameHeader {
                    blocksize: n as usize,
                    sample_rate: r,
                    channels: c,
                    bits_per_sample: bps as u8,
                    number: number as u64,
                },
                p + header_code(n, r, c, bps, number, crc).len(),
            ),
        ),
{
    lemma2_to64();
    let f = fixed_code(n, r, c, bps);
    let nb = number_code(number);
    let bt = bs_tail(n);
    let rt = rate_tail(r);
    let cb = bits_of(crc, 8);
    lemma_holds_split(data, p, f + nb + bt + rt, cb);
    lemma_holds_split(data, p, f + nb + bt, rt);
    lemma_holds_split(data, p, f + nb, bt);
    lemma_holds_split(data, p, f, nb);
    lemma_bits_of_len(crc, 8);
    lemma_fixed_round_trip(data, p, n, r, c, bps);
    lemma_number_round_trip(data, p + 32, number);
    let p1 = p + 32 + nb.len();
    lemma_blocksize_round_trip(data, p1, n);
    let p2 = p1 + bt.len();
    lemma_rate_round_trip(data, p2, r);
    let p3 = p2 + rt.len();
    lemma_field_of_bits(data, p3, crc, 8);
    assert(byte_field(data, p3) is Ok);
    assert(channels_of_code(ch_code(c) as u32) == Ok::<ChannelConfig, Error>(c));
    assert(bps_of_code(size_code(bps) as u32, defaults.bits_per_sample) == Ok::<u8, Error>(bps as u8));
    let code = block_code_of(bs_code(n) as u32).unwrap();
    assert(header_tail(data, p1, code, rate_code(r) as u32) == Ok::<(nat, SampleRate, int), Error>(
        (n, r, p3 + 8),
    ));
}

/// The codes a frame header may not carry are refused: block-size code 0
/// and a 16-bit uncommon block size of `0xFFFF` as
/// [`Error::InvalidField`], sample-rate code 15 as [`Error::InvalidField`],
/// channel codes 11 to 15 as [`Error::InvalidField`] and 2 to 7 (3 to 8
/// channels) as [`Error::ProfileViolation`], sample-size code 3 as
/// [`Error::InvalidField`] and the depths 12, 20, 24 and 32 bits (codes 2,
/// 5, 6, 7) as [`Error::UnsupportedSampleSize`].
pub proof fn lemma_reserved_header_codes(data: Seq<u8>, p: int, rate_p: int, default_bps: u8)
    ensures
        block_code_of(0) == Err::<BlocksizeCode, Error>(Error::InvalidField),
        field(data, p, 16) == Ok::<u32, Error>(0xFFFF) ==> blocksize_field(data, p, BlocksizeCode::Uncommon16)
            == Err::<(nat, int), Error>(Error::InvalidField),
        rate_field(data, rate_p, 15) == Err::<(SampleRate, int), Error>(Error::InvalidField),
        forall|c: u32| 11 <= c <= 15 ==> #[trigger] channels_of_code(c) == Err::<ChannelConfig, Error>(Error::InvalidField),
        forall|c: u32| 2 <= c <= 7 ==> #[trigger] channels_of_code(c) == Err::<ChannelConfig, Error>(Error::ProfileViolation),
        bps_of_code(3, default_bps) == Err::<u8, Error>(Error::InvalidField),
        forall|c: u32|
            c == 2 || c == 5 || c == 6 || c == 7 ==> #[trigger] bps_of_code(c, default_bps) == Err::<u8, Error>(
                Error::UnsupportedSampleSize,
            ),
{
}

} // verus!
