//! Subframe decoding: CONSTANT, VERBATIM, FIXED (orders 0–4), LPC (order ≤ 32).
//!
//! A subframe is one channel's worth of samples for one frame (RFC 9639
//! §9.2):
//!
//! ```text
//! [1 zero pad][6-bit type][wasted-bits field][warm-up samples][body]
//! ```
//!
//! The wasted-bits field precedes the warm-up samples, whose width is the
//! subframe's bits per sample: the frame's (plus one on a side channel)
//! minus the wasted bits. Warm-up samples live in the subframe itself — each
//! subframe is coded independently — and double as the block's first
//! `order` samples. FIXED and LPC then decode a residual and run it through
//! the predictor; prediction happens on the wasted-stripped scale, and the
//! whole block is multiplied by `2^wasted` once at the end.
//!
//! FIXED order `k` is the LPC recurrence with RFC Table 20's coefficients
//! (`[]`, `[1]`, `[2,-1]`, `[3,-3,1]`, `[4,-6,4,-1]`) and no shift, so one
//! model, [`reconstruct`], describes both. The prediction is computed
//! exactly (in a 128-bit accumulator) and each decoded sample is stored
//! as `i32`, truncating in two's complement; for every stream whose samples
//! fit `i32` that truncation never bites.
use vstd::prelude::*;
use vstd::arithmetic::power2::{pow2, lemma_pow2_pos, lemma2_to64, lemma_pow2_strictly_increases};

use crate::Error;
use crate::bits::{BitReader, field, signed_field, wasted_field, lemma_bits_bound};
use crate::residual::{
    residual, residual_stop, residual_read, splice, decode_residual, lemma_residual_read_len,
};

verus! {

/// Subframe type, from the leading pad bit and the 6-bit type code (RFC 9639
/// §9.2.1 Table 19).
#[derive(Clone, Copy, Debug, PartialEq, Eq, Structural)]
pub enum SubframeType {
    /// One constant value for the whole block (`0b000000`).
    Constant,
    /// Unencoded samples (`0b000001`).
    Verbatim,
    /// FIXED linear predictor, order 0..=4 (`0b001000..=0b001100`).
    Fixed(u8),
    /// LPC predictor, order 1..=32 (`0b100000..=0b111111`).
    Lpc {
        /// Predictor order (1..=32).
        order: u8,
    },
}

/// Table 19: the subframe type a 6-bit code stands for; the reserved ranges
/// are [`Error::InvalidField`].
pub open spec fn type_of_code(code: u32) -> Result<SubframeType, Error> {
    if code == 0 {
        Ok(SubframeType::Constant)
    } else if code == 1 {
        Ok(SubframeType::Verbatim)
    } else if 8 <= code <= 12 {
        Ok(SubframeType::Fixed((code - 8) as u8))
    } else if 32 <= code <= 63 {
        Ok(SubframeType::Lpc { order: (code - 31) as u8 })
    } else {
        Err(Error::InvalidField)
    }
}

/// The subframe-type field at bit `p`: a pad bit that must be zero, then the
/// 6-bit code. It occupies 7 bits.
pub open spec fn subframe_type(data: Seq<u8>, p: int) -> Result<SubframeType, Error> {
    match field(data, p, 1) {
        Err(e) => Err(e),
        Ok(pad) => if pad != 0 {
            Err(Error::InvalidField)
        } else {
            match field(data, p + 1, 6) {
                Err(e) => Err(e),
                Ok(code) => type_of_code(code),
            }
        },
    }
}

/// Where reading the subframe-type field at `p` leaves the cursor: on the
/// pad bit if it cannot be read, one bit on after a set pad bit or a code
/// that cannot be read, 7 bits on otherwise (reserved codes included).
pub open spec fn type_stop(data: Seq<u8>, p: int) -> int {
    match field(data, p, 1) {
        Err(_) => p,
        Ok(pad) => if pad != 0 {
            p + 1
        } else {
            match field(data, p + 1, 6) {
                Err(_) => p + 1,
                Ok(_) => p + 7,
            }
        },
    }
}

/// Predictor order of a subframe type (0 for CONSTANT and VERBATIM): how
/// many warm-up samples the body carries.
pub open spec fn order_of(t: SubframeType) -> nat {
    match t {
        SubframeType::Constant | SubframeType::Verbatim => 0,
        SubframeType::Fixed(o) => o as nat,
        SubframeType::Lpc { order } => order as nat,
    }
}

impl SubframeType {
    /// Read the subframe-type field: the pad bit, then the 6-bit type code.
    /// On success the cursor sits on the wasted-bits flag, 7 bits on; a set
    /// pad bit is [`Error::InvalidField`] with the cursor one bit in, a
    /// reserved code is [`Error::InvalidField`] with the cursor 7 bits on
    /// (see [`type_stop`]).
    pub fn parse(reader: &mut BitReader<'_>) -> (r: Result<Self, Error>)
        requires
            old(reader).wf(),
        ensures
            final(reader).wf(),
            final(reader).data() == old(reader).data(),
            r == subframe_type(old(reader).data(), old(reader).pos()),
            final(reader).pos() == type_stop(old(reader).data(), old(reader).pos()),
    {
        let ghost d = reader.data();
        let ghost p = reader.pos();
        if reader.read_bits(1)? != 0 {
            return Err(Error::InvalidField);
        }
        let code = reader.read_bits(6)?;
        proof {
            lemma_bits_bound(d, p + 1, 6);
            lemma2_to64();
        }
        match code {
            0b000000 => Ok(Self::Constant),
            0b000001 => Ok(Self::Verbatim),
            0b001000..=0b001100 => Ok(Self::Fixed((code - 8) as u8)),
            0b100000..=0b111111 => Ok(Self::Lpc { order: (code - 31) as u8 }),
            _ => Err(Error::InvalidField),
        }
    }

    /// Predictor order (0 for CONSTANT/VERBATIM).
    pub fn order(self) -> (r: usize)
        ensures
            r == order_of(self),
    {
        match self {
            Self::Constant | Self::Verbatim => 0,
            Self::Fixed(order) | Self::Lpc { order } => order as usize,
        }
    }
}

/// `count` consecutive two's-complement samples of `bits` bits each at bit
/// `p`, in stream order.
pub open spec fn signed_run(data: Seq<u8>, p: int, bits: nat, count: nat) -> Result<
    (Seq<i32>, int),
    Error,
>
    decreases count,
{
    if count == 0 {
        Ok((Seq::empty(), p))
    } else {
        match signed_run(data, p, bits, (count - 1) as nat) {
            Err(e) => Err(e),
            Ok((s, p1)) => match signed_field(data, p1, bits) {
                Err(e) => Err(e),
                Ok(v) => Ok((s.push(v), p1 + bits)),
            },
        }
    }
}

/// Once a run fails, every longer run fails the same way.
pub proof fn lemma_run_err(data: Seq<u8>, p: int, bits: nat, n: nat, m: nat)
    requires
        n <= m,
        signed_run(data, p, bits, n) is Err,
    ensures
        signed_run(data, p, bits, m) == signed_run(data, p, bits, n),
    decreases m - n,
{
    if n < m {
        lemma_run_err(data, p, bits, n, (m - 1) as nat);
    }
}

/// Where reading a run leaves the cursor: after the last sample on
/// success, otherwise at the start of the first sample that cannot be read
/// (each read either completes or leaves the cursor alone).
pub open spec fn run_stop(data: Seq<u8>, p: int, bits: nat, count: nat) -> int
    decreases count,
{
    if count == 0 {
        p
    } else {
        match signed_run(data, p, bits, (count - 1) as nat) {
            Err(_) => run_stop(data, p, bits, (count - 1) as nat),
            Ok((_, p1)) => match signed_field(data, p1, bits) {
                Err(_) => p1,
                Ok(_) => p1 + bits,
            },
        }
    }
}

/// A successful run stops where it ends.
pub proof fn lemma_run_stop_ok(data: Seq<u8>, p: int, bits: nat, count: nat)
    requires
        signed_run(data, p, bits, count) is Ok,
    ensures
        run_stop(data, p, bits, count) == signed_run(data, p, bits, count).unwrap().1,
{
}

/// Once a run fails, a longer run stops at the same place.
pub proof fn lemma_run_stop_err(data: Seq<u8>, p: int, bits: nat, n: nat, m: nat)
    requires
        n <= m,
        signed_run(data, p, bits, n) is Err,
    ensures
        run_stop(data, p, bits, m) == run_stop(data, p, bits, n),
    decreases m - n,
{
    if n < m {
        lemma_run_stop_err(data, p, bits, n, (m - 1) as nat);
        lemma_run_err(data, p, bits, n, (m - 1) as nat);
    }
}

/// The samples a run at `p` yields before it stops: all `count` on
/// success, otherwise those before the first that cannot be read.
pub open spec fn run_read(data: Seq<u8>, p: int, bits: nat, count: nat) -> Seq<i32>
    decreases count,
{
    if count == 0 {
        Seq::empty()
    } else {
        match signed_run(data, p, bits, (count - 1) as nat) {
            Err(_) => run_read(data, p, bits, (count - 1) as nat),
            Ok((s, p1)) => match signed_field(data, p1, bits) {
                Err(_) => s,
                Ok(v) => s.push(v),
            },
        }
    }
}

/// Once a run fails, a longer run yields the same samples.
pub proof fn lemma_run_read_err(data: Seq<u8>, p: int, bits: nat, n: nat, m: nat)
    requires
        n <= m,
        signed_run(data, p, bits, n) is Err,
    ensures
        run_read(data, p, bits, m) == run_read(data, p, bits, n),
    decreases m - n,
{
    if n < m {
        lemma_run_read_err(data, p, bits, n, (m - 1) as nat);
        lemma_run_err(data, p, bits, n, (m - 1) as nat);
    }
}

/// A run yields at most the samples asked for.
pub proof fn lemma_run_read_len(data: Seq<u8>, p: int, bits: nat, n: nat)
    ensures
        run_read(data, p, bits, n).len() <= n,
    decreases n,
{
    if n > 0 {
        lemma_run_read_len(data, p, bits, (n - 1) as nat);
        if signed_run(data, p, bits, (n - 1) as nat) is Ok {
            lemma_run_ok(data, p, bits, (n - 1) as nat);
        }
    }
}

/// A successful run has `count` samples and ends `count * bits` bits on.
pub proof fn lemma_run_ok(data: Seq<u8>, p: int, bits: nat, count: nat)
    requires
        signed_run(data, p, bits, count) is Ok,
    ensures
        signed_run(data, p, bits, count).unwrap().0.len() == count,
    decreases count,
{
    if count > 0 {
        lemma_run_ok(data, p, bits, (count - 1) as nat);
    }
}

/// Per-subframe warm-up scratch: the `len` unencoded samples a subframe
/// header carries, stored most recent first (`warm_up[j]` is the sample
/// `j + 1` places before the first predicted one). Only the first `len`
/// entries are meaningful; the buffer is reused from subframe to subframe
/// and is never history across frames.
#[derive(Clone, Copy, Debug, Default)]
pub struct PredictorState {
    /// Warm-up samples, most recent first.
    pub warm_up: [i32; 32],
    /// Number of valid entries in `warm_up` (the subframe's predictor order).
    pub len: usize,
}

/// The first `order` warm-up samples of a state, oldest first (stream order).
pub open spec fn warm_seq(state: PredictorState, order: nat) -> Seq<i32> {
    Seq::new(order, |i: int| state.warm_up@[order - 1 - i])
}

impl PredictorState {
    /// An empty scratch (valid for any order-0 subframe).
    pub fn new() -> (r: Self)
        ensures
            r.len == 0,
            r.warm_up@ == Seq::new(32, |i: int| 0i32),
    {
        let r = Self { warm_up: [0i32; 32], len: 0 };
        assert(r.warm_up@ =~= Seq::new(32, |i: int| 0i32));
        r
    }

    /// Read a subframe's `order` warm-up samples (`subframe_bits` wide, two's
    /// complement, oldest first in the stream), multiply each by
    /// `2^wasted`, and store them most recent first; the other slots become
    /// zero.
    ///
    /// `order > 32` is [`Error::UnsupportedPredictorOrder`] and `wasted >= 32`
    /// is [`Error::InvalidField`], both before any read. The state is only
    /// written on success; on a stream error the cursor stays where the
    /// failing read left it, at the start of the first sample that cannot
    /// be read ([`run_stop`]).
    pub fn fill(
        &mut self,
        reader: &mut BitReader<'_>,
        order: usize,
        subframe_bits: u8,
        wasted: u32,
    ) -> (r: Result<(), Error>)
        requires
            old(reader).wf(),
        ensures
            final(reader).wf(),
            final(reader).data() == old(reader).data(),
            order > 32 ==> r == Err::<(), Error>(Error::UnsupportedPredictorOrder) && final(reader).pos()
                == old(reader).pos() && *final(self) == *old(self),
            order <= 32 && wasted >= 32 ==> r == Err::<(), Error>(Error::InvalidField)
                && final(reader).pos() == old(reader).pos() && *final(self) == *old(self),
            order <= 32 && wasted < 32 ==> final(reader).pos() == run_stop(
                old(reader).data(),
                old(reader).pos(),
                subframe_bits as nat,
                order as nat,
            ),
            order <= 32 && wasted < 32 ==> match signed_run(
                old(reader).data(),
                old(reader).pos(),
                subframe_bits as nat,
                order as nat,
            ) {
                Ok((s, end)) => r is Ok && final(reader).pos() == end && final(self).len == order
                    && final(self).warm_up@ == Seq::new(
                    32,
                    |m: int|
                        if m < order {
                            ((s[order - 1 - m] as int) * pow2(wasted as nat)) as i32
                        } else {
                            0i32
                        },
                ),
                Err(e) => r == Err::<(), Error>(e) && *final(self) == *old(self),
            },
    {
        if order > 32 {
            return Err(Error::UnsupportedPredictorOrder);
        }
        if wasted >= 32 {
            return Err(Error::InvalidField);
        }
        let ghost d = reader.data();
        let ghost p0 = reader.pos();
        let ghost target = |s: Seq<i32>, k: int|
            Seq::new(
                32,
                |m: int|
                    if order - k <= m < order {
                        ((s[order - 1 - m] as int) * pow2(wasted as nat)) as i32
                    } else {
                        0i32
                    },
            );
        proof {
            vstd::bits::lemma_u64_pow2_no_overflow(wasted as nat);
            vstd::bits::lemma_u64_shl_is_mul(1, wasted as u64);
            lemma_pow2_pos(wasted as nat);
            lemma2_to64();
            if wasted < 31 {
                lemma_pow2_strictly_increases(wasted as nat, 31);
            }
        }
        let scale = (1u64 << wasted) as i64;
        let mut warm = [0i32; 32];
        let mut k: usize = 0;
        proof {
            assert(warm@ =~= target(Seq::<i32>::empty(), 0));
        }
        while k < order
            invariant
                reader.wf(),
                reader.data() == d,
                d == old(reader).data(),
                p0 == old(reader).pos(),
                order <= 32,
                wasted < 32,
                scale == pow2(wasted as nat),
                pow2(wasted as nat) <= pow2(31),
                pow2(wasted as nat) > 0,
                pow2(31) == 0x8000_0000,
                k <= order,
                signed_run(d, p0, subframe_bits as nat, k as nat) is Ok,
                signed_run(d, p0, subframe_bits as nat, k as nat).unwrap().1 == reader.pos(),
                run_stop(d, p0, subframe_bits as nat, k as nat) == reader.pos(),
                warm@ == Seq::new(
                    32,
                    |m: int|
                        if order - k <= m < order {
                            ((signed_run(d, p0, subframe_bits as nat, k as nat).unwrap().0[order - 1
                                - m] as int) * pow2(wasted as nat)) as i32
                        } else {
                            0i32
                        },
                ),
            decreases order - k,
        {
            let ghost prev = signed_run(d, p0, subframe_bits as nat, k as nat).unwrap().0;
            proof {
                lemma_run_ok(d, p0, subframe_bits as nat, k as nat);
            }
            let v = match reader.read_signed(subframe_bits as u32) {
                Ok(v) => v,
                Err(e) => {
                    proof {
                        lemma_run_err(d, p0, subframe_bits as nat, (k + 1) as nat, order as nat);
                        lemma_run_stop_err(d, p0, subframe_bits as nat, (k + 1) as nat, order as nat);
                    }
                    return Err(e);
                },
            };
            let ghost next = prev.push(v);
            assert(signed_run(d, p0, subframe_bits as nat, (k + 1) as nat).unwrap().0 == next);
            let slot = order - 1 - k;
            assert((v as int) * pow2(wasted as nat) <= 0x8000_0000 * 0x8000_0000 && (v as int) * pow2(
                wasted as nat,
            ) >= -0x8000_0000 * 0x8000_0000) by (nonlinear_arith)
                requires
                    -0x8000_0000 <= v < 0x8000_0000,
                    0 < pow2(wasted as nat) <= 0x8000_0000,
            ;
            let scaled = (v as i64) * scale;
            warm[slot] = scaled as i32;
            proof {
                assert forall|m: int| 0 <= m < 32 implies #[trigger] warm@[m] == (if order - (k + 1)
                    <= m < order {
                    ((next[order - 1 - m] as int) * pow2(wasted as nat)) as i32
                } else {
                    0i32
                }) by {
                    if m == slot {
                        assert(order - 1 - m == k);
                    } else if order - k <= m < order {
                        assert(next[order - 1 - m] == prev[order - 1 - m]);
                    }
                }
                assert(warm@ =~= Seq::new(
                    32,
                    |m: int|
                        if order - (k + 1) <= m < order {
                            ((next[order - 1 - m] as int) * pow2(wasted as nat)) as i32
                        } else {
                            0i32
                        },
                ));
            }
            k += 1;
        }
        self.warm_up = warm;
        self.len = order;
        proof {
            let s = signed_run(d, p0, subframe_bits as nat, order as nat).unwrap().0;
            assert(final(self).warm_up@ =~= Seq::new(
                32,
                |m: int|
                    if m < order {
                        ((s[order - 1 - m] as int) * pow2(wasted as nat)) as i32
                    } else {
                        0i32
                    },
            ));
        }
        Ok(())
    }
}


/// `Σ_{j<m} c[j] * hist[len - 1 - j]`: the first `m` coefficients applied to
/// the most recent history entries (`hist` is oldest first, so `c[0]` meets
/// the newest sample).
pub open spec fn dot_recent(c: Seq<i32>, hist: Seq<i32>, m: nat) -> int
    decreases m,
{
    if m == 0 {
        0
    } else {
        dot_recent(c, hist, (m - 1) as nat) + (c[m - 1] as int) * (hist[hist.len() - m] as int)
    }
}

/// The prediction for the sample after `hist`: the coefficient dot product,
/// divided by `2^shift` rounding toward negative infinity (an arithmetic
/// right shift).
pub open spec fn predicted(c: Seq<i32>, shift: nat, hist: Seq<i32>) -> int {
    dot_recent(c, hist, c.len()) / (pow2(shift) as int)
}

/// Linear-prediction reconstruction (§9.2.5, §9.2.6): each decoded sample is
/// the prediction from everything before it (the warm-up, oldest first, then
/// the samples already decoded) plus its residual, stored as `i32`
/// (two's-complement truncation).
pub open spec fn reconstruct(c: Seq<i32>, shift: nat, warm: Seq<i32>, res: Seq<i32>) -> Seq<i32>
    decreases res.len(),
{
    if res.len() == 0 {
        Seq::empty()
    } else {
        let prev = reconstruct(c, shift, warm, res.drop_last());
        prev.push((predicted(c, shift, warm + prev) + res.last()) as i32)
    }
}

/// RFC 9639 Table 20: the FIXED predictor coefficients of each order, most
/// recent past first.
pub open spec fn fixed_coeffs(order: nat) -> Seq<i32> {
    if order == 0 {
        Seq::empty()
    } else if order == 1 {
        seq![1i32]
    } else if order == 2 {
        seq![2i32, -1i32]
    } else if order == 3 {
        seq![3i32, -3i32, 1i32]
    } else {
        seq![4i32, -6i32, 4i32, -1i32]
    }
}

/// The sample `k` places before the end of `hist` (`hist` is oldest first).
pub open spec fn back(hist: Seq<i32>, k: int) -> int {
    hist[hist.len() - k] as int
}

/// RFC 9639 Table 20 written out: the FIXED prediction of each order from
/// the history `hist` (oldest first), `0`, `h1`, `2h1 - h2`,
/// `3h1 - 3h2 + h3`, `4h1 - 6h2 + 4h3 - h4`, where `hk` is the sample `k`
/// places back.
pub open spec fn fixed_prediction(order: nat, hist: Seq<i32>) -> int {
    if order == 0 {
        0
    } else if order == 1 {
        back(hist, 1)
    } else if order == 2 {
        2 * back(hist, 1) - back(hist, 2)
    } else if order == 3 {
        3 * back(hist, 1) - 3 * back(hist, 2) + back(hist, 3)
    } else {
        4 * back(hist, 1) - 6 * back(hist, 2) + 4 * back(hist, 3) - back(hist, 4)
    }
}

/// One FIXED sample against Table 20.
proof fn lemma_fixed_sample(order: nat, warm: Seq<i32>, res: Seq<i32>, i: int)
    requires
        order <= 4,
        warm.len() == order,
        0 <= i < res.len(),
    ensures
        reconstruct(fixed_coeffs(order), 0, warm, res).len() == res.len(),
        reconstruct(fixed_coeffs(order), 0, warm, res)[i] == (res[i] + fixed_prediction(
            order,
            warm + reconstruct(fixed_coeffs(order), 0, warm, res).take(i),
        )) as i32,
{
    let c = fixed_coeffs(order);
    let out = reconstruct(c, 0, warm, res);
    lemma_reconstruct_len(c, 0, warm, res);
    lemma_reconstruct_prefix(c, 0, warm, res, i + 1);
    lemma_reconstruct_prefix(c, 0, warm, res, i);
    let r1 = res.take(i + 1);
    assert(r1.drop_last() =~= res.take(i));
    let hist = warm + out.take(i);
    assert(out.take(i + 1)[i] == out[i]);
    assert(reconstruct(c, 0, warm, r1)[i] == (predicted(c, 0, hist) + res[i]) as i32);
    assert(pow2(0) == 1) by {
        lemma2_to64();
    }
    let x = dot_recent(c, hist, c.len());
    assert(x / 1 == x) by (nonlinear_arith);
    assert(predicted(c, 0, hist) == x);
    lemma_dot_steps(c, hist);
    let h1 = back(hist, 1);
    let h2 = back(hist, 2);
    let h3 = back(hist, 3);
    let h4 = back(hist, 4);
    if order == 0 {
        assert(c.len() == 0);
        assert(x == 0);
    } else if order == 1 {
        assert(c.len() == 1 && c[0] == 1);
        let c0 = c[0] as int;
        assert(x == c0 * h1);
        assert(x == h1) by (nonlinear_arith)
            requires
                x == c0 * h1,
                c0 == 1,
        ;
    } else if order == 2 {
        assert(c.len() == 2 && c[0] == 2 && c[1] == -1);
        let (c0, c1) = (c[0] as int, c[1] as int);
        assert(x == c0 * h1 + c1 * h2);
        assert(x == 2 * h1 - h2) by (nonlinear_arith)
            requires
                x == c0 * h1 + c1 * h2,
                c0 == 2,
                c1 == -1,
        ;
    } else if order == 3 {
        assert(c.len() == 3 && c[0] == 3 && c[1] == -3 && c[2] == 1);
        let (c0, c1, c2) = (c[0] as int, c[1] as int, c[2] as int);
        assert(x == c0 * h1 + c1 * h2 + c2 * h3);
        assert(x == 3 * h1 - 3 * h2 + h3) by (nonlinear_arith)
            requires
                x == c0 * h1 + c1 * h2 + c2 * h3,
                c0 == 3,
                c1 == -3,
                c2 == 1,
        ;
    } else {
        assert(c.len() == 4 && c[0] == 4 && c[1] == -6 && c[2] == 4 && c[3] == -1);
        let (c0, c1, c2, c3) = (c[0] as int, c[1] as int, c[2] as int, c[3] as int);
        assert(x == c0 * h1 + c1 * h2 + c2 * h3 + c3 * h4);
        assert(x == 4 * h1 - 6 * h2 + 4 * h3 - h4) by (nonlinear_arith)
            requires
                x == c0 * h1 + c1 * h2 + c2 * h3 + c3 * h4,
                c0 == 4,
                c1 == -6,
                c2 == 4,
                c3 == -1,
        ;
    }
    assert(x == fixed_prediction(order, hist));
}

/// The first four steps of a dot product, unrolled.
proof fn lemma_dot_steps(c: Seq<i32>, hist: Seq<i32>)
    ensures
        dot_recent(c, hist, 0) == 0,
        dot_recent(c, hist, 1) == (c[0] as int) * back(hist, 1),
        dot_recent(c, hist, 2) == (c[0] as int) * back(hist, 1) + (c[1] as int) * back(hist, 2),
        dot_recent(c, hist, 3) == (c[0] as int) * back(hist, 1) + (c[1] as int) * back(hist, 2) + (
        c[2] as int) * back(hist, 3),
        dot_recent(c, hist, 4) == (c[0] as int) * back(hist, 1) + (c[1] as int) * back(hist, 2) + (
        c[2] as int) * back(hist, 3) + (c[3] as int) * back(hist, 4),
{
    reveal_with_fuel(dot_recent, 5);
}

/// FIXED reconstruction follows Table 20: with the `order` warm-up samples
/// (oldest first) in front, each decoded sample is its residual plus the
/// Table 20 polynomial of the samples just before it (warm-up samples for
/// the first `order` of them), stored as `i32`. Order 0 gives the residual
/// back unchanged.
pub proof fn lemma_fixed_table20(order: nat, warm: Seq<i32>, res: Seq<i32>)
    requires
        order <= 4,
        warm.len() == order,
    ensures
        reconstruct(fixed_coeffs(order), 0, warm, res).len() == res.len(),
        forall|i: int|
            0 <= i < res.len() ==> #[trigger] reconstruct(fixed_coeffs(order), 0, warm, res)[i] == (
            res[i] + fixed_prediction(order, warm + reconstruct(fixed_coeffs(order), 0, warm, res).take(i)))
                as i32,
        order == 0 ==> reconstruct(fixed_coeffs(order), 0, warm, res) == res,
{
    let out = reconstruct(fixed_coeffs(order), 0, warm, res);
    lemma_reconstruct_len(fixed_coeffs(order), 0, warm, res);
    assert forall|i: int| 0 <= i < res.len() implies #[trigger] out[i] == (res[i] + fixed_prediction(
        order,
        warm + out.take(i),
    )) as i32 by {
        lemma_fixed_sample(order, warm, res, i);
    }
    if order == 0 {
        assert(out =~= res);
    }
}

/// `Σ_{j ≥ k} c[j] * hist[len - 1 - j]`, summed from tap `k` up to the
/// last: coefficient `j` meets the sample `j + 1` places back.
pub open spec fn taps_from(c: Seq<i32>, hist: Seq<i32>, k: nat) -> int
    decreases c.len() - k,
{
    if k >= c.len() {
        0
    } else {
        (c[k as int] as int) * (hist[hist.len() - 1 - k] as int) + taps_from(c, hist, k + 1)
    }
}

/// The first `m` taps and the taps from `m` on make up the whole sum.
proof fn lemma_taps_split(c: Seq<i32>, hist: Seq<i32>, m: nat)
    requires
        m <= c.len(),
    ensures
        dot_recent(c, hist, m) + taps_from(c, hist, m) == taps_from(c, hist, 0),
    decreases m,
{
    if m > 0 {
        lemma_taps_split(c, hist, (m - 1) as nat);
    }
}

/// One LPC sample against the full tap sum.
proof fn lemma_lpc_sample(c: Seq<i32>, shift: nat, warm: Seq<i32>, res: Seq<i32>, i: int)
    requires
        0 <= i < res.len(),
    ensures
        reconstruct(c, shift, warm, res).len() == res.len(),
        reconstruct(c, shift, warm, res)[i] == (res[i] + taps_from(
            c,
            warm + reconstruct(c, shift, warm, res).take(i),
            0,
        ) / (pow2(shift) as int)) as i32,
{
    let out = reconstruct(c, shift, warm, res);
    lemma_reconstruct_len(c, shift, warm, res);
    lemma_reconstruct_prefix(c, shift, warm, res, i + 1);
    lemma_reconstruct_prefix(c, shift, warm, res, i);
    let r1 = res.take(i + 1);
    assert(r1.drop_last() =~= res.take(i));
    let hist = warm + out.take(i);
    assert(out.take(i + 1)[i] == out[i]);
    assert(reconstruct(c, shift, warm, r1)[i] == (predicted(c, shift, hist) + res[i]) as i32);
    lemma_taps_split(c, hist, c.len());
    assert(taps_from(c, hist, c.len()) == 0);
}

/// LPC reconstruction (§9.2.6), for every order and shift: each decoded
/// sample is its residual plus the sum over all coefficients `j` of
/// `coeff[j]` times the sample `j + 1` places back (warm-up samples before
/// the first decoded one), divided by `2^shift` rounding toward negative
/// infinity, stored as `i32`.
pub proof fn lemma_lpc_taps(c: Seq<i32>, shift: nat, warm: Seq<i32>, res: Seq<i32>)
    ensures
        reconstruct(c, shift, warm, res).len() == res.len(),
        forall|i: int|
            0 <= i < res.len() ==> #[trigger] reconstruct(c, shift, warm, res)[i] == (res[i] + taps_from(
                c,
                warm + reconstruct(c, shift, warm, res).take(i),
                0,
            ) / (pow2(shift) as int)) as i32,
{
    lemma_reconstruct_len(c, shift, warm, res);
    assert forall|i: int| 0 <= i < res.len() implies #[trigger] reconstruct(c, shift, warm, res)[i] == (
    res[i] + taps_from(c, warm + reconstruct(c, shift, warm, res).take(i), 0) / (pow2(shift) as int)) as i32 by {
        lemma_lpc_sample(c, shift, warm, res, i);
    }
}

/// Reconstruction decodes exactly one sample per residual.
pub proof fn lemma_reconstruct_len(c: Seq<i32>, shift: nat, warm: Seq<i32>, res: Seq<i32>)
    ensures
        reconstruct(c, shift, warm, res).len() == res.len(),
    decreases res.len(),
{
    if res.len() > 0 {
        lemma_reconstruct_len(c, shift, warm, res.drop_last());
    }
}

/// Each decoded sample depends only on the residuals up to it: decoding a
/// prefix of the residual gives the same prefix of the block. (This is what
/// makes decoding in place, over the residual buffer, correct.)
pub proof fn lemma_reconstruct_prefix(c: Seq<i32>, shift: nat, warm: Seq<i32>, res: Seq<i32>, i: int)
    requires
        0 <= i <= res.len(),
    ensures
        reconstruct(c, shift, warm, res).take(i) == reconstruct(c, shift, warm, res.take(i)),
    decreases res.len(),
{
    lemma_reconstruct_len(c, shift, warm, res);
    if i == res.len() {
        assert(res.take(i) =~= res);
        assert(reconstruct(c, shift, warm, res).take(i) =~= reconstruct(c, shift, warm, res));
    } else {
        let prev = res.drop_last();
        lemma_reconstruct_len(c, shift, warm, prev);
        lemma_reconstruct_prefix(c, shift, warm, prev, i);
        assert(prev.take(i) =~= res.take(i));
        assert(reconstruct(c, shift, warm, res).take(i) =~= reconstruct(c, shift, warm, prev).take(i));
    }
}

/// Reconstruction inverts prediction: if each residual is its sample minus
/// the prediction from the warm-up and the samples before it (what an
/// encoder stores), decoding the residuals gives back the samples.
pub proof fn lemma_reconstruct_inverts_prediction(
    c: Seq<i32>,
    shift: nat,
    warm: Seq<i32>,
    s: Seq<i32>,
    res: Seq<i32>,
)
    requires
        res.len() == s.len(),
        forall|i: int|
            0 <= i < s.len() ==> #[trigger] res[i] == s[i] - predicted(c, shift, warm + s.take(i)),
    ensures
        reconstruct(c, shift, warm, res) == s,
    decreases s.len(),
{
    if s.len() > 0 {
        let n = s.len() - 1;
        let s0 = s.drop_last();
        let r0 = res.drop_last();
        assert forall|i: int| 0 <= i < s0.len() implies #[trigger] r0[i] == s0[i] - predicted(
            c,
            shift,
            warm + s0.take(i),
        ) by {
            assert(s0.take(i) =~= s.take(i));
            assert(res[i] == s[i] - predicted(c, shift, warm + s.take(i)));
        }
        lemma_reconstruct_inverts_prediction(c, shift, warm, s0, r0);
        assert(s.take(n) =~= s0);
        assert(res[n] == s[n] - predicted(c, shift, warm + s.take(n)));
        assert(reconstruct(c, shift, warm, res) =~= s0.push(s[n]));
        assert(s0.push(s[n]) =~= s);
    } else {
        assert(s =~= Seq::<i32>::empty());
    }
}

/// Flooring division of a negative numerator, by way of its magnitude.
proof fn lemma_floor_div_neg(m: int, d: int)
    requires
        m > 0,
        d > 0,
    ensures
        (-m) / d == -((m + d - 1) / d),
{
    let x = m + d - 1;
    let q = x / d;
    let r = x % d;
    vstd::arithmetic::div_mod::lemma_fundamental_div_mod(x, d);
    vstd::arithmetic::div_mod::lemma_mod_pos_bound(x, d);
    assert(-m == (-q) * d + (d - 1 - r)) by (nonlinear_arith)
        requires
            x == d * q + r,
            x == m + d - 1,
    ;
    vstd::arithmetic::div_mod::lemma_fundamental_div_mod_converse(-m, d, -q, d - 1 - r);
}

/// `acc / 2^shift`, rounded toward negative infinity.
fn floor_shift(acc: i128, shift: u32) -> (q: i128)
    requires
        shift < 64,
        -0x1_0000_0000_0000_0000_0000 <= acc <= 0x1_0000_0000_0000_0000_0000,
    ensures
        q == (acc as int) / (pow2(shift as nat) as int),
        -0x2_0000_0000_0000_0000_0000 <= q <= 0x2_0000_0000_0000_0000_0000,
{
    proof {
        vstd::bits::lemma_u64_pow2_no_overflow(shift as nat);
        vstd::bits::lemma_u64_shl_is_mul(1, shift as u64);
        lemma_pow2_pos(shift as nat);
    }
    let d = (1u64 << shift) as u128;
    assert(d == pow2(shift as nat));
    if acc >= 0 {
        let m = acc as u128;
        let q = m / d;
        proof {
            vstd::arithmetic::div_mod::lemma_div_is_ordered_by_denominator(m as int, 1, d as int);
        }
        q as i128
    } else {
        let m = (-acc) as u128;
        let q = (m + d - 1) / d;
        proof {
            lemma_floor_div_neg(m as int, d as int);
            vstd::arithmetic::div_mod::lemma_div_is_ordered_by_denominator((m + d - 1) as int, 1, d as int);
            vstd::arithmetic::div_mod::lemma_div_is_ordered((m as int), (m + d - 1) as int, d as int);
        }
        -(q as i128)
    }
}

/// Run the prediction recurrence over `out` in place: on entry `out` holds
/// residuals, on exit the decoded samples.
fn predict_in_place(coeffs: &[i32], shift: u32, warm: &PredictorState, out: &mut [i32])
    requires
        coeffs@.len() <= 32,
        shift < 64,
    ensures
        final(out)@ == reconstruct(coeffs@, shift as nat, warm_seq(*warm, coeffs@.len()), old(out)@),
{
    let ghost c = coeffs@;
    let ghost res = old(out)@;
    let order = coeffs.len();
    let ghost ws = warm_seq(*warm, order as nat);
    let n = out.len();
    let mut i: usize = 0;
    proof {
        assert(res.take(0) =~= Seq::<i32>::empty());
        assert(out@.subrange(0, 0) =~= Seq::<i32>::empty());
    }
    while i < n
        invariant
            c == coeffs@,
            order == c.len(),
            order <= 32,
            shift < 64,
            ws == warm_seq(*warm, order as nat),
            res == old(out)@,
            n == res.len(),
            out@.len() == n,
            i <= n,
            out@.subrange(0, i as int) == reconstruct(c, shift as nat, ws, res.take(i as int)),
            forall|k: int| i <= k < n ==> out@[k] == res[k],
        decreases n - i,
    {
        let ghost prefix = out@.subrange(0, i as int);
        let ghost hist = ws + prefix;
        let mut acc: i128 = 0;
        let mut j: usize = 0;
        while j < order
            invariant
                c == coeffs@,
                order == c.len(),
                order <= 32,
                ws == warm_seq(*warm, order as nat),
                i < n,
                out@.len() == n,
                prefix == out@.subrange(0, i as int),
                hist == ws + prefix,
                j <= order,
                acc == dot_recent(c, hist, j as nat),
                -(j as int) * 0x4000_0000_0000_0000 <= acc <= (j as int) * 0x4000_0000_0000_0000,
            decreases order - j,
        {
            let past: i32 = if j < i {
                out[i - 1 - j]
            } else {
                warm.warm_up[j - i]
            };
            assert(past == hist[hist.len() - (j + 1)]);
            let cj = coeffs[j];
            assert((cj as int) * (past as int) <= 0x4000_0000_0000_0000 && (cj as int) * (past as int)
                >= -0x4000_0000_0000_0000) by (nonlinear_arith)
                requires
                    -0x8000_0000 <= cj < 0x8000_0000,
                    -0x8000_0000 <= past < 0x8000_0000,
            ;
            acc = acc + (cj as i128) * (past as i128);
            j += 1;
        }
        let q = floor_shift(acc, shift);
        let r = out[i];
        let v = (q + r as i128) as i32;
        out[i] = v;
        proof {
            let t = res.take(i + 1);
            assert(t.drop_last() =~= res.take(i as int));
            assert(t.last() == r);
            assert(out@.subrange(0, i + 1) =~= prefix.push(v));
        }
        i += 1;
    }
    proof {
        assert(res.take(n as int) =~= res);
        assert(out@.subrange(0, n as int) =~= out@);
    }
}

/// Integrate a residual through the FIXED predictor of the given order, in
/// place: on success `residual` holds the decoded samples, the LPC
/// recurrence with Table 20's coefficients and no shift, seeded by the
/// state's first `order` warm-up samples.
///
/// `order > 4` is [`Error::UnsupportedPredictorOrder`], and a state holding
/// fewer than `order` warm-up samples is [`Error::InvalidField`]; both
/// write nothing.
pub fn integrate_fixed(order: u8, warm_up: &PredictorState, residual: &mut [i32]) -> (r: Result<
    (),
    Error,
>)
    ensures
        order > 4 ==> r == Err::<(), Error>(Error::UnsupportedPredictorOrder) && final(residual)@
            == old(residual)@,
        order <= 4 && warm_up.len < order ==> r == Err::<(), Error>(Error::InvalidField)
            && final(residual)@ == old(residual)@,
        order <= 4 && warm_up.len >= order ==> r is Ok && final(residual)@ == reconstruct(
            fixed_coeffs(order as nat),
            0,
            warm_seq(*warm_up, order as nat),
            old(residual)@,
        ),
{
    if order > 4 {
        return Err(Error::UnsupportedPredictorOrder);
    }
    if warm_up.len < order as usize {
        return Err(Error::InvalidField);
    }
    let table: [i32; 4] = if order == 1 {
        [1, 0, 0, 0]
    } else if order == 2 {
        [2, -1, 0, 0]
    } else if order == 3 {
        [3, -3, 1, 0]
    } else {
        [4, -6, 4, -1]
    };
    let coeffs = &table[0..order as usize];
    assert(coeffs@ =~= fixed_coeffs(order as nat));
    predict_in_place(coeffs, 0, warm_up, residual);
    Ok(())
}

/// Integrate a residual through LPC coefficients (§9.2.6), in place:
/// `sample[i] = (Σ coeff[j] * sample[i-1-j] >> shift) + residual[i]`, where
/// the samples before the first are the state's warm-up (most recent first,
/// the coefficients' own order) and the shift rounds toward negative
/// infinity.
///
/// Rejections, in this order and all before any write: a negative `shift`
/// is [`Error::InvalidField`]; more than 32 coefficients is
/// [`Error::UnsupportedPredictorOrder`]; a state holding fewer warm-up
/// samples than coefficients, or a shift of 64 or more, is
/// [`Error::InvalidField`].
pub fn integrate_lpc(
    coefficients: &[i32],
    shift: i8,
    warm_up: &PredictorState,
    residual: &mut [i32],
) -> (r: Result<(), Error>)
    ensures
        shift < 0 ==> r == Err::<(), Error>(Error::InvalidField) && final(residual)@ == old(
            residual,
        )@,
        shift >= 0 && coefficients@.len() > 32 ==> r == Err::<(), Error>(
            Error::UnsupportedPredictorOrder,
        ) && final(residual)@ == old(residual)@,
        shift >= 0 && coefficients@.len() <= 32 && (warm_up.len < coefficients@.len() || shift
            >= 64) ==> r == Err::<(), Error>(Error::InvalidField) && final(residual)@ == old(
            residual,
        )@,
        shift >= 0 && shift < 64 && coefficients@.len() <= 32 && warm_up.len
            >= coefficients@.len() ==> r is Ok && final(residual)@ == reconstruct(
            coefficients@,
            shift as nat,
            warm_seq(*warm_up, coefficients@.len()),
            old(residual)@,
        ),
{
    if shift < 0 {
        return Err(Error::InvalidField);
    }
    let order = coefficients.len();
    if order > 32 {
        return Err(Error::UnsupportedPredictorOrder);
    }
    if warm_up.len < order {
        return Err(Error::InvalidField);
    }
    let shift = shift as u32;
    if shift >= 64 {
        return Err(Error::InvalidField);
    }
    predict_in_place(coefficients, shift, warm_up, residual);
    Ok(())
}


/// The two §9.2.6 LPC fields after the warm-up, at bit `p`: `u(4)`
/// precision minus one (`0b1111` is forbidden) and `s(5)` shift (must not
/// be negative). Yields the precision and the shift.
pub open spec fn lpc_fields(data: Seq<u8>, p: int) -> Result<(nat, nat), Error> {
    match field(data, p, 4) {
        Err(e) => Err(e),
        Ok(pm1) => if pm1 == 15 {
            Err(Error::InvalidField)
        } else {
            match signed_field(data, p + 4, 5) {
                Err(e) => Err(e),
                Ok(shift) => if shift < 0 {
                    Err(Error::InvalidField)
                } else {
                    Ok(((pm1 + 1) as nat, shift as nat))
                },
            }
        },
    }
}

/// Where reading the LPC fields at `p` leaves the cursor: each field is
/// read whole or not at all, and a forbidden value is judged after its
/// field is read.
pub open spec fn lpc_fields_stop(data: Seq<u8>, p: int) -> int {
    match field(data, p, 4) {
        Err(_) => p,
        Ok(pm1) => if pm1 == 15 {
            p + 4
        } else {
            match signed_field(data, p + 4, 5) {
                Err(_) => p + 4,
                Ok(_) => p + 9,
            }
        },
    }
}

/// The rest of an LPC body at bit `p`, after its two fields: `order`
/// coefficients of `precision` bits, most recent past first, then the
/// residual. Yields the whole block (warm-up first) and the end position.
pub open spec fn lpc_rest(
    data: Seq<u8>,
    p: int,
    blocksize: nat,
    order: nat,
    precision: nat,
    shift: nat,
    warm: Seq<i32>,
) -> Result<(Seq<i32>, int), Error> {
    match signed_run(data, p, precision, order) {
        Err(e) => Err(e),
        Ok((cs, p5)) => match residual(data, p5, blocksize, order) {
            Err(e) => Err(e),
            Ok((res, end)) => Ok((warm + reconstruct(cs, shift, warm, res), end)),
        },
    }
}

/// §9.2.6 LPC body at bit `p`, after the warm-up: the two fields, then the
/// coefficients and the residual.
pub open spec fn lpc_body(data: Seq<u8>, p: int, blocksize: nat, order: nat, warm: Seq<i32>) -> Result<
    (Seq<i32>, int),
    Error,
> {
    match lpc_fields(data, p) {
        Err(e) => Err(e),
        Ok((precision, shift)) => lpc_rest(data, p + 9, blocksize, order, precision, shift, warm),
    }
}

/// Where reading an LPC body's coefficients and residual at `p` leaves the
/// cursor.
pub open spec fn lpc_rest_stop(data: Seq<u8>, p: int, blocksize: nat, order: nat, precision: nat) -> int {
    match signed_run(data, p, precision, order) {
        Err(_) => run_stop(data, p, precision, order),
        Ok((_, p5)) => residual_stop(data, p5, blocksize, order),
    }
}

/// Where reading a body of type `kind` at `p` leaves the cursor when it
/// fails: at the constant sample that cannot be read, at the first
/// unreadable verbatim sample, where the residual stops, or where the LPC
/// fields or coefficients stop.
pub open spec fn body_stop(data: Seq<u8>, p: int, kind: SubframeType, blocksize: nat, sub_bits: nat) -> int {
    match kind {
        SubframeType::Constant => match signed_field(data, p, sub_bits) {
            Err(_) => p,
            Ok(_) => p + sub_bits,
        },
        SubframeType::Verbatim => run_stop(data, p, sub_bits, blocksize),
        SubframeType::Fixed(o) => residual_stop(data, p, blocksize, o as nat),
        SubframeType::Lpc { order } => match lpc_fields(data, p) {
            Err(_) => lpc_fields_stop(data, p),
            Ok((precision, _)) => lpc_rest_stop(data, p + 9, blocksize, order as nat, precision),
        },
    }
}

/// The body of a subframe of type `kind` at bit `p` (after the warm-up),
/// on the wasted-stripped scale: the whole block and the end position.
pub open spec fn subframe_body(
    data: Seq<u8>,
    p: int,
    kind: SubframeType,
    blocksize: nat,
    sub_bits: nat,
    warm: Seq<i32>,
) -> Result<(Seq<i32>, int), Error> {
    match kind {
        SubframeType::Constant => match signed_field(data, p, sub_bits) {
            Err(e) => Err(e),
            Ok(v) => Ok((Seq::new(blocksize, |i: int| v), p + sub_bits)),
        },
        SubframeType::Verbatim => signed_run(data, p, sub_bits, blocksize),
        SubframeType::Fixed(o) => match residual(data, p, blocksize, o as nat) {
            Err(e) => Err(e),
            Ok((res, end)) => Ok((warm + reconstruct(fixed_coeffs(o as nat), 0, warm, res), end)),
        },
        SubframeType::Lpc { order } => lpc_body(data, p, blocksize, order as nat, warm),
    }
}

/// The subframe header at bit `p` through the warm-up samples: the type,
/// the wasted-bits count `w`, the subframe's sample width (`sample_bits -
/// w`, which must lie in `1..=32`), the warm-up samples in stream order and
/// the bit position after them. A predictor order above the block size is
/// [`Error::InvalidField`]. Opaque to keep frame-level proofs small:
/// `reveal(subframe_head)` unfolds it.
#[verifier::opaque]
pub open spec fn subframe_head(data: Seq<u8>, p: int, blocksize: nat, sample_bits: nat) -> Result<
    (SubframeType, nat, nat, Seq<i32>, int),
    Error,
> {
    match subframe_type(data, p) {
        Err(e) => Err(e),
        Ok(kind) => if order_of(kind) > blocksize {
            Err(Error::InvalidField)
        } else {
            match wasted_field(data, p + 7) {
                Err(e) => Err(e),
                Ok((w, p2)) => if w >= sample_bits || sample_bits - w > 32 {
                    Err(Error::InvalidField)
                } else {
                    let sub = (sample_bits - w) as nat;
                    match signed_run(data, p2, sub, order_of(kind)) {
                        Err(e) => Err(e),
                        Ok((warm, p3)) => Ok((kind, w, sub, warm, p3)),
                    }
                },
            }
        },
    }
}

/// Where the header phase at `p` leaves the cursor: after the warm-up on
/// success; otherwise where the type field stops, on the type's first bit
/// when the order exceeds the block size (nothing is consumed), after the
/// wasted-bits field when the sample width is refused, or at the warm-up
/// sample that cannot be read.
pub open spec fn head_stop(data: Seq<u8>, p: int, blocksize: nat, sample_bits: nat) -> int {
    match subframe_type(data, p) {
        Err(_) => type_stop(data, p),
        Ok(kind) => if order_of(kind) > blocksize {
            p
        } else {
            match wasted_field(data, p + 7) {
                Err(_) => p + 7,
                Ok((w, p2)) => if w >= sample_bits || sample_bits - w > 32 {
                    p2
                } else {
                    run_stop(data, p2, (sample_bits - w) as nat, order_of(kind))
                },
            }
        },
    }
}

/// The errors that come before anything is written to the output — every
/// header error, and the LPC field rejections — with where each leaves the
/// cursor; `None` when the subframe gets past them.
pub open spec fn early_stop(data: Seq<u8>, p: int, blocksize: nat, sample_bits: nat) -> Option<int> {
    match subframe_head(data, p, blocksize, sample_bits) {
        Err(_) => Some(head_stop(data, p, blocksize, sample_bits)),
        Ok((kind, _, _, _, p3)) => match kind {
            SubframeType::Lpc { .. } => match lpc_fields(data, p3) {
                Err(_) => Some(lpc_fields_stop(data, p3)),
                Ok(_) => None,
            },
            _ => None,
        },
    }
}

/// Each sample multiplied by `2^w`, as `i32` (§9.2.2's decoder rule).
pub open spec fn padded(s: Seq<i32>, w: nat) -> Seq<i32> {
    Seq::new(s.len(), |i: int| ((s[i] as int) * pow2(w)) as i32)
}

/// A whole subframe at bit `p` (§9.2): its type, the block's decoded samples
/// and the bit position after the body (before the frame footer). Opaque
/// like [`subframe_head`]: `reveal(subframe)` unfolds it.
#[verifier::opaque]
pub open spec fn subframe(data: Seq<u8>, p: int, blocksize: nat, sample_bits: nat) -> Result<
    (SubframeType, Seq<i32>, int),
    Error,
> {
    match subframe_head(data, p, blocksize, sample_bits) {
        Err(e) => Err(e),
        Ok((kind, w, sub, warm, p3)) => match subframe_body(data, p3, kind, blocksize, sub, warm) {
            Err(e) => Err(e),
            Ok((s, end)) => Ok((kind, padded(s, w), end)),
        },
    }
}

/// Where decoding a subframe at `p` leaves the cursor when it fails: where
/// the header phase stops ([`head_stop`]), or where the body does
/// ([`body_stop`]). Every read is whole or not at all, so this is the start
/// of the read that failed, or the end of the field whose value was refused.
pub open spec fn subframe_stop(data: Seq<u8>, p: int, blocksize: nat, sample_bits: nat) -> int {
    match subframe_head(data, p, blocksize, sample_bits) {
        Err(_) => head_stop(data, p, blocksize, sample_bits),
        Ok((kind, _, sub, _, p3)) => body_stop(data, p3, kind, blocksize, sub),
    }
}

/// The residual samples an LPC body's coefficients and residual at `p`
/// yield before they stop (none when a coefficient cannot be read).
pub open spec fn lpc_rest_read(data: Seq<u8>, p: int, blocksize: nat, order: nat, precision: nat) -> Seq<i32> {
    match signed_run(data, p, precision, order) {
        Err(_) => Seq::empty(),
        Ok((_, p5)) => residual_read(data, p5, blocksize, order),
    }
}

/// What a body of type `kind` at `p` has written behind the warm-up when
/// it fails: nothing for CONSTANT, the samples read for VERBATIM, the
/// residual samples decoded so far for FIXED and LPC (not yet integrated).
pub open spec fn body_read(data: Seq<u8>, p: int, kind: SubframeType, blocksize: nat, sub_bits: nat) -> Seq<i32> {
    match kind {
        SubframeType::Constant => Seq::empty(),
        SubframeType::Verbatim => run_read(data, p, sub_bits, blocksize),
        SubframeType::Fixed(o) => residual_read(data, p, blocksize, o as nat),
        SubframeType::Lpc { order } => match lpc_fields(data, p) {
            Err(_) => Seq::empty(),
            Ok((precision, _)) => lpc_rest_read(data, p + 9, blocksize, order as nat, precision),
        },
    }
}

/// What a failing subframe at `p` leaves at the front of the output: nothing
/// when its header (or, for LPC, the two fields) fails, otherwise the
/// warm-up samples followed by what the body wrote ([`body_read`]); the rest
/// of the output is untouched.
pub open spec fn subframe_written(data: Seq<u8>, p: int, blocksize: nat, sample_bits: nat) -> Seq<i32> {
    match subframe_head(data, p, blocksize, sample_bits) {
        Err(_) => Seq::empty(),
        Ok((kind, _, sub, warm, p3)) => match kind {
            SubframeType::Lpc { .. } => match lpc_fields(data, p3) {
                Err(_) => Seq::empty(),
                Ok(_) => warm + body_read(data, p3, kind, blocksize, sub),
            },
            _ => warm + body_read(data, p3, kind, blocksize, sub),
        },
    }
}

/// `state` holds the warm-up samples `warm` (stream order): most recent
/// first, the remaining slots zero.
pub open spec fn holds_warm_up(state: PredictorState, warm: Seq<i32>) -> bool {
    &&& state.len == warm.len()
    &&& state.warm_up@ == Seq::new(
        32,
        |m: int|
            if m < warm.len() {
                warm[warm.len() - 1 - m]
            } else {
                0i32
            },
    )
}

/// A state holding `warm` gives it back as its warm-up sequence.
pub proof fn lemma_warm_seq_of(state: PredictorState, warm: Seq<i32>)
    requires
        holds_warm_up(state, warm),
        warm.len() <= 32,
    ensures
        warm_seq(state, warm.len()) == warm,
{
    assert(warm_seq(state, warm.len()) =~= warm);
}

/// A body writes at most one sample per slot after the warm-up.
pub proof fn lemma_body_read_len(data: Seq<u8>, p: int, kind: SubframeType, blocksize: nat, sub_bits: nat)
    requires
        order_of(kind) <= blocksize,
    ensures
        body_read(data, p, kind, blocksize, sub_bits).len() <= blocksize - order_of(kind),
{
    match kind {
        SubframeType::Constant => {},
        SubframeType::Verbatim => {
            lemma_run_read_len(data, p, sub_bits, blocksize);
        },
        SubframeType::Fixed(o) => {
            lemma_residual_read_len(data, p, blocksize, o as nat);
        },
        SubframeType::Lpc { order } => {
            if let Ok((precision, _)) = lpc_fields(data, p) {
                if let Ok((_, p5)) = signed_run(data, p + 9, precision, order as nat) {
                    lemma_residual_read_len(data, p5, blocksize, order as nat);
                }
            }
        },
    }
}

/// Overwriting behind a prefix that already holds `warm` is overwriting
/// from the start with `warm` and then the rest.
proof fn lemma_splice_behind(base: Seq<i32>, mid: Seq<i32>, warm: Seq<i32>, x: Seq<i32>)
    requires
        mid.len() == base.len(),
        warm.len() + x.len() <= base.len(),
        mid.take(warm.len() as int) == warm,
        mid.skip(warm.len() as int) == base.skip(warm.len() as int),
    ensures
        splice(mid, warm.len() as int, x) == splice(base, 0, warm + x),
{
    let w = warm.len() as int;
    let lhs = splice(mid, w, x);
    let rhs = splice(base, 0, warm + x);
    assert(lhs.len() == rhs.len());
    assert forall|j: int| 0 <= j < lhs.len() implies #[trigger] lhs[j] == rhs[j] by {
        if j < w {
            assert(mid.take(w)[j] == warm[j]);
        } else if j >= w + x.len() {
            assert(mid.skip(w)[j - w] == base.skip(w)[j - w]);
        }
    }
    assert(lhs =~= rhs);
}

/// Multiply the decoded block by `2^wasted`, in place.
fn pad_block(out: &mut [i32], wasted: u32)
    requires
        wasted < 64,
    ensures
        final(out)@ == padded(old(out)@, wasted as nat),
{
    proof {
        vstd::bits::lemma_u64_pow2_no_overflow(wasted as nat);
        vstd::bits::lemma_u64_shl_is_mul(1, wasted as u64);
        lemma_pow2_pos(wasted as nat);
    }
    let scale = (1u64 << wasted) as i128;
    let n = out.len();
    let mut i: usize = 0;
    while i < n
        invariant
            n == out@.len(),
            n == old(out)@.len(),
            i <= n,
            scale == pow2(wasted as nat),
            0 < scale <= 0xFFFF_FFFF_FFFF_FFFF,
            forall|k: int| 0 <= k < i ==> out@[k] == ((old(out)@[k] as int) * pow2(wasted as nat)) as i32,
            forall|k: int| i <= k < n ==> out@[k] == old(out)@[k],
        decreases n - i,
    {
        let v = out[i];
        assert((v as int) * scale <= 0x8000_0000 * 0xFFFF_FFFF_FFFF_FFFF && (v as int) * scale >= -(
        0x8000_0000 * 0xFFFF_FFFF_FFFF_FFFF)) by (nonlinear_arith)
            requires
                -0x8000_0000 <= v < 0x8000_0000,
                0 < scale <= 0xFFFF_FFFF_FFFF_FFFF,
        ;
        out[i] = ((v as i128) * scale) as i32;
        i += 1;
    }
    assert(out@ =~= padded(old(out)@, wasted as nat));
}

/// A CONSTANT body: one `sub_bits`-wide sample repeated over `out`.
fn decode_constant(reader: &mut BitReader<'_>, sub_bits: u32, out: &mut [i32]) -> (r: Result<
    (),
    Error,
>)
    requires
        old(reader).wf(),
    ensures
        final(reader).wf(),
        final(reader).data() == old(reader).data(),
        final(out)@.len() == old(out)@.len(),
        match subframe_body(
            old(reader).data(),
            old(reader).pos(),
            SubframeType::Constant,
            old(out)@.len(),
            sub_bits as nat,
            Seq::empty(),
        ) {
            Ok((s, end)) => r is Ok && final(reader).pos() == end && final(out)@ == s,
            Err(e) => r == Err::<(), Error>(e) && final(reader).pos() == old(reader).pos()
                && final(out)@ == old(out)@,
        },
{
    let v = reader.read_signed(sub_bits)?;
    let n = out.len();
    let mut i: usize = 0;
    while i < n
        invariant
            out@.len() == n,
            i <= n,
            forall|k: int| 0 <= k < i ==> out@[k] == v,
        decreases n - i,
    {
        out[i] = v;
        i += 1;
    }
    assert(out@ =~= Seq::new(n as nat, |k: int| v));
    Ok(())
}

/// `count` raw samples of `bits` bits each, read into `out[..count]`.
fn read_run(reader: &mut BitReader<'_>, bits: u32, count: usize, out: &mut [i32]) -> (r: Result<
    (),
    Error,
>)
    requires
        old(reader).wf(),
        count <= old(out)@.len(),
    ensures
        final(reader).wf(),
        final(reader).data() == old(reader).data(),
        final(out)@.len() == old(out)@.len(),
        match signed_run(old(reader).data(), old(reader).pos(), bits as nat, count as nat) {
            Ok((s, end)) => r is Ok && final(reader).pos() == end && final(out)@.take(count as int)
                == s && final(out)@.skip(count as int) == old(out)@.skip(count as int),
            Err(e) => r == Err::<(), Error>(e) && final(reader).pos() == run_stop(
                old(reader).data(),
                old(reader).pos(),
                bits as nat,
                count as nat,
            ) && final(out)@ == splice(
                old(out)@,
                0,
                run_read(old(reader).data(), old(reader).pos(), bits as nat, count as nat),
            ),
        },
{
    let ghost d = reader.data();
    let ghost p = reader.pos();
    let n = out.len();
    let mut i: usize = 0;
    assert(out@.take(0) =~= Seq::<i32>::empty());
    while i < count
        invariant
            reader.wf(),
            reader.data() == d,
            d == old(reader).data(),
            p == old(reader).pos(),
            out@.len() == n,
            n == old(out)@.len(),
            count <= n,
            i <= count,
            signed_run(d, p, bits as nat, i as nat) == Ok::<(Seq<i32>, int), Error>(
                (out@.take(i as int), reader.pos()),
            ),
            forall|k: int| count <= k < n ==> out@[k] == old(out)@[k],
            forall|k: int| i <= k < n ==> out@[k] == old(out)@[k],
        decreases count - i,
    {
        let v = match reader.read_signed(bits) {
            Ok(v) => v,
            Err(e) => {
                proof {
                    lemma_run_err(d, p, bits as nat, (i + 1) as nat, count as nat);
                    lemma_run_stop_err(d, p, bits as nat, (i + 1) as nat, count as nat);
                    lemma_run_read_err(d, p, bits as nat, (i + 1) as nat, count as nat);
                    assert(run_read(d, p, bits as nat, (i + 1) as nat) == out@.take(i as int));
                    assert(out@ =~= splice(old(out)@, 0, out@.take(i as int)));
                }
                return Err(e);
            },
        };
        let ghost before = out@.take(i as int);
        out[i] = v;
        assert(out@.take(i + 1) =~= before.push(v));
        i += 1;
    }
    assert(out@.skip(count as int) =~= old(out)@.skip(count as int));
    Ok(())
}

/// A FIXED body: the residual, integrated in place behind the warm-up.
fn decode_fixed_body(
    reader: &mut BitReader<'_>,
    o: u8,
    blocksize: usize,
    state: &PredictorState,
    out: &mut [i32],
) -> (r: Result<(), Error>)
    requires
        old(reader).wf(),
        old(out)@.len() == blocksize,
        o <= 4,
        o <= blocksize,
        state.len == o,
        warm_seq(*state, o as nat) == old(out)@.take(o as int),
    ensures
        final(reader).wf(),
        final(reader).data() == old(reader).data(),
        final(out)@.len() == blocksize,
        match subframe_body(
            old(reader).data(),
            old(reader).pos(),
            SubframeType::Fixed(o),
            blocksize as nat,
            1,
            old(out)@.take(o as int),
        ) {
            Ok((s, end)) => r is Ok && final(reader).pos() == end && final(out)@ == s,
            Err(e) => r == Err::<(), Error>(e) && final(reader).pos() == residual_stop(
                old(reader).data(),
                old(reader).pos(),
                blocksize as nat,
                o as nat,
            ) && final(out)@ == splice(
                old(out)@,
                o as int,
                residual_read(old(reader).data(), old(reader).pos(), blocksize as nat, o as nat),
            ),
        },
{
    let ghost warm = out@.take(o as int);
    let ghost d = reader.data();
    let ghost p = reader.pos();
    let order = o as usize;
    let (head, tail) = out.split_at_mut(order);
    match decode_residual(reader, blocksize, order, tail) {
        Ok(()) => {},
        Err(e) => {
            proof {
                lemma_residual_read_len(d, p, blocksize as nat, o as nat);
                let rr = residual_read(d, p, blocksize as nat, o as nat);
                assert(head@ + tail@ =~= splice(old(out)@, o as int, rr));
            }
            return Err(e);
        },
    }
    let ghost res = tail@;
    let _ = integrate_fixed(o, state, tail);
    proof {
        lemma_reconstruct_len(fixed_coeffs(o as nat), 0, warm_seq(*state, o as nat), res);
    }
    assert(head@ == warm);
    Ok(())
}

/// The two LPC fields (§9.2.6): precision and shift.
fn read_lpc_fields(reader: &mut BitReader<'_>) -> (r: Result<(u32, i32), Error>)
    requires
        old(reader).wf(),
    ensures
        final(reader).wf(),
        final(reader).data() == old(reader).data(),
        final(reader).pos() == lpc_fields_stop(old(reader).data(), old(reader).pos()),
        match lpc_fields(old(reader).data(), old(reader).pos()) {
            Ok((precision, shift)) => r == Ok::<(u32, i32), Error>((precision as u32, shift as i32))
                && 1 <= precision <= 15 && shift < 16,
            Err(e) => r == Err::<(u32, i32), Error>(e),
        },
{
    let ghost d = reader.data();
    let ghost p = reader.pos();
    let pm1 = reader.read_bits(4)?;
    if pm1 == 15 {
        return Err(Error::InvalidField);
    }
    proof {
        lemma_bits_bound(d, p, 4);
        lemma_bits_bound(d, p + 4, 5);
        lemma2_to64();
    }
    let shift = reader.read_signed(5)?;
    if shift < 0 {
        return Err(Error::InvalidField);
    }
    Ok((pm1 + 1, shift))
}

/// An LPC body after its two fields: coefficients, residual, then the
/// integration behind the warm-up.
#[verifier::rlimit(40)]
fn decode_lpc_body(
    reader: &mut BitReader<'_>,
    o: u8,
    blocksize: usize,
    precision: u32,
    shift: i32,
    state: &PredictorState,
    out: &mut [i32],
) -> (r: Result<(), Error>)
    requires
        old(reader).wf(),
        old(out)@.len() == blocksize,
        o <= 32,
        o <= blocksize,
        1 <= precision <= 15,
        0 <= shift < 16,
        state.len == o,
        warm_seq(*state, o as nat) == old(out)@.take(o as int),
    ensures
        final(reader).wf(),
        final(reader).data() == old(reader).data(),
        final(out)@.len() == blocksize,
        match lpc_rest(
            old(reader).data(),
            old(reader).pos(),
            blocksize as nat,
            o as nat,
            precision as nat,
            shift as nat,
            old(out)@.take(o as int),
        ) {
            Ok((s, end)) => r is Ok && final(reader).pos() == end && final(out)@ == s,
            Err(e) => r == Err::<(), Error>(e) && final(reader).pos() == lpc_rest_stop(
                old(reader).data(),
                old(reader).pos(),
                blocksize as nat,
                o as nat,
                precision as nat,
            ) && final(out)@ == splice(
                old(out)@,
                o as int,
                lpc_rest_read(old(reader).data(), old(reader).pos(), blocksize as nat, o as nat, precision as nat),
            ),
        },
{
    let ghost warm = out@.take(o as int);
    let order = o as usize;
    let mut coeffs = [0i32; 32];
    let ghost d = reader.data();
    let ghost p = reader.pos();
    assert(splice(old(out)@, o as int, Seq::<i32>::empty()) =~= old(out)@);
    read_run(reader, precision, order, &mut coeffs)?;
    let ghost p5 = reader.pos();
    let cs = &coeffs[0..order];
    assert(cs@ =~= coeffs@.take(order as int));
    let (head, tail) = out.split_at_mut(order);
    match decode_residual(reader, blocksize, order, tail) {
        Ok(()) => {},
        Err(e) => {
            proof {
                lemma_residual_read_len(d, p5, blocksize as nat, o as nat);
                let rr = residual_read(d, p5, blocksize as nat, o as nat);
                assert(head@ + tail@ =~= splice(old(out)@, o as int, rr));
            }
            return Err(e);
        },
    }
    let ghost res = tail@;
    let _ = integrate_lpc(cs, shift as i8, state, tail);
    proof {
        lemma_reconstruct_len(cs@, shift as nat, warm_seq(*state, o as nat), res);
    }
    assert(head@ == warm);
    Ok(())
}

/// Decode a CONSTANT, VERBATIM or FIXED body after the warm-up into `out`,
/// whose first `order` entries already hold the warm-up samples.
fn decode_body(
    reader: &mut BitReader<'_>,
    kind: SubframeType,
    blocksize: usize,
    sub_bits: u32,
    state: &PredictorState,
    out: &mut [i32],
) -> (r: Result<(), Error>)
    requires
        old(reader).wf(),
        old(out)@.len() == blocksize,
        !(kind is Lpc),
        order_of(kind) <= blocksize,
        kind matches SubframeType::Fixed(o) ==> o <= 4,
        state.len == order_of(kind),
        warm_seq(*state, order_of(kind)) == old(out)@.take(order_of(kind) as int),
    ensures
        final(reader).wf(),
        final(reader).data() == old(reader).data(),
        final(out)@.len() == blocksize,
        match subframe_body(
            old(reader).data(),
            old(reader).pos(),
            kind,
            blocksize as nat,
            sub_bits as nat,
            old(out)@.take(order_of(kind) as int),
        ) {
            Ok((s, end)) => r is Ok && final(reader).pos() == end && final(out)@ == s,
            Err(e) => r == Err::<(), Error>(e) && final(reader).pos() == body_stop(
                old(reader).data(),
                old(reader).pos(),
                kind,
                blocksize as nat,
                sub_bits as nat,
            ) && final(out)@ == splice(
                old(out)@,
                order_of(kind) as int,
                body_read(old(reader).data(), old(reader).pos(), kind, blocksize as nat, sub_bits as nat),
            ),
        },
{
    assert(splice(old(out)@, 0, Seq::<i32>::empty()) =~= old(out)@);
    match kind {
        SubframeType::Constant => decode_constant(reader, sub_bits, out),
        SubframeType::Verbatim => {
            let r = read_run(reader, sub_bits, blocksize, out);
            proof {
                if r is Ok {
                    assert(out@ =~= out@.take(blocksize as int));
                }
            }
            r
        },
        SubframeType::Fixed(o) => decode_fixed_body(reader, o, blocksize, state, out),
        SubframeType::Lpc { .. } => Err(Error::InvalidField),
    }
}

/// Copy the state's first `order` warm-up samples into `out[..order]` in
/// stream order (oldest first).
fn write_warm_prefix(state: &PredictorState, order: usize, out: &mut [i32])
    requires
        order <= 32,
        order <= old(out)@.len(),
    ensures
        final(out)@.len() == old(out)@.len(),
        final(out)@.take(order as int) == warm_seq(*state, order as nat),
        final(out)@.skip(order as int) == old(out)@.skip(order as int),
{
    let n = out.len();
    let mut i: usize = 0;
    while i < order
        invariant
            order <= 32,
            order <= n,
            n == old(out)@.len(),
            out@.len() == n,
            i <= order,
            forall|k: int| 0 <= k < i ==> out@[k] == warm_seq(*state, order as nat)[k],
            forall|k: int| order <= k < n ==> out@[k] == old(out)@[k],
        decreases order - i,
    {
        out[i] = state.warm_up[order - 1 - i];
        i += 1;
    }
    assert(out@.take(order as int) =~= warm_seq(*state, order as nat));
    assert(out@.skip(order as int) =~= old(out)@.skip(order as int));
}

/// The subframe header through the warm-up samples, which land in
/// `state`: returns the type, the wasted-bits count and the subframe's
/// sample width. A predictor order above the block size is refused before
/// the type field is consumed.
fn read_head(
    reader: &mut BitReader<'_>,
    blocksize: usize,
    sample_bits: u8,
    state: &mut PredictorState,
) -> (r: Result<(SubframeType, u32, u32), Error>)
    requires
        old(reader).wf(),
        sample_bits <= 64,
    ensures
        final(reader).wf(),
        final(reader).data() == old(reader).data(),
        match subframe_head(old(reader).data(), old(reader).pos(), blocksize as nat, sample_bits as nat) {
            Ok((kind, w, sub, warm, p3)) => r == Ok::<(SubframeType, u32, u32), Error>(
                (kind, w as u32, sub as u32),
            ) && final(reader).pos() == p3 && holds_warm_up(*final(state), warm) && w < 64
                && 1 <= sub <= 32 && warm.len() == order_of(kind),
            Err(e) => r == Err::<(SubframeType, u32, u32), Error>(e) && *final(state) == *old(
                state,
            ) && final(reader).pos() == head_stop(
                old(reader).data(),
                old(reader).pos(),
                blocksize as nat,
                sample_bits as nat,
            ),
        },
        r matches Ok((kind, _, _)) ==> order_of(kind) <= 32 && order_of(kind) <= blocksize && (
        kind matches SubframeType::Fixed(o) ==> o <= 4),
{
    proof {
        reveal(subframe_head);
    }
    let ghost d = reader.data();
    let ghost p = reader.pos();
    let mut probe = *reader;
    let kind = match SubframeType::parse(&mut probe) {
        Ok(k) => k,
        Err(e) => {
            *reader = probe;
            return Err(e);
        },
    };
    let order = kind.order();
    if order > blocksize {
        return Err(Error::InvalidField);
    }
    *reader = probe;
    let wasted = reader.read_wasted_bits()?;
    if wasted >= sample_bits as u32 || sample_bits as u32 - wasted > 32 {
        return Err(Error::InvalidField);
    }
    let sub_bits = sample_bits as u32 - wasted;
    let ghost p2 = reader.pos();
    state.fill(reader, order, sub_bits as u8, 0)?;
    let ghost warm = signed_run(d, p2, sub_bits as nat, order as nat).unwrap().0;
    proof {
        lemma_run_ok(d, p2, sub_bits as nat, order as nat);
        assert forall|m: int| 0 <= m < 32 implies #[trigger] state.warm_up@[m] == (if m < order {
            warm[order - 1 - m]
        } else {
            0i32
        }) by {
            if m < order {
                assert(pow2(0) == 1) by {
                    vstd::arithmetic::power2::lemma2_to64();
                }
            }
        }
        assert(state.warm_up@ =~= Seq::new(
            32,
            |m: int|
                if m < warm.len() {
                    warm[warm.len() - 1 - m]
                } else {
                    0i32
                },
        ));
    }
    Ok((kind, wasted, sub_bits))
}

/// Decode one whole subframe into `out` (§9.2): type field, wasted bits,
/// warm-up, body, and the final multiply by `2^wasted`. Returns the
/// subframe type. `sample_bits` is the frame's sample size, one more for the
/// side channel of a decorrelated pair.
///
/// The cursor starts on the subframe's first bit and lands right after its
/// body. `state` receives the subframe's warm-up samples once they are read
/// and is otherwise left alone.
///
/// Rejections write nothing: `out.len() != blocksize` is
/// [`Error::InvalidField`] before any read; a predictor order above the
/// block size is refused before the type field is consumed; every other
/// header error, and the LPC precision and shift rejections, come before
/// the first write to `out`, with the cursor where [`early_stop`] says.
/// Whatever fails, the cursor stays where [`subframe_stop`] says: at the
/// start of the read that failed, or after the field whose value was
/// refused. On any failure `out` begins with what was written before it
/// ([`subframe_written`]: the warm-up and the body's samples so far, on the
/// stripped scale), the rest untouched.
pub fn decode_subframe(
    reader: &mut BitReader<'_>,
    blocksize: usize,
    sample_bits: u8,
    state: &mut PredictorState,
    out: &mut [i32],
) -> (r: Result<SubframeType, Error>)
    requires
        old(reader).wf(),
        sample_bits <= 64,
    ensures
        final(reader).wf(),
        final(reader).data() == old(reader).data(),
        final(out)@.len() == old(out)@.len(),
        old(out)@.len() != blocksize ==> r == Err::<SubframeType, Error>(Error::InvalidField)
            && final(reader).pos() == old(reader).pos() && *final(state) == *old(state)
            && final(out)@ == old(out)@,
        old(out)@.len() == blocksize ==> match early_stop(
            old(reader).data(),
            old(reader).pos(),
            blocksize as nat,
            sample_bits as nat,
        ) {
            Some(q) => r is Err && final(reader).pos() == q && final(out)@ == old(out)@,
            None => true,
        },
        old(out)@.len() == blocksize ==> match subframe(
            old(reader).data(),
            old(reader).pos(),
            blocksize as nat,
            sample_bits as nat,
        ) {
            Ok((kind, s, end)) => r == Ok::<SubframeType, Error>(kind) && final(reader).pos() == end
                && final(out)@ == s,
            Err(e) => r == Err::<SubframeType, Error>(e) && final(reader).pos() == subframe_stop(
                old(reader).data(),
                old(reader).pos(),
                blocksize as nat,
                sample_bits as nat,
            ),
        },
        old(out)@.len() == blocksize ==> match subframe_head(
            old(reader).data(),
            old(reader).pos(),
            blocksize as nat,
            sample_bits as nat,
        ) {
            Ok((_, _, _, warm, _)) => holds_warm_up(*final(state), warm),
            Err(_) => *final(state) == *old(state),
        },
        old(out)@.len() == blocksize && r is Err ==> final(out)@ == splice(
            old(out)@,
            0,
            subframe_written(old(reader).data(), old(reader).pos(), blocksize as nat, sample_bits as nat),
        ),
{
    proof {
        reveal(subframe_head);
        reveal(subframe);
    }
    if out.len() != blocksize {
        return Err(Error::InvalidField);
    }
    let ghost d = reader.data();
    let ghost p0 = reader.pos();
    assert(splice(old(out)@, 0, Seq::<i32>::empty()) =~= old(out)@);
    let (kind, wasted, sub_bits) = read_head(reader, blocksize, sample_bits, state)?;
    let ghost p3 = reader.pos();
    let order = kind.order();
    let (precision, shift): (u32, i32) = match kind {
        SubframeType::Lpc { .. } => read_lpc_fields(reader)?,
        _ => (1, 0),
    };
    write_warm_prefix(state, order, out);
    proof {
        let warm = subframe_head(
            old(reader).data(),
            old(reader).pos(),
            blocksize as nat,
            sample_bits as nat,
        ).unwrap().3;
        lemma_warm_seq_of(*state, warm);
    }
    let ghost mid = out@;
    let ghost warm = subframe_head(d, p0, blocksize as nat, sample_bits as nat).unwrap().3;
    proof {
        lemma_body_read_len(d, p3, kind, blocksize as nat, sub_bits as nat);
    }
    let rb = match kind {
        SubframeType::Lpc { order: o } => decode_lpc_body(reader, o, blocksize, precision, shift, state, out),
        _ => decode_body(reader, kind, blocksize, sub_bits, state, out),
    };
    match rb {
        Ok(()) => {},
        Err(e) => {
            proof {
                lemma_splice_behind(
                    old(out)@,
                    mid,
                    warm,
                    body_read(d, p3, kind, blocksize as nat, sub_bits as nat),
                );
            }
            return Err(e);
        },
    }
    pad_block(out, wasted);
    Ok(kind)
}

/// A failing subframe writes at most one sample per block slot.
pub proof fn lemma_subframe_written_len(data: Seq<u8>, p: int, blocksize: nat, sample_bits: nat)
    ensures
        subframe_written(data, p, blocksize, sample_bits).len() <= blocksize,
{
    reveal(subframe_head);
    if let Ok((kind, _, sub, _, p3)) = subframe_head(data, p, blocksize, sample_bits) {
        let p2 = wasted_field(data, p + 7).unwrap().1;
        lemma_run_ok(data, p2, sub, order_of(kind));
        lemma_body_read_len(data, p3, kind, blocksize, sub);
    }
}

/// A subframe that decodes has a header that decodes.
pub proof fn lemma_subframe_head_ok(data: Seq<u8>, p: int, blocksize: nat, sample_bits: nat)
    requires
        subframe(data, p, blocksize, sample_bits) is Ok,
    ensures
        subframe_head(data, p, blocksize, sample_bits) is Ok,
{
    reveal(subframe_head);
    reveal(subframe);
}

/// A decoded subframe holds exactly one sample per block slot.
pub proof fn lemma_subframe_len(data: Seq<u8>, p: int, blocksize: nat, sample_bits: nat)
    requires
        subframe(data, p, blocksize, sample_bits) is Ok,
    ensures
        subframe(data, p, blocksize, sample_bits).unwrap().1.len() == blocksize,
{
    reveal(subframe_head);
    reveal(subframe);
    let (kind, w, sub, warm, p3) = subframe_head(data, p, blocksize, sample_bits).unwrap();
    let p2 = wasted_field(data, p + 7).unwrap().1;
    lemma_run_ok(data, p2, sub, order_of(kind));
    match kind {
        SubframeType::Constant => {},
        SubframeType::Verbatim => {
            lemma_run_ok(data, p3, sub, blocksize);
        },
        SubframeType::Fixed(o) => {
            let (res, _) = residual(data, p3, blocksize, o as nat).unwrap();
            crate::residual::lemma_residual_len(data, p3, blocksize, o as nat);
            lemma_reconstruct_len(fixed_coeffs(o as nat), 0, warm, res);
        },
        SubframeType::Lpc { order } => {
            let (precision, shift) = lpc_fields(data, p3).unwrap();
            let (cs, p5) = signed_run(data, p3 + 9, precision, order as nat).unwrap();
            let (res, _) = residual(data, p5, blocksize, order as nat).unwrap();
            crate::residual::lemma_residual_len(data, p5, blocksize, order as nat);
            lemma_reconstruct_len(cs, shift, warm, res);
        },
    }
}

} // verus!
