//! Residual coding (RFC 9639 §9.2.7): partitioned Rice with 4- or 5-bit
//! parameters, and escaped partitions of raw two's-complement samples.
//!
//! Layout of a coded residual: coding method `u(2)` (`0b00` 4-bit
//! parameters, `0b01` 5-bit; the other two are reserved), partition order
//! `u(4)`, then `2^order` partitions, each opening with its parameter. The
//! all-ones parameter is the escape code, followed by a 5-bit raw sample
//! width. Partition 0 carries `(blocksize >> order) - predictor_order`
//! samples, every other partition `blocksize >> order`.
//!
//! A Rice word is a unary quotient (zeros closed by a one), then `k`
//! remainder bits; `folded = quotient * 2^k + remainder` unfolds to the
//! signed residual (even → `n / 2`, odd → `-(n / 2) - 1`). No division is
//! used: partition counts are shifts and masks.
use vstd::prelude::*;
use vstd::arithmetic::power2::{pow2, lemma_pow2_pos, lemma2_to64, lemma_pow2_adds, lemma_pow2_strictly_increases};

use crate::Error;
use crate::bits::{BitReader, field, signed_field, zero_run, total_bits, lemma_bits_one, lemma_bits_bound};

verus! {

/// One partition's header, as read from the stream (§9.2.7 / §9.2.7.1).
#[derive(Clone, Copy, Debug, PartialEq, Eq, Structural)]
pub struct PartitionHeader {
    /// Rice parameter: number of remainder bits per word.
    pub order: u8,
    /// Escaped partition: samples are unencoded, `raw_bits` each.
    pub is_escape: bool,
    /// Bits per residual sample of an escaped partition; `0` means every
    /// sample is 0 and no bits are stored.
    pub raw_bits: u8,
    /// Samples in this partition.
    pub sample_count: u16,
}

/// The signed residual a folded Rice value stands for: the encoder folds
/// `x >= 0` to `2x` and `x < 0` to `-2x - 1`.
pub open spec fn unfolded(n: nat) -> int {
    if n % 2 == 0 {
        (n / 2) as int
    } else {
        -((n / 2) as int) - 1
    }
}

/// The encoder's fold of a signed residual (§9.2.7.2): `x >= 0` becomes
/// `2x`, `x < 0` becomes `-2x - 1`.
pub open spec fn folded(x: int) -> nat {
    if x >= 0 {
        (2 * x) as nat
    } else {
        (-2 * x - 1) as nat
    }
}

/// Unfolding undoes the encoder's fold, for every residual.
pub proof fn lemma_unfold_inverts_fold(x: int)
    ensures
        unfolded(folded(x)) == x,
{
}

/// Folding undoes unfolding: the two maps are inverse bijections between
/// the naturals and the integers.
pub proof fn lemma_fold_inverts_unfold(n: nat)
    ensures
        folded(unfolded(n)) == n,
{
}

/// One Rice word with parameter `k` at bit `p`: the value and the bit
/// position after it. A folded value that does not fit 32 bits, or equals
/// `0xFFFF_FFFF` (the pre-image of `i32::MIN`, which §9.2.7.3 forbids), is
/// [`Error::InvalidField`], as is a parameter of 32 or more.
pub open spec fn rice_word(data: Seq<u8>, p: int, k: nat) -> Result<(i32, int), Error> {
    match zero_run(data, p) {
        None => Err(Error::EndOfStream),
        Some(q) => {
            let p1 = p + q + 1;
            let rem: Result<u32, Error> = if k == 0 {
                Ok(0u32)
            } else {
                field(data, p1, k)
            };
            match rem {
                Err(e) => Err(e),
                Ok(r) => {
                    let folded: nat = q * pow2(k) + r as nat;
                    if k >= 32 || folded >= 0xFFFF_FFFF {
                        Err(Error::InvalidField)
                    } else {
                        Ok((unfolded(folded) as i32, p1 + k))
                    }
                },
            }
        },
    }
}

/// One sample of a partition described by `hdr`, at bit `p`.
pub open spec fn partition_sample(data: Seq<u8>, p: int, hdr: PartitionHeader) -> Result<
    (i32, int),
    Error,
> {
    if hdr.is_escape {
        if hdr.raw_bits == 0 {
            Ok((0i32, p))
        } else {
            match signed_field(data, p, hdr.raw_bits as nat) {
                Err(e) => Err(e),
                Ok(v) => Ok((v, p + hdr.raw_bits)),
            }
        }
    } else {
        rice_word(data, p, hdr.order as nat)
    }
}

/// The first `count` samples of a partition body at bit `p`.
pub open spec fn partition_body(data: Seq<u8>, p: int, hdr: PartitionHeader, count: nat) -> Result<
    (Seq<i32>, int),
    Error,
>
    decreases count,
{
    if count == 0 {
        Ok((Seq::empty(), p))
    } else {
        match partition_body(data, p, hdr, (count - 1) as nat) {
            Err(e) => Err(e),
            Ok((s, p1)) => match partition_sample(data, p1, hdr) {
                Err(e) => Err(e),
                Ok((v, p2)) => Ok((s.push(v), p2)),
            },
        }
    }
}

/// Where reading one Rice word at `p` leaves the cursor. Each bit and the
/// remainder are read whole or not at all: a unary run that meets the end
/// of the slice stops there, an unreadable remainder leaves the cursor just
/// after the closing one bit, and a word refused for its value is judged
/// after its remainder is read.
pub open spec fn rice_stop(data: Seq<u8>, p: int, k: nat) -> int {
    match zero_run(data, p) {
        None => total_bits(data),
        Some(q) => {
            let p1 = p + q + 1;
            if k == 0 {
                p1
            } else {
                match field(data, p1, k) {
                    Err(_) => p1,
                    Ok(_) => p1 + k,
                }
            }
        },
    }
}

/// Where reading one sample of a partition at `p` leaves the cursor.
pub open spec fn partition_sample_stop(data: Seq<u8>, p: int, hdr: PartitionHeader) -> int {
    if hdr.is_escape {
        if hdr.raw_bits == 0 {
            p
        } else {
            match signed_field(data, p, hdr.raw_bits as nat) {
                Err(_) => p,
                Ok(_) => p + hdr.raw_bits,
            }
        }
    } else {
        rice_stop(data, p, hdr.order as nat)
    }
}

/// Where reading the first `count` samples of a partition body at `p`
/// leaves the cursor: after the last one on success, otherwise where the
/// first failing sample stops.
pub open spec fn partition_body_stop(data: Seq<u8>, p: int, hdr: PartitionHeader, count: nat) -> int
    decreases count,
{
    if count == 0 {
        p
    } else {
        match partition_body(data, p, hdr, (count - 1) as nat) {
            Err(_) => partition_body_stop(data, p, hdr, (count - 1) as nat),
            Ok((_, p1)) => partition_sample_stop(data, p1, hdr),
        }
    }
}

/// Once a body fails, a longer body stops at the same place.
pub proof fn lemma_partition_stop_err(data: Seq<u8>, p: int, hdr: PartitionHeader, n: nat, m: nat)
    requires
        n <= m,
        partition_body(data, p, hdr, n) is Err,
    ensures
        partition_body_stop(data, p, hdr, m) == partition_body_stop(data, p, hdr, n),
    decreases m - n,
{
    if n < m {
        lemma_partition_stop_err(data, p, hdr, n, (m - 1) as nat);
        lemma_partition_err(data, p, hdr, n, (m - 1) as nat);
    }
}

/// The samples a partition body at `p` yields before it stops: all
/// `count` on success, otherwise those before the first failing sample.
pub open spec fn partition_body_read(data: Seq<u8>, p: int, hdr: PartitionHeader, count: nat) -> Seq<i32>
    decreases count,
{
    if count == 0 {
        Seq::empty()
    } else {
        match partition_body(data, p, hdr, (count - 1) as nat) {
            Err(_) => partition_body_read(data, p, hdr, (count - 1) as nat),
            Ok((s, p1)) => match partition_sample(data, p1, hdr) {
                Err(_) => s,
                Ok((v, _)) => s.push(v),
            },
        }
    }
}

/// Once a body fails, a longer body yields the same samples.
pub proof fn lemma_partition_read_err(data: Seq<u8>, p: int, hdr: PartitionHeader, n: nat, m: nat)
    requires
        n <= m,
        partition_body(data, p, hdr, n) is Err,
    ensures
        partition_body_read(data, p, hdr, m) == partition_body_read(data, p, hdr, n),
    decreases m - n,
{
    if n < m {
        lemma_partition_read_err(data, p, hdr, n, (m - 1) as nat);
        lemma_partition_err(data, p, hdr, n, (m - 1) as nat);
    }
}

/// A body yields at most the samples asked for.
pub proof fn lemma_partition_read_len(data: Seq<u8>, p: int, hdr: PartitionHeader, n: nat)
    ensures
        partition_body_read(data, p, hdr, n).len() <= n,
    decreases n,
{
    if n > 0 {
        lemma_partition_read_len(data, p, hdr, (n - 1) as nat);
        if partition_body(data, p, hdr, (n - 1) as nat) is Ok {
            lemma_partition_len(data, p, hdr, (n - 1) as nat);
        }
    }
}

/// One partition at bit `p`: its parameter (`plen` bits, `escape` being the
/// all-ones escape code, followed by a 5-bit raw width), then `count` samples.
/// A count that does not fit the header's 16-bit field is
/// [`Error::InvalidField`].
pub open spec fn residual_partition(data: Seq<u8>, p: int, plen: nat, escape: u32, count: nat) -> Result<
    (Seq<i32>, int),
    Error,
> {
    match field(data, p, plen) {
        Err(e) => Err(e),
        Ok(param) => if param == escape {
            match field(data, p + plen, 5) {
                Err(e) => Err(e),
                Ok(raw) => if count > 0xFFFF {
                    Err(Error::InvalidField)
                } else {
                    partition_body(
                        data,
                        p + plen + 5,
                        PartitionHeader {
                            order: 0,
                            is_escape: true,
                            raw_bits: raw as u8,
                            sample_count: count as u16,
                        },
                        count,
                    )
                },
            }
        } else if count > 0xFFFF {
            Err(Error::InvalidField)
        } else {
            partition_body(
                data,
                p + plen,
                PartitionHeader {
                    order: param as u8,
                    is_escape: false,
                    raw_bits: 0,
                    sample_count: count as u16,
                },
                count,
            )
        },
    }
}

/// Where reading one partition at `p` leaves the cursor: each header field
/// is read whole or not at all, an oversized count is judged after the
/// header, and a failing body stops where its first failing sample does.
pub open spec fn residual_partition_stop(data: Seq<u8>, p: int, plen: nat, escape: u32, count: nat) -> int {
    match field(data, p, plen) {
        Err(_) => p,
        Ok(param) => if param == escape {
            match field(data, p + plen, 5) {
                Err(_) => p + plen,
                Ok(raw) => if count > 0xFFFF {
                    p + plen + 5
                } else {
                    partition_body_stop(
                        data,
                        p + plen + 5,
                        PartitionHeader {
                            order: 0,
                            is_escape: true,
                            raw_bits: raw as u8,
                            sample_count: count as u16,
                        },
                        count,
                    )
                },
            }
        } else if count > 0xFFFF {
            p + plen
        } else {
            partition_body_stop(
                data,
                p + plen,
                PartitionHeader {
                    order: param as u8,
                    is_escape: false,
                    raw_bits: 0,
                    sample_count: count as u16,
                },
                count,
            )
        },
    }
}

/// The samples one partition at `p` yields before it stops: none when its
/// header fails, otherwise what its body yields.
pub open spec fn residual_partition_read(data: Seq<u8>, p: int, plen: nat, escape: u32, count: nat) -> Seq<
    i32,
> {
    match field(data, p, plen) {
        Err(_) => Seq::empty(),
        Ok(param) => if param == escape {
            match field(data, p + plen, 5) {
                Err(_) => Seq::empty(),
                Ok(raw) => if count > 0xFFFF {
                    Seq::empty()
                } else {
                    partition_body_read(
                        data,
                        p + plen + 5,
                        PartitionHeader {
                            order: 0,
                            is_escape: true,
                            raw_bits: raw as u8,
                            sample_count: count as u16,
                        },
                        count,
                    )
                },
            }
        } else if count > 0xFFFF {
            Seq::empty()
        } else {
            partition_body_read(
                data,
                p + plen,
                PartitionHeader {
                    order: param as u8,
                    is_escape: false,
                    raw_bits: 0,
                    sample_count: count as u16,
                },
                count,
            )
        },
    }
}

/// The first `n` partitions at bit `p`, concatenated: partition 0 carries
/// `psamples - order` samples, the others `psamples`.
pub open spec fn residual_partitions(
    data: Seq<u8>,
    p: int,
    plen: nat,
    escape: u32,
    psamples: nat,
    order: nat,
    n: nat,
) -> Result<(Seq<i32>, int), Error>
    decreases n,
{
    if n == 0 {
        Ok((Seq::empty(), p))
    } else {
        match residual_partitions(data, p, plen, escape, psamples, order, (n - 1) as nat) {
            Err(e) => Err(e),
            Ok((s, p1)) => {
                let count: nat = if n == 1 {
                    (psamples - order) as nat
                } else {
                    psamples
                };
                match residual_partition(data, p1, plen, escape, count) {
                    Err(e) => Err(e),
                    Ok((s2, p2)) => Ok((s + s2, p2)),
                }
            },
        }
    }
}

/// Where reading the first `n` partitions at `p` leaves the cursor.
#[verifier::opaque]
pub open spec fn residual_partitions_stop(
    data: Seq<u8>,
    p: int,
    plen: nat,
    escape: u32,
    psamples: nat,
    order: nat,
    n: nat,
) -> int
    decreases n,
{
    if n == 0 {
        p
    } else {
        match residual_partitions(data, p, plen, escape, psamples, order, (n - 1) as nat) {
            Err(_) => residual_partitions_stop(data, p, plen, escape, psamples, order, (n - 1) as nat),
            Ok((_, p1)) => {
                let count: nat = if n == 1 {
                    (psamples - order) as nat
                } else {
                    psamples
                };
                residual_partition_stop(data, p1, plen, escape, count)
            },
        }
    }
}

/// The samples the first `n` partitions at `p` yield before they stop.
#[verifier::opaque]
pub open spec fn residual_partitions_read(
    data: Seq<u8>,
    p: int,
    plen: nat,
    escape: u32,
    psamples: nat,
    order: nat,
    n: nat,
) -> Seq<i32>
    decreases n,
{
    if n == 0 {
        Seq::empty()
    } else {
        match residual_partitions(data, p, plen, escape, psamples, order, (n - 1) as nat) {
            Err(_) => residual_partitions_read(data, p, plen, escape, psamples, order, (n - 1) as nat),
            Ok((s, p1)) => {
                let count: nat = if n == 1 {
                    (psamples - order) as nat
                } else {
                    psamples
                };
                s + residual_partition_read(data, p1, plen, escape, count)
            },
        }
    }
}

/// A complete coded residual at bit `p` for a subframe of `blocksize`
/// samples and predictor order `order` (§9.2.7): the samples (there are
/// `blocksize - order` of them) and the bit position after the last one.
/// Stream rules enforced as [`Error::InvalidField`]: the reserved coding
/// methods, a block size not divisible by the partition count, and
/// partitions no longer than the predictor order.
pub open spec fn residual(data: Seq<u8>, p: int, blocksize: nat, order: nat) -> Result<
    (Seq<i32>, int),
    Error,
> {
    match field(data, p, 2) {
        Err(e) => Err(e),
        Ok(method) => if method > 1 {
            Err(Error::InvalidField)
        } else {
            let plen: nat = if method == 0 {
                4
            } else {
                5
            };
            let escape: u32 = if method == 0 {
                15
            } else {
                31
            };
            match field(data, p + 2, 4) {
                Err(e) => Err(e),
                Ok(po) => {
                    let parts = pow2(po as nat);
                    if blocksize % parts != 0 {
                        Err(Error::InvalidField)
                    } else if order >= blocksize / parts {
                        Err(Error::InvalidField)
                    } else {
                        residual_partitions(data, p + 6, plen, escape, blocksize / parts, order, parts)
                    }
                },
            }
        },
    }
}

/// Where reading a coded residual at `p` leaves the cursor: after it on
/// success; on an unreadable field, at that field; on a refused coding
/// method, after the method; on a refused partition order, after the order;
/// inside the partitions, where the first failing read stops.
pub open spec fn residual_stop(data: Seq<u8>, p: int, blocksize: nat, order: nat) -> int {
    match field(data, p, 2) {
        Err(_) => p,
        Ok(method) => if method > 1 {
            p + 2
        } else {
            let plen: nat = if method == 0 {
                4
            } else {
                5
            };
            let escape: u32 = if method == 0 {
                15
            } else {
                31
            };
            match field(data, p + 2, 4) {
                Err(_) => p + 2,
                Ok(po) => {
                    let parts = pow2(po as nat);
                    if blocksize % parts != 0 || order >= blocksize / parts {
                        p + 6
                    } else {
                        residual_partitions_stop(data, p + 6, plen, escape, blocksize / parts, order, parts)
                    }
                },
            }
        },
    }
}

/// The samples a coded residual at `p` yields before it stops: none when
/// its method or partition order fails or is refused, otherwise what its
/// partitions yield.
pub open spec fn residual_read(data: Seq<u8>, p: int, blocksize: nat, order: nat) -> Seq<i32> {
    match field(data, p, 2) {
        Err(_) => Seq::empty(),
        Ok(method) => if method > 1 {
            Seq::empty()
        } else {
            let plen: nat = if method == 0 {
                4
            } else {
                5
            };
            let escape: u32 = if method == 0 {
                15
            } else {
                31
            };
            match field(data, p + 2, 4) {
                Err(_) => Seq::empty(),
                Ok(po) => {
                    let parts = pow2(po as nat);
                    if blocksize % parts != 0 || order >= blocksize / parts {
                        Seq::empty()
                    } else {
                        residual_partitions_read(data, p + 6, plen, escape, blocksize / parts, order, parts)
                    }
                },
            }
        },
    }
}

/// Samples carried by the first `k` partitions (partition 0 is short by the
/// predictor order).
pub open spec fn partition_span(psamples: nat, order: nat, k: nat) -> int
    decreases k,
{
    if k == 0 {
        0
    } else if k == 1 {
        psamples - order
    } else {
        partition_span(psamples, order, (k - 1) as nat) + psamples
    }
}

/// All partitions together carry `partitions * psamples - order` samples.
pub proof fn lemma_span_total(psamples: nat, order: nat, k: nat)
    requires
        k >= 1,
    ensures
        partition_span(psamples, order, k) == k * psamples - order,
    decreases k,
{
    if k > 1 {
        lemma_span_total(psamples, order, (k - 1) as nat);
        assert((k - 1) * psamples + psamples == k * psamples) by (nonlinear_arith);
    } else {
        assert(1 * psamples == psamples) by (nonlinear_arith);
    }
}

/// The span only grows with more partitions.
pub proof fn lemma_span_monotone(psamples: nat, order: nat, j: nat, k: nat)
    requires
        j <= k,
        order < psamples,
    ensures
        partition_span(psamples, order, j) <= partition_span(psamples, order, k),
        partition_span(psamples, order, j) >= 0,
    decreases k - j,
{
    if j < k {
        lemma_span_monotone(psamples, order, j, (k - 1) as nat);
    } else if j > 0 {
        lemma_span_nonneg(psamples, order, j);
    }
}

proof fn lemma_span_nonneg(psamples: nat, order: nat, k: nat)
    requires
        order < psamples,
    ensures
        partition_span(psamples, order, k) >= 0,
    decreases k,
{
    if k > 1 {
        lemma_span_nonneg(psamples, order, (k - 1) as nat);
    }
}

/// Once the partition walk fails, every longer walk fails the same way.
pub proof fn lemma_partitions_err(
    data: Seq<u8>,
    p: int,
    plen: nat,
    escape: u32,
    psamples: nat,
    order: nat,
    n: nat,
    m: nat,
)
    requires
        n <= m,
        residual_partitions(data, p, plen, escape, psamples, order, n) is Err,
    ensures
        residual_partitions(data, p, plen, escape, psamples, order, m) == residual_partitions(
            data,
            p,
            plen,
            escape,
            psamples,
            order,
            n,
        ),
    decreases m - n,
{
    if n < m {
        lemma_partitions_err(data, p, plen, escape, psamples, order, n, (m - 1) as nat);
    }
}

/// Once the partition walk fails, a longer walk stops at the same place.
pub proof fn lemma_partitions_stop_err(
    data: Seq<u8>,
    p: int,
    plen: nat,
    escape: u32,
    psamples: nat,
    order: nat,
    n: nat,
    m: nat,
)
    requires
        n <= m,
        residual_partitions(data, p, plen, escape, psamples, order, n) is Err,
    ensures
        residual_partitions_stop(data, p, plen, escape, psamples, order, m)
            == residual_partitions_stop(data, p, plen, escape, psamples, order, n),
    decreases m - n,
{
    reveal(residual_partitions_stop);
    if n < m {
        lemma_partitions_stop_err(data, p, plen, escape, psamples, order, n, (m - 1) as nat);
        lemma_partitions_err(data, p, plen, escape, psamples, order, n, (m - 1) as nat);
    }
}

/// Once the partition walk fails, a longer walk yields the same samples.
pub proof fn lemma_partitions_read_err(
    data: Seq<u8>,
    p: int,
    plen: nat,
    escape: u32,
    psamples: nat,
    order: nat,
    n: nat,
    m: nat,
)
    requires
        n <= m,
        residual_partitions(data, p, plen, escape, psamples, order, n) is Err,
    ensures
        residual_partitions_read(data, p, plen, escape, psamples, order, m)
            == residual_partitions_read(data, p, plen, escape, psamples, order, n),
    decreases m - n,
{
    reveal(residual_partitions_read);
    if n < m {
        lemma_partitions_read_err(data, p, plen, escape, psamples, order, n, (m - 1) as nat);
        lemma_partitions_err(data, p, plen, escape, psamples, order, n, (m - 1) as nat);
    }
}

/// A partition yields at most its count of samples.
pub proof fn lemma_partition_read_count(data: Seq<u8>, p: int, plen: nat, escape: u32, count: nat)
    ensures
        residual_partition_read(data, p, plen, escape, count).len() <= count,
{
    if let Ok(param) = field(data, p, plen) {
        if param == escape {
            if let Ok(raw) = field(data, p + plen, 5) {
                lemma_partition_read_len(
                    data,
                    p + plen + 5,
                    PartitionHeader {
                        order: 0,
                        is_escape: true,
                        raw_bits: raw as u8,
                        sample_count: count as u16,
                    },
                    count,
                );
            }
        } else {
            lemma_partition_read_len(
                data,
                p + plen,
                PartitionHeader {
                    order: param as u8,
                    is_escape: false,
                    raw_bits: 0,
                    sample_count: count as u16,
                },
                count,
            );
        }
    }
}

/// A partition that fails after `part` good ones leaves the good ones'
/// samples and its own in the buffer.
proof fn lemma_partitions_read_step(
    d: Seq<u8>,
    p6: int,
    plen: nat,
    escape: u32,
    psamples: nat,
    order: nat,
    part: nat,
    pb: int,
    s_before: Seq<i32>,
    count: nat,
    base: Seq<i32>,
    mid: Seq<i32>,
    fin: Seq<i32>,
    start: int,
)
    requires
        residual_partitions(d, p6, plen, escape, psamples, order, part) == Ok::<(Seq<i32>, int), Error>(
            (s_before, pb),
        ),
        count == (if part == 0 {
            (psamples - order) as nat
        } else {
            psamples
        }),
        0 <= start,
        start + s_before.len() + count <= base.len(),
        mid.len() == base.len(),
        mid.subrange(start, start + s_before.len()) == s_before,
        forall|j: int|
            0 <= j < mid.len() && !(start <= j < start + s_before.len()) ==> mid[j] == base[j],
        fin == splice(mid, start + s_before.len(), residual_partition_read(d, pb, plen, escape, count)),
    ensures
        fin == splice(
            base,
            start,
            residual_partitions_read(d, p6, plen, escape, psamples, order, part + 1),
        ),
{
    reveal(residual_partitions_read);
    let pr = residual_partition_read(d, pb, plen, escape, count);
    lemma_partition_read_count(d, pb, plen, escape, count);
    assert(residual_partitions_read(d, p6, plen, escape, psamples, order, part + 1) == s_before + pr);
    assert(mid =~= splice(base, start, s_before));
    lemma_splice_twice(base, start, s_before, pr);
}

/// After `part` good partitions, the walk of `part + 1` stops where the
/// next partition does.
proof fn lemma_partitions_stop_step(
    d: Seq<u8>,
    p6: int,
    plen: nat,
    escape: u32,
    psamples: nat,
    order: nat,
    part: nat,
    pb: int,
    s_before: Seq<i32>,
    count: nat,
)
    requires
        residual_partitions(d, p6, plen, escape, psamples, order, part) == Ok::<(Seq<i32>, int), Error>(
            (s_before, pb),
        ),
        count == (if part == 0 {
            (psamples - order) as nat
        } else {
            psamples
        }),
    ensures
        residual_partitions_stop(d, p6, plen, escape, psamples, order, part + 1)
            == residual_partition_stop(d, pb, plen, escape, count),
{
    reveal(residual_partitions_stop);
}

/// Overwriting a window and then the window right after it is overwriting
/// both at once.
pub proof fn lemma_splice_twice(base: Seq<i32>, start: int, a: Seq<i32>, b: Seq<i32>)
    requires
        0 <= start,
        start + a.len() + b.len() <= base.len(),
    ensures
        splice(splice(base, start, a), start + a.len(), b) == splice(base, start, a + b),
{
    assert(splice(splice(base, start, a), start + a.len(), b) =~= splice(base, start, a + b));
}

/// `base` with the window starting at `start` overwritten by `s`.
pub open spec fn splice(base: Seq<i32>, start: int, s: Seq<i32>) -> Seq<i32> {
    base.take(start) + s + base.skip(start + s.len())
}

/// Once a partition body fails, every longer body fails the same way.
pub proof fn lemma_partition_err(data: Seq<u8>, p: int, hdr: PartitionHeader, n: nat, m: nat)
    requires
        n <= m,
        partition_body(data, p, hdr, n) is Err,
    ensures
        partition_body(data, p, hdr, m) == partition_body(data, p, hdr, n),
    decreases m - n,
{
    if n < m {
        lemma_partition_err(data, p, hdr, n, (m - 1) as nat);
    }
}

/// A successful body has as many samples as asked for.
pub proof fn lemma_partition_len(data: Seq<u8>, p: int, hdr: PartitionHeader, n: nat)
    requires
        partition_body(data, p, hdr, n) is Ok,
    ensures
        partition_body(data, p, hdr, n).unwrap().0.len() == n,
    decreases n,
{
    if n > 0 {
        lemma_partition_len(data, p, hdr, (n - 1) as nat);
    }
}

/// Unfold a Rice-folded residual: even `n → n / 2`, odd `n → -(n / 2) - 1`.
/// Total: `0xFFFF_FFFF` maps to `i32::MIN` (rejecting that value is the
/// partition decoder's job).
pub fn rice_unmap(n: u32) -> (r: i32)
    ensures
        r == unfolded(n as nat),
{
    let half = n >> 1;
    assert(half == n / 2) by (bit_vector)
        requires
            half == n >> 1,
    ;
    if n & 1 == 0 {
        assert(n & 1 == 0 ==> n % 2 == 0) by (bit_vector);
        half as i32
    } else {
        assert(n & 1 != 0 ==> n % 2 == 1) by (bit_vector);
        -(half as i32) - 1
    }
}

/// Read one Rice word with parameter `order`.
fn read_rice_word(reader: &mut BitReader<'_>, order: u32) -> (r: Result<i32, Error>)
    requires
        old(reader).wf(),
    ensures
        final(reader).wf(),
        final(reader).data() == old(reader).data(),
        match rice_word(old(reader).data(), old(reader).pos(), order as nat) {
            Ok((v, end)) => r == Ok::<i32, Error>(v) && final(reader).pos() == end,
            Err(e) => r == Err::<i32, Error>(e) && final(reader).pos() == rice_stop(
                old(reader).data(),
                old(reader).pos(),
                order as nat,
            ),
        },
{
    let ghost d = reader.data();
    let ghost p0 = reader.pos();
    let mut quotient: u32 = 0;
    loop
        invariant_except_break
            reader.pos() == p0 + quotient,
            zero_run(d, p0) == (match zero_run(d, reader.pos()) {
                Some(z) => Some((z + quotient) as nat),
                None => None::<nat>,
            }),
        invariant
            reader.wf(),
            reader.data() == d,
            d == old(reader).data(),
            p0 == old(reader).pos(),
            0 <= p0,
        ensures
            reader.pos() == p0 + quotient + 1,
            zero_run(d, p0) == Some(quotient as nat),
        decreases total_bits(d) - reader.pos(),
    {
        let ghost p = reader.pos();
        proof {
            lemma_bits_one(d, p);
            lemma_bits_bound(d, p, 1);
            lemma2_to64();
        }
        let b = match reader.read_bits(1) {
            Ok(b) => b,
            Err(e) => {
                assert(zero_run(d, p) is None);
                return Err(e);
            },
        };
        if b != 0 {
            break ;
        }
        quotient += 1;
    }
    let ghost q = quotient as nat;
    let ghost p1 = reader.pos();
    let remainder = if order == 0 {
        0
    } else {
        reader.read_bits(order)?
    };
    proof {
        if order > 0 {
            lemma_bits_bound(d, p1, order as nat);
        } else {
            lemma2_to64();
        }
    }
    if order >= 32 || quotient > (u32::MAX >> order) {
        proof {
            if order < 32 {
                vstd::bits::lemma_u32_mul_pow2_le_max_iff_max_shr(quotient, order, u32::MAX);
                lemma_pow2_pos(order as nat);
            }
        }
        return Err(Error::InvalidField);
    }
    proof {
        vstd::bits::lemma_u32_mul_pow2_le_max_iff_max_shr(quotient, order, u32::MAX);
        vstd::bits::lemma_u32_shl_is_mul(quotient, order);
        lemma_pow2_pos(order as nat);
        // quotient * 2^order is a multiple of 2^order below 2^32, so adding a
        // remainder below 2^order stays below 2^32.
        lemma_pow2_adds(order as nat, (32 - order) as nat);
        lemma2_to64();
        let a = pow2(order as nat);
        let b = pow2((32 - order) as nat);
        assert(quotient * a < b * a);
        assert(quotient < b) by (nonlinear_arith)
            requires
                quotient * a < b * a,
                a > 0,
        ;
        assert((quotient + 1) * a <= b * a) by (nonlinear_arith)
            requires
                quotient + 1 <= b,
                a > 0,
        ;
        assert(quotient * a + remainder < a * b) by (nonlinear_arith)
            requires
                (quotient + 1) * a <= b * a,
                remainder < a,
        ;
    }
    let folded = (quotient << order) + remainder;
    if folded == u32::MAX {
        return Err(Error::InvalidField);
    }
    Ok(rice_unmap(folded))
}

/// Read one sample of a partition.
fn read_partition_sample(reader: &mut BitReader<'_>, header: &PartitionHeader) -> (r: Result<
    i32,
    Error,
>)
    requires
        old(reader).wf(),
    ensures
        final(reader).wf(),
        final(reader).data() == old(reader).data(),
        match partition_sample(old(reader).data(), old(reader).pos(), *header) {
            Ok((v, end)) => r == Ok::<i32, Error>(v) && final(reader).pos() == end,
            Err(e) => r == Err::<i32, Error>(e) && final(reader).pos() == partition_sample_stop(
                old(reader).data(),
                old(reader).pos(),
                *header,
            ),
        },
{
    if header.is_escape {
        if header.raw_bits == 0 {
            Ok(0)
        } else {
            reader.read_signed(header.raw_bits as u32)
        }
    } else {
        read_rice_word(reader, header.order as u32)
    }
}

/// Decode one partition body into `out[start .. start + sample_count]`.
fn decode_partition_at(
    reader: &mut BitReader<'_>,
    header: &PartitionHeader,
    out: &mut [i32],
    start: usize,
) -> (r: Result<(), Error>)
    requires
        old(reader).wf(),
        start + header.sample_count <= old(out)@.len(),
    ensures
        final(reader).wf(),
        final(reader).data() == old(reader).data(),
        final(out)@.len() == old(out)@.len(),
        match partition_body(
            old(reader).data(),
            old(reader).pos(),
            *header,
            header.sample_count as nat,
        ) {
            Ok((s, end)) => r is Ok && final(reader).pos() == end && final(out)@ == splice(
                old(out)@,
                start as int,
                s,
            ),
            Err(e) => r == Err::<(), Error>(e) && final(reader).pos() == partition_body_stop(
                old(reader).data(),
                old(reader).pos(),
                *header,
                header.sample_count as nat,
            ) && final(out)@ == splice(
                old(out)@,
                start as int,
                partition_body_read(
                    old(reader).data(),
                    old(reader).pos(),
                    *header,
                    header.sample_count as nat,
                ),
            ),
        },
{
    let ghost d = reader.data();
    let ghost p0 = reader.pos();
    let count = header.sample_count as usize;
    let n = out.len();
    let mut i: usize = 0;
    assert(out@.subrange(start as int, start as int) =~= Seq::<i32>::empty());
    while i < count
        invariant
            reader.wf(),
            reader.data() == d,
            d == old(reader).data(),
            p0 == old(reader).pos(),
            count == header.sample_count,
            i <= count,
            start + count <= out@.len(),
            out@.len() == old(out)@.len(),
            out@.len() == n,
            partition_body(d, p0, *header, i as nat) == Ok::<(Seq<i32>, int), Error>(
                (out@.subrange(start as int, start + i), reader.pos()),
            ),
            forall|j: int|
                0 <= j < out@.len() && !(start <= j < start + i) ==> out@[j] == old(out)@[j],
        decreases count - i,
    {
        let ghost s_before = out@.subrange(start as int, start + i);
        let v = match read_partition_sample(reader, header) {
            Ok(v) => v,
            Err(e) => {
                proof {
                    lemma_partition_err(d, p0, *header, (i + 1) as nat, count as nat);
                    lemma_partition_stop_err(d, p0, *header, (i + 1) as nat, count as nat);
                    lemma_partition_read_err(d, p0, *header, (i + 1) as nat, count as nat);
                    assert(partition_body_read(d, p0, *header, (i + 1) as nat) == s_before);
                    assert(out@ =~= splice(old(out)@, start as int, s_before));
                }
                return Err(e);
            },
        };
        out[start + i] = v;
        proof {
            assert(out@.subrange(start as int, start + i + 1) =~= s_before.push(v));
        }
        i += 1;
    }
    proof {
        lemma_partition_len(d, p0, *header, count as nat);
        let s = out@.subrange(start as int, start + count);
        assert(out@ =~= splice(old(out)@, start as int, s));
    }
    Ok(())
}

/// Decode one partition's samples into `out` (§9.2.7.2 Rice words, or
/// §9.2.7.1 raw samples for an escaped partition). The parameter field was
/// read by the caller; this consumes the body only. `out.len()` must equal
/// `header.sample_count` — a mismatch is [`Error::InvalidField`] with
/// nothing read or written. On a stream error the cursor stays where the
/// failing read left it ([`partition_body_stop`]) and `out` begins with the
/// samples decoded before it ([`partition_body_read`]), the rest untouched.
pub fn decode_rice_partition(
    reader: &mut BitReader<'_>,
    header: &PartitionHeader,
    out: &mut [i32],
) -> (r: Result<(), Error>)
    requires
        old(reader).wf(),
    ensures
        final(reader).wf(),
        final(reader).data() == old(reader).data(),
        final(out)@.len() == old(out)@.len(),
        old(out)@.len() != header.sample_count ==> r == Err::<(), Error>(Error::InvalidField)
            && final(reader).pos() == old(reader).pos() && final(out)@ == old(out)@,
        old(out)@.len() == header.sample_count ==> match partition_body(
            old(reader).data(),
            old(reader).pos(),
            *header,
            header.sample_count as nat,
        ) {
            Ok((s, end)) => r is Ok && final(reader).pos() == end && final(out)@ == s,
            Err(e) => r == Err::<(), Error>(e) && final(reader).pos() == partition_body_stop(
                old(reader).data(),
                old(reader).pos(),
                *header,
                header.sample_count as nat,
            ) && final(out)@ == splice(
                old(out)@,
                0,
                partition_body_read(
                    old(reader).data(),
                    old(reader).pos(),
                    *header,
                    header.sample_count as nat,
                ),
            ),
        },
{
    if out.len() != header.sample_count as usize {
        return Err(Error::InvalidField);
    }
    let r = decode_partition_at(reader, header, out, 0);
    proof {
        if let Ok((s, _)) = partition_body(
            old(reader).data(),
            old(reader).pos(),
            *header,
            header.sample_count as nat,
        ) {
            lemma_partition_len(old(reader).data(), old(reader).pos(), *header, header.sample_count as nat);
            assert(final(out)@ =~= s);
        }
    }
    r
}

/// Read one partition's parameter (and raw width) and decode its `count`
/// samples into `out[start .. start + count]`.
fn decode_partition(
    reader: &mut BitReader<'_>,
    plen: u32,
    escape: u32,
    count: usize,
    out: &mut [i32],
    start: usize,
) -> (r: Result<(), Error>)
    requires
        old(reader).wf(),
        plen == 4 || plen == 5,
        start + count <= old(out)@.len(),
    ensures
        final(reader).wf(),
        final(reader).data() == old(reader).data(),
        final(out)@.len() == old(out)@.len(),
        match residual_partition(old(reader).data(), old(reader).pos(), plen as nat, escape, count as nat) {
            Ok((s, end)) => r is Ok && final(reader).pos() == end && final(out)@ == splice(
                old(out)@,
                start as int,
                s,
            ) && s.len() == count,
            Err(e) => r == Err::<(), Error>(e) && final(reader).pos() == residual_partition_stop(
                old(reader).data(),
                old(reader).pos(),
                plen as nat,
                escape,
                count as nat,
            ) && final(out)@ == splice(
                old(out)@,
                start as int,
                residual_partition_read(old(reader).data(), old(reader).pos(), plen as nat, escape, count as nat),
            ),
        },
{
    let ghost d = reader.data();
    let ghost pb = reader.pos();
    assert(splice(old(out)@, start as int, Seq::<i32>::empty()) =~= old(out)@);
    let param = reader.read_bits(plen)?;
    proof {
        lemma_bits_bound(d, pb, plen as nat);
        lemma2_to64();
    }
    let header = if param == escape {
        let raw = reader.read_bits(5)?;
        proof {
            lemma_bits_bound(d, pb + plen, 5);
        }
        PartitionHeader { order: 0, is_escape: true, raw_bits: raw as u8, sample_count: count as u16 }
    } else {
        PartitionHeader { order: param as u8, is_escape: false, raw_bits: 0, sample_count: count as u16 }
    };
    if count > 0xFFFF {
        return Err(Error::InvalidField);
    }
    let ghost pc = reader.pos();
    let r = decode_partition_at(reader, &header, out, start);
    proof {
        if r is Ok {
            lemma_partition_len(d, pc, header, count as nat);
        }
    }
    r
}

/// Decode `partitions` partitions into `out[start ..]`, partition 0 short
/// by the predictor order.
#[verifier::rlimit(80)]
fn decode_partitions(
    reader: &mut BitReader<'_>,
    plen: u32,
    escape: u32,
    psamples: usize,
    predictor_order: usize,
    partitions: usize,
    out: &mut [i32],
    start: usize,
) -> (r: Result<(), Error>)
    requires
        old(reader).wf(),
        plen == 4 || plen == 5,
        predictor_order < psamples,
        start + partition_span(psamples as nat, predictor_order as nat, partitions as nat) <= old(
            out,
        )@.len(),
    ensures
        final(reader).wf(),
        final(reader).data() == old(reader).data(),
        final(out)@.len() == old(out)@.len(),
        match residual_partitions(
            old(reader).data(),
            old(reader).pos(),
            plen as nat,
            escape,
            psamples as nat,
            predictor_order as nat,
            partitions as nat,
        ) {
            Ok((s, end)) => r is Ok && final(reader).pos() == end && final(out)@ == splice(
                old(out)@,
                start as int,
                s,
            ) && s.len() == partition_span(psamples as nat, predictor_order as nat, partitions as nat),
            Err(e) => r == Err::<(), Error>(e) && final(reader).pos() == residual_partitions_stop(
                old(reader).data(),
                old(reader).pos(),
                plen as nat,
                escape,
                psamples as nat,
                predictor_order as nat,
                partitions as nat,
            ) && final(out)@ == splice(
                old(out)@,
                start as int,
                residual_partitions_read(
                    old(reader).data(),
                    old(reader).pos(),
                    plen as nat,
                    escape,
                    psamples as nat,
                    predictor_order as nat,
                    partitions as nat,
                ),
            ),
        },
{
    let ghost d = reader.data();
    let ghost p6 = reader.pos();
    let n = out.len();
    let mut written: usize = 0;
    let mut part: usize = 0;
    proof {
        lemma_span_monotone(psamples as nat, predictor_order as nat, 0, partitions as nat);
    }
    assert(out@.subrange(start as int, start as int) =~= Seq::<i32>::empty());
    while part < partitions
        invariant
            reader.wf(),
            reader.data() == d,
            d == old(reader).data(),
            p6 == old(reader).pos(),
            plen == 4 || plen == 5,
            predictor_order < psamples,
            part <= partitions,
            written == partition_span(psamples as nat, predictor_order as nat, part as nat),
            start + partition_span(psamples as nat, predictor_order as nat, partitions as nat) <= out@.len(),
            out@.len() == old(out)@.len(),
            out@.len() == n,
            residual_partitions(
                d,
                p6,
                plen as nat,
                escape,
                psamples as nat,
                predictor_order as nat,
                part as nat,
            ) == Ok::<(Seq<i32>, int), Error>(
                (out@.subrange(start as int, start + written), reader.pos()),
            ),
            forall|j: int|
                0 <= j < out@.len() && !(start <= j < start + written) ==> out@[j] == old(out)@[j],
        decreases partitions - part,
    {
        let ghost s_before = out@.subrange(start as int, start + written);
        let ghost pb = reader.pos();
        let count = if part == 0 {
            psamples - predictor_order
        } else {
            psamples
        };
        proof {
            lemma_span_monotone(psamples as nat, predictor_order as nat, (part + 1) as nat, partitions as nat);
            assert(written + count == partition_span(psamples as nat, predictor_order as nat, (part + 1) as nat));
        }
        assert(start + written + count <= out@.len());
        let ghost out_mid = out@;
        match decode_partition(reader, plen, escape, count, out, start + written) {
            Ok(()) => {},
            Err(e) => {
                proof {
                    lemma_partitions_stop_step(
                        d,
                        p6,
                        plen as nat,
                        escape,
                        psamples as nat,
                        predictor_order as nat,
                        part as nat,
                        pb,
                        s_before,
                        count as nat,
                    );
                    lemma_partitions_read_step(
                        d,
                        p6,
                        plen as nat,
                        escape,
                        psamples as nat,
                        predictor_order as nat,
                        part as nat,
                        pb,
                        s_before,
                        count as nat,
                        old(out)@,
                        out_mid,
                        out@,
                        start as int,
                    );
                    lemma_partitions_read_err(
                        d,
                        p6,
                        plen as nat,
                        escape,
                        psamples as nat,
                        predictor_order as nat,
                        (part + 1) as nat,
                        partitions as nat,
                    );
                    lemma_partitions_err(
                        d,
                        p6,
                        plen as nat,
                        escape,
                        psamples as nat,
                        predictor_order as nat,
                        (part + 1) as nat,
                        partitions as nat,
                    );
                    lemma_partitions_stop_err(
                        d,
                        p6,
                        plen as nat,
                        escape,
                        psamples as nat,
                        predictor_order as nat,
                        (part + 1) as nat,
                        partitions as nat,
                    );
                }
                return Err(e);
            },
        }
        proof {
            let s2 = residual_partition(d, pb, plen as nat, escape, count as nat).unwrap().0;
            assert(out@.subrange(start as int, start + written + count) =~= s_before + s2);
        }
        written = written + count;
        part = part + 1;
    }
    proof {
        let s = out@.subrange(start as int, start + written);
        assert(out@ =~= splice(old(out)@, start as int, s));
    }
    Ok(())
}

/// Decode a coded residual into `out[start .. start + blocksize - order]`.
fn decode_residual_at(
    reader: &mut BitReader<'_>,
    blocksize: usize,
    predictor_order: usize,
    out: &mut [i32],
    start: usize,
) -> (r: Result<(), Error>)
    requires
        old(reader).wf(),
        predictor_order <= blocksize,
        start + (blocksize - predictor_order) <= old(out)@.len(),
    ensures
        final(reader).wf(),
        final(reader).data() == old(reader).data(),
        final(out)@.len() == old(out)@.len(),
        match residual(old(reader).data(), old(reader).pos(), blocksize as nat, predictor_order as nat) {
            Ok((s, end)) => r is Ok && final(reader).pos() == end && final(out)@ == splice(
                old(out)@,
                start as int,
                s,
            ) && s.len() == blocksize - predictor_order,
            Err(e) => r == Err::<(), Error>(e) && final(reader).pos() == residual_stop(
                old(reader).data(),
                old(reader).pos(),
                blocksize as nat,
                predictor_order as nat,
            ) && final(out)@ == splice(
                old(out)@,
                start as int,
                residual_read(old(reader).data(), old(reader).pos(), blocksize as nat, predictor_order as nat),
            ),
        },
{
    let ghost d = reader.data();
    let ghost p0 = reader.pos();
    assert(splice(old(out)@, start as int, Seq::<i32>::empty()) =~= old(out)@);
    let method = reader.read_bits(2)?;
    let (plen, escape): (u32, u32) = if method == 0 {
        (4, 15)
    } else if method == 1 {
        (5, 31)
    } else {
        return Err(Error::InvalidField);
    };
    let po = reader.read_bits(4)?;
    proof {
        lemma_bits_bound(d, p0 + 2, 4);
        lemma2_to64();
        lemma_pow2_strictly_increases(po as nat, 16);
        vstd::bits::lemma_usize_pow2_no_overflow(po as nat);
        vstd::bits::lemma_usize_shl_is_mul(1, po as usize);
        vstd::bits::lemma_usize_low_bits_mask_is_mod(blocksize, po as nat);
        vstd::bits::lemma_usize_shr_is_div(blocksize, po as usize);
        lemma_pow2_pos(po as nat);
    }
    let porder = po as usize;
    let partitions: usize = 1usize << porder;
    assert(partitions - 1 == vstd::bits::low_bits_mask(po as nat));
    if blocksize & (partitions - 1) != 0 {
        return Err(Error::InvalidField);
    }
    let psamples = blocksize >> porder;
    if predictor_order >= psamples {
        return Err(Error::InvalidField);
    }
    proof {
        assert(blocksize == partitions * psamples) by (nonlinear_arith)
            requires
                blocksize % partitions == 0,
                psamples == blocksize / partitions,
                partitions > 0,
        ;
        lemma_span_total(psamples as nat, predictor_order as nat, partitions as nat);
    }
    decode_partitions(reader, plen, escape, psamples, predictor_order, partitions, out, start)
}

/// Decode a complete coded residual (§9.2.7) into `out`, which receives the
/// `blocksize - predictor_order` residual samples. `predictor_order >
/// blocksize` or an `out` of any other length is [`Error::InvalidField`]
/// with nothing read or written. On a stream error the cursor stays where
/// the failing read left it ([`residual_stop`]) and `out` begins with the
/// samples decoded before it ([`residual_read`]), the rest untouched.
pub fn decode_residual(
    reader: &mut BitReader<'_>,
    blocksize: usize,
    predictor_order: usize,
    out: &mut [i32],
) -> (r: Result<(), Error>)
    requires
        old(reader).wf(),
    ensures
        final(reader).wf(),
        final(reader).data() == old(reader).data(),
        final(out)@.len() == old(out)@.len(),
        (predictor_order > blocksize || old(out)@.len() != blocksize - predictor_order) ==> r
            == Err::<(), Error>(Error::InvalidField) && final(reader).pos() == old(reader).pos()
            && final(out)@ == old(out)@,
        (predictor_order <= blocksize && old(out)@.len() == blocksize - predictor_order) ==> match residual(
            old(reader).data(),
            old(reader).pos(),
            blocksize as nat,
            predictor_order as nat,
        ) {
            Ok((s, end)) => r is Ok && final(reader).pos() == end && final(out)@ == s,
            Err(e) => r == Err::<(), Error>(e) && final(reader).pos() == residual_stop(
                old(reader).data(),
                old(reader).pos(),
                blocksize as nat,
                predictor_order as nat,
            ) && final(out)@ == splice(
                old(out)@,
                0,
                residual_read(old(reader).data(), old(reader).pos(), blocksize as nat, predictor_order as nat),
            ),
        },
{
    let total = match blocksize.checked_sub(predictor_order) {
        Some(t) => t,
        None => return Err(Error::InvalidField),
    };
    if out.len() != total {
        return Err(Error::InvalidField);
    }
    let r = decode_residual_at(reader, blocksize, predictor_order, out, 0);
    proof {
        if let Ok((s, _)) = residual(
            old(reader).data(),
            old(reader).pos(),
            blocksize as nat,
            predictor_order as nat,
        ) {
            assert(final(out)@ =~= s);
        }
    }
    r
}

/// A successful partition walk carries exactly the partitions' spans.
pub proof fn lemma_partitions_len(
    data: Seq<u8>,
    p: int,
    plen: nat,
    escape: u32,
    psamples: nat,
    order: nat,
    n: nat,
)
    requires
        order < psamples,
        residual_partitions(data, p, plen, escape, psamples, order, n) is Ok,
    ensures
        residual_partitions(data, p, plen, escape, psamples, order, n).unwrap().0.len()
            == partition_span(psamples, order, n),
    decreases n,
{
    if n > 0 {
        lemma_partitions_len(data, p, plen, escape, psamples, order, (n - 1) as nat);
        let p1 = residual_partitions(data, p, plen, escape, psamples, order, (n - 1) as nat).unwrap().1;
        let count: nat = if n == 1 {
            (psamples - order) as nat
        } else {
            psamples
        };
        let hp = residual_partition(data, p1, plen, escape, count);
        let param = field(data, p1, plen).unwrap();
        if param == escape {
            let raw = field(data, p1 + plen, 5).unwrap();
            lemma_partition_len(
                data,
                p1 + plen + 5,
                PartitionHeader {
                    order: 0,
                    is_escape: true,
                    raw_bits: raw as u8,
                    sample_count: count as u16,
                },
                count,
            );
        } else {
            lemma_partition_len(
                data,
                p1 + plen,
                PartitionHeader {
                    order: param as u8,
                    is_escape: false,
                    raw_bits: 0,
                    sample_count: count as u16,
                },
                count,
            );
        }
    }
}

/// A decoded residual holds one sample per block slot the warm-up did not
/// take: `blocksize - order` of them.
pub proof fn lemma_residual_len(data: Seq<u8>, p: int, blocksize: nat, order: nat)
    requires
        residual(data, p, blocksize, order) is Ok,
    ensures
        residual(data, p, blocksize, order).unwrap().0.len() == blocksize - order,
{
    let method = field(data, p, 2).unwrap();
    let plen: nat = if method == 0 {
        4
    } else {
        5
    };
    let escape: u32 = if method == 0 {
        15
    } else {
        31
    };
    let po = field(data, p + 2, 4).unwrap();
    let parts = pow2(po as nat);
    lemma_pow2_pos(po as nat);
    let psamples = blocksize / parts;
    lemma_partitions_len(data, p + 6, plen, escape, psamples, order, parts);
    lemma_span_total(psamples, order, parts);
    assert(parts * psamples == blocksize) by {
        vstd::arithmetic::div_mod::lemma_fundamental_div_mod(blocksize as int, parts as int);
    }
}

/// The partitions yield at most the samples they carry.
pub proof fn lemma_partitions_read_len(
    data: Seq<u8>,
    p: int,
    plen: nat,
    escape: u32,
    psamples: nat,
    order: nat,
    n: nat,
)
    requires
        order < psamples,
    ensures
        residual_partitions_read(data, p, plen, escape, psamples, order, n).len() <= partition_span(
            psamples,
            order,
            n,
        ),
    decreases n,
{
    reveal(residual_partitions_read);
    if n > 0 {
        let j = (n - 1) as nat;
        lemma_partitions_read_len(data, p, plen, escape, psamples, order, j);
        lemma_span_monotone(psamples, order, j, n);
        if residual_partitions(data, p, plen, escape, psamples, order, j) is Ok {
            lemma_partitions_len(data, p, plen, escape, psamples, order, j);
            let p1 = residual_partitions(data, p, plen, escape, psamples, order, j).unwrap().1;
            let count: nat = if n == 1 {
                (psamples - order) as nat
            } else {
                psamples
            };
            lemma_partition_read_count(data, p1, plen, escape, count);
        }
    }
}

/// A residual yields at most one sample per slot after the warm-up.
pub proof fn lemma_residual_read_len(data: Seq<u8>, p: int, blocksize: nat, order: nat)
    ensures
        residual_read(data, p, blocksize, order).len() <= blocksize - order || residual_read(
            data,
            p,
            blocksize,
            order,
        ).len() == 0,
{
    if let Ok(method) = field(data, p, 2) {
        if method <= 1 {
            let plen: nat = if method == 0 {
                4
            } else {
                5
            };
            let escape: u32 = if method == 0 {
                15
            } else {
                31
            };
            if let Ok(po) = field(data, p + 2, 4) {
                let parts = pow2(po as nat);
                lemma_pow2_pos(po as nat);
                let psamples = blocksize / parts;
                if blocksize % parts == 0 && order < psamples {
                    lemma_partitions_read_len(data, p + 6, plen, escape, psamples, order, parts);
                    lemma_span_total(psamples, order, parts);
                    assert(parts * psamples == blocksize) by {
                        vstd::arithmetic::div_mod::lemma_fundamental_div_mod(blocksize as int, parts as int);
                    }
                }
            }
        }
    }
}

} // verus!
