//! The residual encoder (RFC 9639 §9.2.7), written as spec functions that
//! produce bit strings, and the law that ties it to the decoder: a residual
//! laid out by the encoder decodes to exactly the samples that went in, and
//! the cursor ends right after the last bit written.
//!
//! A bit string is a `Seq<nat>` of zeros and ones, most significant first;
//! [`holds_bits`] says a byte slice carries one at a given bit position.
use vstd::prelude::*;
use vstd::arithmetic::power2::{pow2, lemma_pow2_pos, lemma_pow2_unfold, lemma2_to64, lemma_pow2_strictly_increases};

use crate::bits::{bit_at, bits_msb, total_bits, field, signed_field, sign_extend, zero_run};
use crate::residual::{
    PartitionHeader, folded, unfolded, lemma_unfold_inverts_fold, rice_word, partition_sample, partition_body,
    residual_partition, residual_partitions, residual, partition_span, lemma_span_total, lemma_span_monotone,
};

verus! {

/// The `n` low bits of `v`, most significant first.
pub open spec fn bits_of(v: nat, n: nat) -> Seq<nat>
    decreases n,
{
    if n == 0 {
        Seq::empty()
    } else {
        bits_of(v / 2, (n - 1) as nat).push(v % 2)
    }
}

/// `data` carries the bit string `b` from bit `p` on.
pub open spec fn holds_bits(data: Seq<u8>, p: int, b: Seq<nat>) -> bool {
    &&& 0 <= p
    &&& p + b.len() <= total_bits(data)
    &&& forall|j: int| 0 <= j < b.len() ==> bit_at(data, p + j) == #[trigger] b[j]
}

/// A unary run: `q` zeros closed by a one.
pub open spec fn unary(q: nat) -> Seq<nat> {
    Seq::new(q, |i: int| 0nat).push(1nat)
}

/// The Rice code word of residual `x` with parameter `k` (§9.2.7.2): the
/// folded value's quotient by `2^k` in unary, then its remainder in `k`
/// bits.
pub open spec fn rice_code(x: int, k: nat) -> Seq<nat> {
    unary(folded(x) / pow2(k)) + bits_of(folded(x) % pow2(k), k)
}

/// A slice that carries `a + b` carries `a`, then `b` right after it.
pub proof fn lemma_holds_split(data: Seq<u8>, p: int, a: Seq<nat>, b: Seq<nat>)
    requires
        holds_bits(data, p, a + b),
    ensures
        holds_bits(data, p, a),
        holds_bits(data, p + a.len(), b),
{
    assert forall|j: int| 0 <= j < a.len() implies bit_at(data, p + j) == #[trigger] a[j] by {
        assert((a + b)[j] == a[j]);
    }
    assert forall|j: int| 0 <= j < b.len() implies bit_at(data, p + a.len() + j) == #[trigger] b[j] by {
        assert((a + b)[a.len() + j] == b[j]);
    }
}

/// `bits_of(v, n)` has `n` bits.
pub proof fn lemma_bits_of_len(v: nat, n: nat)
    ensures
        bits_of(v, n).len() == n,
    decreases n,
{
    if n > 0 {
        lemma_bits_of_len(v / 2, (n - 1) as nat);
    }
}

/// Reading back `n` bits written by [`bits_of`] gives the value written.
pub proof fn lemma_msb_of_bits(data: Seq<u8>, p: int, v: nat, n: nat)
    requires
        v < pow2(n),
        holds_bits(data, p, bits_of(v, n)),
    ensures
        bits_msb(data, p, n) == v,
    decreases n,
{
    lemma_bits_of_len(v, n);
    if n == 0 {
        assert(pow2(0) == 1) by {
            lemma2_to64();
        }
    } else {
        let m = (n - 1) as nat;
        let pre = bits_of(v / 2, m);
        lemma_bits_of_len(v / 2, m);
        lemma_pow2_unfold(n);
        assert forall|j: int| 0 <= j < pre.len() implies bit_at(data, p + j) == #[trigger] pre[j] by {
            assert(bits_of(v, n)[j] == pre[j]);
        }
        lemma_msb_of_bits(data, p, v / 2, m);
        assert(bits_of(v, n)[m as int] == v % 2);
        assert(bit_at(data, p + m) == v % 2);
    }
}

/// A field written by [`bits_of`] reads back as the value written.
pub proof fn lemma_field_of_bits(data: Seq<u8>, p: int, v: nat, n: nat)
    requires
        1 <= n <= 32,
        v < pow2(n),
        holds_bits(data, p, bits_of(v, n)),
    ensures
        field(data, p, n) == Ok::<u32, crate::Error>(v as u32),
{
    lemma_bits_of_len(v, n);
    lemma_msb_of_bits(data, p, v, n);
}

/// A unary run reads back as its count of zeros.
pub proof fn lemma_zero_run_unary(data: Seq<u8>, p: int, q: nat)
    requires
        holds_bits(data, p, unary(q)),
    ensures
        zero_run(data, p) == Some(q),
    decreases q,
{
    assert(unary(q)[0] == (if q == 0 {
        1nat
    } else {
        0nat
    }));
    if q > 0 {
        let rest = unary((q - 1) as nat);
        assert forall|j: int| 0 <= j < rest.len() implies bit_at(data, (p + 1) + j) == #[trigger] rest[j] by {
            assert(unary(q)[j + 1] == rest[j]);
        }
        lemma_zero_run_unary(data, p + 1, (q - 1) as nat);
    }
}

/// A Rice code word reads back as the residual it encodes, ending right
/// after its last bit: for every parameter below 32 and every residual
/// whose folded value is below `0xFFFF_FFFF`.
pub proof fn lemma_rice_round_trip(data: Seq<u8>, p: int, x: int, k: nat)
    requires
        k < 32,
        folded(x) < 0xFFFF_FFFF,
        holds_bits(data, p, rice_code(x, k)),
    ensures
        rice_word(data, p, k) == Ok::<(i32, int), crate::Error>((x as i32, p + rice_code(x, k).len())),
        x == x as i32,
{
    let f = folded(x);
    lemma_pow2_pos(k);
    let q = f / pow2(k);
    let r = f % pow2(k);
    let u = unary(q);
    let b = bits_of(r, k);
    lemma_bits_of_len(r, k);
    lemma_holds_split(data, p, u, b);
    lemma_zero_run_unary(data, p, q);
    vstd::arithmetic::div_mod::lemma_fundamental_div_mod(f as int, pow2(k) as int);
    vstd::arithmetic::div_mod::lemma_mod_pos_bound(f as int, pow2(k) as int);
    let p1 = p + q + 1;
    if k == 0 {
        assert(pow2(0) == 1) by {
            lemma2_to64();
        }
    } else {
        lemma2_to64();
        lemma_pow2_strictly_increases(k, 32);
        lemma_field_of_bits(data, p1, r, k);
    }
    lemma_unfold_inverts_fold(x);
    assert(zero_run(data, p) == Some(q));
    assert(q * pow2(k) + r == f);
    assert(rice_code(x, k).len() == q + 1 + k);
    if k == 0 {
        assert(rice_word(data, p, k) == Ok::<(i32, int), crate::Error>((unfolded(f) as i32, p1)));
    } else {
        assert(field(data, p1, k) == Ok::<u32, crate::Error>(r as u32));
        assert((r as u32) as nat == r);
        assert(rice_word(data, p, k) == Ok::<(i32, int), crate::Error>((unfolded(f) as i32, p1 + k)));
    }
}

/// The `w`-bit two's-complement pattern of `x` (for `x` in range).
pub open spec fn twos(x: int, w: nat) -> nat {
    if x >= 0 {
        x as nat
    } else {
        (x + pow2(w)) as nat
    }
}

/// `x` fits a `w`-bit two's-complement field.
pub open spec fn fits_signed(x: int, w: nat) -> bool {
    1 <= w && -pow2((w - 1) as nat) <= x < pow2((w - 1) as nat)
}

/// How one sample of a partition described by `hdr` is written: a Rice
/// word, or `raw_bits` two's-complement bits in an escaped partition
/// (nothing at all for a raw width of 0).
pub open spec fn sample_code(x: int, hdr: PartitionHeader) -> Seq<nat> {
    if hdr.is_escape {
        if hdr.raw_bits == 0 {
            Seq::empty()
        } else {
            bits_of(twos(x, hdr.raw_bits as nat), hdr.raw_bits as nat)
        }
    } else {
        rice_code(x, hdr.order as nat)
    }
}

/// `x` can be written as a sample of a partition described by `hdr`: a
/// Rice parameter below 32 and a folded value below `0xFFFF_FFFF` (any
/// `i32` but `i32::MIN`), or a raw width of 1 to 32 bits that holds it (0
/// bits hold only 0).
pub open spec fn sample_fits(x: int, hdr: PartitionHeader) -> bool {
    if hdr.is_escape {
        if hdr.raw_bits == 0 {
            x == 0
        } else {
            hdr.raw_bits <= 32 && fits_signed(x, hdr.raw_bits as nat)
        }
    } else {
        hdr.order < 32 && folded(x) < 0xFFFF_FFFF
    }
}

/// The first `n` samples of `xs`, written one after another.
pub open spec fn samples_code(xs: Seq<i32>, hdr: PartitionHeader, n: nat) -> Seq<nat>
    decreases n,
{
    if n == 0 {
        Seq::empty()
    } else {
        samples_code(xs, hdr, (n - 1) as nat) + sample_code(xs[n - 1] as int, hdr)
    }
}

/// A raw sample reads back as the value written.
pub proof fn lemma_signed_round_trip(data: Seq<u8>, p: int, x: int, w: nat)
    requires
        w <= 32,
        fits_signed(x, w),
        holds_bits(data, p, bits_of(twos(x, w), w)),
    ensures
        signed_field(data, p, w) == Ok::<i32, crate::Error>(x as i32),
        x == x as i32,
{
    lemma_pow2_unfold(w);
    lemma_pow2_pos((w - 1) as nat);
    lemma2_to64();
    if w < 32 {
        lemma_pow2_strictly_increases(w, 32);
        lemma_pow2_strictly_increases((w - 1) as nat, 31);
    }
    lemma_field_of_bits(data, p, twos(x, w), w);
    let v = twos(x, w);
    assert(((v as u32) as nat) == v);
    assert(sign_extend(v, w) == x);
}

/// One sample reads back as the value written.
pub proof fn lemma_sample_round_trip(data: Seq<u8>, p: int, x: i32, hdr: PartitionHeader)
    requires
        sample_fits(x as int, hdr),
        holds_bits(data, p, sample_code(x as int, hdr)),
    ensures
        partition_sample(data, p, hdr) == Ok::<(i32, int), crate::Error>(
            (x, p + sample_code(x as int, hdr).len()),
        ),
{
    if hdr.is_escape {
        if hdr.raw_bits > 0 {
            lemma_bits_of_len(twos(x as int, hdr.raw_bits as nat), hdr.raw_bits as nat);
            lemma_signed_round_trip(data, p, x as int, hdr.raw_bits as nat);
        }
    } else {
        lemma_rice_round_trip(data, p, x as int, hdr.order as nat);
    }
}

/// The first `n` samples of a partition body read back as written, ending
/// right after the last one.
pub proof fn lemma_body_round_trip(data: Seq<u8>, p: int, xs: Seq<i32>, hdr: PartitionHeader, n: nat)
    requires
        n <= xs.len(),
        forall|i: int| 0 <= i < n ==> sample_fits(#[trigger] xs[i] as int, hdr),
        holds_bits(data, p, samples_code(xs, hdr, n)),
    ensures
        partition_body(data, p, hdr, n) == Ok::<(Seq<i32>, int), crate::Error>(
            (xs.take(n as int), p + samples_code(xs, hdr, n).len()),
        ),
    decreases n,
{
    if n == 0 {
        assert(xs.take(0) =~= Seq::<i32>::empty());
    } else {
        let m = (n - 1) as nat;
        let a = samples_code(xs, hdr, m);
        let b = sample_code(xs[m as int] as int, hdr);
        lemma_holds_split(data, p, a, b);
        lemma_body_round_trip(data, p, xs, hdr, m);
        lemma_sample_round_trip(data, p + a.len(), xs[m as int], hdr);
        assert(xs.take(m as int).push(xs[m as int]) =~= xs.take(n as int));
    }
}

/// The header of a partition whose parameter field holds `param` (the
/// escape code `escape` announcing raw samples of `raw` bits), carrying
/// `count` samples.
pub open spec fn partition_header(escape: u32, param: nat, raw: nat, count: nat) -> PartitionHeader {
    if param == escape {
        PartitionHeader { order: 0, is_escape: true, raw_bits: raw as u8, sample_count: count as u16 }
    } else {
        PartitionHeader { order: param as u8, is_escape: false, raw_bits: 0, sample_count: count as u16 }
    }
}

/// One partition of samples `xs`, written with parameter `param` in `plen`
/// bits (and, for the escape code, the raw width `raw` in 5 bits), then its
/// samples.
pub open spec fn partition_code(xs: Seq<i32>, plen: nat, escape: u32, param: nat, raw: nat) -> Seq<nat> {
    let hdr = partition_header(escape, param, raw, xs.len());
    if param == escape {
        bits_of(param, plen) + bits_of(raw, 5) + samples_code(xs, hdr, xs.len())
    } else {
        bits_of(param, plen) + samples_code(xs, hdr, xs.len())
    }
}

/// The partition can be written so: the parameter fits its field, the raw
/// width its 5 bits, the count the header's 16 bits, and every sample its
/// code.
pub open spec fn partition_fits(xs: Seq<i32>, plen: nat, escape: u32, param: nat, raw: nat) -> bool {
    &&& param < pow2(plen)
    &&& raw < 32
    &&& xs.len() <= 0xFFFF
    &&& forall|i: int|
        0 <= i < xs.len() ==> sample_fits(#[trigger] xs[i] as int, partition_header(escape, param, raw, xs.len()))
}

/// The samples of partition `j` of a residual of `psamples`-sample
/// partitions whose first is short by the predictor order `order`.
pub open spec fn partition_slice(xs: Seq<i32>, psamples: nat, order: nat, j: nat) -> Seq<i32> {
    xs.subrange(partition_span(psamples, order, j), partition_span(psamples, order, j + 1))
}

/// The first `n` partitions, each with its own `(param, raw)` choice from
/// `params`, written one after another.
pub open spec fn partitions_code(
    xs: Seq<i32>,
    plen: nat,
    escape: u32,
    psamples: nat,
    order: nat,
    params: Seq<(nat, nat)>,
    n: nat,
) -> Seq<nat>
    decreases n,
{
    if n == 0 {
        Seq::empty()
    } else {
        let j = (n - 1) as nat;
        partitions_code(xs, plen, escape, psamples, order, params, j) + partition_code(
            partition_slice(xs, psamples, order, j),
            plen,
            escape,
            params[j as int].0,
            params[j as int].1,
        )
    }
}

/// Parameter field width of coding method `method` (0: 4 bits, 1: 5 bits).
pub open spec fn param_len(method: nat) -> nat {
    if method == 0 {
        4
    } else {
        5
    }
}

/// Escape code of coding method `method`: the all-ones parameter.
pub open spec fn escape_code(method: nat) -> u32 {
    if method == 0 {
        15
    } else {
        31
    }
}

/// A whole coded residual for the samples `xs` of a `blocksize`-sample
/// subframe of predictor order `order` (§9.2.7): coding method, partition
/// order `po`, then the `2^po` partitions with the choices in `params`.
pub open spec fn residual_code(
    xs: Seq<i32>,
    blocksize: nat,
    order: nat,
    method: nat,
    po: nat,
    params: Seq<(nat, nat)>,
) -> Seq<nat> {
    bits_of(method, 2) + bits_of(po, 4) + partitions_code(
        xs,
        param_len(method),
        escape_code(method),
        blocksize / pow2(po),
        order,
        params,
        pow2(po),
    )
}

/// The residual can be written so (§9.2.7's rules): a defined coding
/// method, a partition order of 4 bits that divides the block into
/// partitions longer than the predictor order, one sample per slot after
/// the warm-up, and a valid choice for every partition (which bounds each
/// partition to 65535 samples).
pub open spec fn residual_fits(
    xs: Seq<i32>,
    blocksize: nat,
    order: nat,
    method: nat,
    po: nat,
    params: Seq<(nat, nat)>,
) -> bool {
    let parts = pow2(po);
    let psamples = blocksize / parts;
    &&& method <= 1
    &&& po < 16
    &&& blocksize % parts == 0
    &&& order < psamples
    &&& xs.len() == blocksize - order
    &&& params.len() == parts
    &&& forall|j: nat|
        j < parts ==> partition_fits(
            partition_slice(xs, psamples, order, j),
            param_len(method),
            escape_code(method),
            (#[trigger] params[j as int]).0,
            params[j as int].1,
        )
}

/// One partition reads back as written.
pub proof fn lemma_partition_round_trip(
    data: Seq<u8>,
    p: int,
    xs: Seq<i32>,
    plen: nat,
    escape: u32,
    param: nat,
    raw: nat,
)
    requires
        plen == 4 || plen == 5,
        partition_fits(xs, plen, escape, param, raw),
        holds_bits(data, p, partition_code(xs, plen, escape, param, raw)),
    ensures
        residual_partition(data, p, plen, escape, xs.len()) == Ok::<(Seq<i32>, int), crate::Error>(
            (xs, p + partition_code(xs, plen, escape, param, raw).len()),
        ),
{
    let hdr = partition_header(escape, param, raw, xs.len());
    let pb = bits_of(param, plen);
    let body = samples_code(xs, hdr, xs.len());
    lemma_bits_of_len(param, plen);
    lemma_pow2_pos(plen);
    lemma2_to64();
    if param == escape {
        let rb = bits_of(raw, 5);
        lemma_bits_of_len(raw, 5);
        lemma_holds_split(data, p, pb + rb, body);
        lemma_holds_split(data, p, pb, rb);
        lemma_field_of_bits(data, p, param, plen);
        lemma_field_of_bits(data, p + plen, raw, 5);
        lemma_body_round_trip(data, p + plen + 5, xs, hdr, xs.len());
        assert(xs.take(xs.len() as int) =~= xs);
    } else {
        lemma_holds_split(data, p, pb, body);
        lemma_field_of_bits(data, p, param, plen);
        lemma_body_round_trip(data, p + plen, xs, hdr, xs.len());
        assert(xs.take(xs.len() as int) =~= xs);
    }
}

/// The first `n` partitions read back as written: the samples they carry,
/// in order, ending right after the last partition.
pub proof fn lemma_partitions_round_trip(
    data: Seq<u8>,
    p: int,
    xs: Seq<i32>,
    plen: nat,
    escape: u32,
    psamples: nat,
    order: nat,
    params: Seq<(nat, nat)>,
    parts: nat,
    n: nat,
)
    requires
        plen == 4 || plen == 5,
        order < psamples,
        1 <= parts,
        n <= parts,
        params.len() == parts,
        xs.len() == partition_span(psamples, order, parts),
        forall|j: nat|
            j < parts ==> partition_fits(
                partition_slice(xs, psamples, order, j),
                plen,
                escape,
                (#[trigger] params[j as int]).0,
                params[j as int].1,
            ),
        holds_bits(data, p, partitions_code(xs, plen, escape, psamples, order, params, n)),
    ensures
        residual_partitions(data, p, plen, escape, psamples, order, n) == Ok::<
            (Seq<i32>, int),
            crate::Error,
        >(
            (
                xs.take(partition_span(psamples, order, n)),
                p + partitions_code(xs, plen, escape, psamples, order, params, n).len(),
            ),
        ),
    decreases n,
{
    if n == 0 {
        assert(xs.take(0) =~= Seq::<i32>::empty());
    } else {
        let j = (n - 1) as nat;
        let a = partitions_code(xs, plen, escape, psamples, order, params, j);
        let sl = partition_slice(xs, psamples, order, j);
        let b = partition_code(sl, plen, escape, params[j as int].0, params[j as int].1);
        lemma_holds_split(data, p, a, b);
        lemma_partitions_round_trip(data, p, xs, plen, escape, psamples, order, params, parts, j);
        lemma_span_monotone(psamples, order, j, n);
        lemma_span_monotone(psamples, order, n, parts);
        let lo = partition_span(psamples, order, j);
        let hi = partition_span(psamples, order, n);
        assert(sl.len() == (if n == 1 {
            (psamples - order) as nat
        } else {
            psamples
        }));
        assert(partition_fits(sl, plen, escape, params[j as int].0, params[j as int].1));
        lemma_partition_round_trip(data, p + a.len(), sl, plen, escape, params[j as int].0, params[j as int].1);
        assert(xs.take(lo) + sl =~= xs.take(hi));
    }
}

/// A residual laid out by the encoder decodes to exactly the samples that
/// went in, and the cursor ends right after the last bit written: for every
/// coding method, partition order and per-partition choice of Rice
/// parameter or escaped raw width that §9.2.7 allows (see
/// [`residual_fits`]).
pub proof fn lemma_residual_round_trip(
    data: Seq<u8>,
    p: int,
    xs: Seq<i32>,
    blocksize: nat,
    order: nat,
    method: nat,
    po: nat,
    params: Seq<(nat, nat)>,
)
    requires
        residual_fits(xs, blocksize, order, method, po, params),
        holds_bits(data, p, residual_code(xs, blocksize, order, method, po, params)),
    ensures
        residual(data, p, blocksize, order) == Ok::<(Seq<i32>, int), crate::Error>(
            (xs, p + residual_code(xs, blocksize, order, method, po, params).len()),
        ),
{
    let parts = pow2(po);
    let psamples = blocksize / parts;
    let plen = param_len(method);
    let escape = escape_code(method);
    let mb = bits_of(method, 2);
    let pob = bits_of(po, 4);
    let rest = partitions_code(xs, plen, escape, psamples, order, params, parts);
    lemma_bits_of_len(method, 2);
    lemma_bits_of_len(po, 4);
    lemma2_to64();
    lemma_pow2_pos(po);
    lemma_holds_split(data, p, mb + pob, rest);
    lemma_holds_split(data, p, mb, pob);
    lemma_field_of_bits(data, p, method, 2);
    lemma_field_of_bits(data, p + 2, po, 4);
    lemma_span_total(psamples, order, parts);
    assert(parts * psamples == blocksize) by {
        vstd::arithmetic::div_mod::lemma_fundamental_div_mod(blocksize as int, parts as int);
    }
    lemma_partitions_round_trip(data, p + 6, xs, plen, escape, psamples, order, params, parts, parts);
    assert(xs.take(xs.len() as int) =~= xs);
}

/// The reserved coding methods `0b10` and `0b11` are refused as
/// [`crate::Error::InvalidField`], whatever follows.
pub proof fn lemma_reserved_methods(data: Seq<u8>, p: int, blocksize: nat, order: nat)
    requires
        field(data, p, 2) is Ok,
        field(data, p, 2).unwrap() >= 2,
    ensures
        residual(data, p, blocksize, order) == Err::<(Seq<i32>, int), crate::Error>(crate::Error::InvalidField),
{
}

} // verus!
