//! The subframe encoder (RFC 9639 §9.2), written as spec functions that
//! produce bit strings, and the laws that tie it to the decoder: a subframe
//! laid out by the encoder decodes to the block that went in, scaled back up
//! by its wasted bits.
use vstd::prelude::*;
use vstd::arithmetic::power2::{pow2, lemma_pow2_pos, lemma2_to64, lemma_pow2_strictly_increases};

use crate::bits::{bit_at, field, signed_field, wasted_field, zero_run};
use crate::encoding::{
    bits_of, holds_bits, unary, twos, fits_signed, residual_code, residual_fits, lemma_holds_split,
    lemma_bits_of_len, lemma_field_of_bits, lemma_zero_run_unary, lemma_signed_round_trip,
    lemma_residual_round_trip,
};
use crate::residual::residual;
use crate::subframe::{
    SubframeType, type_of_code, subframe, subframe_head, subframe_body, signed_run, subframe_type, order_of, lpc_fields,
    lpc_rest, lpc_body, reconstruct, fixed_coeffs, padded,
};

verus! {

/// The 6-bit type code the encoder writes for a subframe type (Table 19):
/// 0 CONSTANT, 1 VERBATIM, `8 + o` FIXED of order `o`, `31 + o` LPC of
/// order `o`.
pub open spec fn type_code(kind: SubframeType) -> nat {
    match kind {
        SubframeType::Constant => 0,
        SubframeType::Verbatim => 1,
        SubframeType::Fixed(o) => (8 + o) as nat,
        SubframeType::Lpc { order } => (31 + order) as nat,
    }
}

/// A type the encoder can write: FIXED orders 0 to 4, LPC orders 1 to 32.
pub open spec fn valid_kind(kind: SubframeType) -> bool {
    match kind {
        SubframeType::Fixed(o) => o <= 4,
        SubframeType::Lpc { order } => 1 <= order <= 32,
        _ => true,
    }
}

/// The wasted-bits field for `w` wasted bits (§9.2.2): a clear flag for
/// none, otherwise a set flag and `w - 1` in unary.
pub open spec fn wasted_code(w: nat) -> Seq<nat> {
    if w == 0 {
        seq![0nat]
    } else {
        seq![1nat] + unary((w - 1) as nat)
    }
}

/// The first `n` samples of `xs`, each as `bits`-bit two's complement.
pub open spec fn twos_run(xs: Seq<i32>, bits: nat, n: nat) -> Seq<nat>
    decreases n,
{
    if n == 0 {
        Seq::empty()
    } else {
        twos_run(xs, bits, (n - 1) as nat) + bits_of(twos(xs[n - 1] as int, bits), bits)
    }
}

/// Every one of the first `n` samples fits `bits`-bit two's complement.
pub open spec fn all_fit(xs: Seq<i32>, bits: nat, n: nat) -> bool {
    forall|i: int| 0 <= i < n ==> fits_signed(#[trigger] xs[i] as int, bits)
}

/// The subframe header through the warm-up: a zero pad bit, the type code,
/// the wasted-bits field, then the warm-up samples at `sub` bits.
pub open spec fn head_code(kind: SubframeType, w: nat, sub: nat, warm: Seq<i32>) -> Seq<nat> {
    bits_of(0, 1) + bits_of(type_code(kind), 6) + wasted_code(w) + twos_run(warm, sub, warm.len())
}

/// The two LPC fields and the coefficients: `precision - 1` in 4 bits, the
/// shift in 5-bit two's complement, then each coefficient at `precision`
/// bits.
pub open spec fn lpc_fields_code(precision: nat, shift: nat, coeffs: Seq<i32>) -> Seq<nat> {
    bits_of((precision - 1) as nat, 4) + bits_of(twos(shift as int, 5), 5) + twos_run(
        coeffs,
        precision,
        coeffs.len(),
    )
}

/// The block `s` on the stripped scale, multiplied by `2^w`, as `i32`.
pub open spec fn scaled(s: Seq<i32>, w: nat) -> Seq<i32> {
    Seq::new(s.len(), |i: int| ((s[i] as int) * pow2(w)) as i32)
}

/// A run of two's-complement samples reads back as written.
pub proof fn lemma_run_round_trip(data: Seq<u8>, p: int, xs: Seq<i32>, bits: nat, n: nat)
    requires
        n <= xs.len(),
        bits <= 32,
        all_fit(xs, bits, n),
        holds_bits(data, p, twos_run(xs, bits, n)),
    ensures
        signed_run(data, p, bits, n) == Ok::<(Seq<i32>, int), crate::Error>(
            (xs.take(n as int), p + twos_run(xs, bits, n).len()),
        ),
    decreases n,
{
    if n == 0 {
        assert(xs.take(0) =~= Seq::<i32>::empty());
    } else {
        let m = (n - 1) as nat;
        let a = twos_run(xs, bits, m);
        let x = xs[m as int];
        let b = bits_of(twos(x as int, bits), bits);
        assert(fits_signed(xs[m as int] as int, bits));
        lemma_holds_split(data, p, a, b);
        lemma_run_round_trip(data, p, xs, bits, m);
        lemma_bits_of_len(twos(x as int, bits), bits);
        lemma_signed_round_trip(data, p + a.len(), x as int, bits);
        assert(xs.take(m as int).push(x) =~= xs.take(n as int));
    }
}

/// The wasted-bits field reads back as the count written.
pub proof fn lemma_wasted_round_trip(data: Seq<u8>, p: int, w: nat)
    requires
        holds_bits(data, p, wasted_code(w)),
    ensures
        wasted_code(w).len() == w + 1,
        wasted_field(data, p) == Ok::<(nat, int), crate::Error>((w, p + w + 1)),
{
    assert(wasted_code(w)[0] == (if w == 0 {
        0nat
    } else {
        1nat
    }));
    if w > 0 {
        let u = unary((w - 1) as nat);
        lemma_holds_split(data, p, seq![1nat], u);
        lemma_zero_run_unary(data, p + 1, (w - 1) as nat);
    }
}

/// A subframe header written by [`head_code`] reads back as written.
pub proof fn lemma_head_round_trip(
    data: Seq<u8>,
    p: int,
    kind: SubframeType,
    w: nat,
    sample_bits: nat,
    warm: Seq<i32>,
    blocksize: nat,
)
    requires
        valid_kind(kind),
        order_of(kind) <= blocksize,
        w < sample_bits,
        sample_bits - w <= 32,
        warm.len() == order_of(kind),
        all_fit(warm, (sample_bits - w) as nat, warm.len()),
        holds_bits(data, p, head_code(kind, w, (sample_bits - w) as nat, warm)),
    ensures
        subframe_head(data, p, blocksize, sample_bits) == Ok::<
            (SubframeType, nat, nat, Seq<i32>, int),
            crate::Error,
        >((kind, w, (sample_bits - w) as nat, warm, p + head_code(kind, w, (sample_bits - w) as nat, warm).len())),
{
    reveal(subframe_head);
    let sub = (sample_bits - w) as nat;
    let a = bits_of(0, 1);
    let b = bits_of(type_code(kind), 6);
    let c = wasted_code(w);
    let d = twos_run(warm, sub, warm.len());
    lemma_holds_split(data, p, a + b + c, d);
    lemma_holds_split(data, p, a + b, c);
    lemma_holds_split(data, p, a, b);
    lemma_bits_of_len(0, 1);
    lemma_bits_of_len(type_code(kind), 6);
    lemma2_to64();
    lemma_field_of_bits(data, p, 0, 1);
    lemma_field_of_bits(data, p + 1, type_code(kind), 6);
    assert(subframe_type(data, p) == Ok::<SubframeType, crate::Error>(kind));
    lemma_wasted_round_trip(data, p + 7, w);
    lemma_run_round_trip(data, p + 8 + w, warm, sub, warm.len());
    assert(warm.take(warm.len() as int) =~= warm);
}

/// A CONSTANT subframe (§9.2.3) written with value `v` at the subframe's
/// width and `w` wasted bits decodes to `blocksize` copies of `v * 2^w`,
/// ending right after the value.
pub proof fn lemma_constant_round_trip(
    data: Seq<u8>,
    p: int,
    v: int,
    w: nat,
    sample_bits: nat,
    blocksize: nat,
)
    requires
        w < sample_bits,
        sample_bits - w <= 32,
        fits_signed(v, (sample_bits - w) as nat),
        holds_bits(
            data,
            p,
            head_code(SubframeType::Constant, w, (sample_bits - w) as nat, Seq::empty()) + bits_of(
                twos(v, (sample_bits - w) as nat),
                (sample_bits - w) as nat,
            ),
        ),
    ensures
        subframe(data, p, blocksize, sample_bits) == Ok::<(SubframeType, Seq<i32>, int), crate::Error>(
            (
                SubframeType::Constant,
                Seq::new(blocksize, |i: int| (v * pow2(w)) as i32),
                p + 8 + w + (sample_bits - w),
            ),
        ),
{
    let sub = (sample_bits - w) as nat;
    let h = head_code(SubframeType::Constant, w, sub, Seq::empty());
    let body = bits_of(twos(v, sub), sub);
    lemma_holds_split(data, p, h, body);
    lemma_head_round_trip(data, p, SubframeType::Constant, w, sample_bits, Seq::empty(), blocksize);
    lemma_bits_of_len(0, 1);
    lemma_bits_of_len(type_code(SubframeType::Constant), 6);
    assert(wasted_code(w).len() == w + 1);
    assert(twos_run(Seq::<i32>::empty(), sub, 0).len() == 0);
    assert(h.len() == 8 + w);
    let p3 = p + h.len();
    lemma_signed_round_trip(data, p3, v, sub);
    let s = Seq::new(blocksize, |i: int| v as i32);
    assert(subframe_body(data, p3, SubframeType::Constant, blocksize, sub, Seq::empty()) == Ok::<
        (Seq<i32>, int),
        crate::Error,
    >((s, p3 + sub)));
    let target = Seq::new(blocksize, |i: int| (v * pow2(w)) as i32);
    assert(padded(s, w) =~= target);
    assert(subframe(data, p, blocksize, sample_bits) == Ok::<(SubframeType, Seq<i32>, int), crate::Error>(
        (SubframeType::Constant, target, p3 + sub),
    )) by {
        reveal(subframe);
    }
}

/// A VERBATIM subframe (§9.2.4) written with the samples `xs` at the
/// subframe's width and `w` wasted bits decodes to each sample times `2^w`,
/// ending right after the last one.
pub proof fn lemma_verbatim_round_trip(
    data: Seq<u8>,
    p: int,
    xs: Seq<i32>,
    w: nat,
    sample_bits: nat,
)
    requires
        w < sample_bits,
        sample_bits - w <= 32,
        all_fit(xs, (sample_bits - w) as nat, xs.len()),
        holds_bits(
            data,
            p,
            head_code(SubframeType::Verbatim, w, (sample_bits - w) as nat, Seq::empty()) + twos_run(
                xs,
                (sample_bits - w) as nat,
                xs.len(),
            ),
        ),
    ensures
        subframe(data, p, xs.len(), sample_bits) is Ok,
        subframe(data, p, xs.len(), sample_bits).unwrap().0 == SubframeType::Verbatim,
        subframe(data, p, xs.len(), sample_bits).unwrap().1 == scaled(xs, w),
{
    reveal(subframe);
    let sub = (sample_bits - w) as nat;
    let h = head_code(SubframeType::Verbatim, w, sub, Seq::empty());
    let body = twos_run(xs, sub, xs.len());
    lemma_holds_split(data, p, h, body);
    lemma_head_round_trip(data, p, SubframeType::Verbatim, w, sample_bits, Seq::empty(), xs.len());
    lemma_run_round_trip(data, p + h.len(), xs, sub, xs.len());
    assert(xs.take(xs.len() as int) =~= xs);
    assert(padded(xs, w) =~= scaled(xs, w));
}

/// A FIXED subframe (§9.2.5) of order `o` written with the warm-up `warm`
/// and a residual `res` laid out by the residual encoder decodes to the
/// warm-up followed by the FIXED reconstruction of the residual, every
/// sample times `2^w`.
pub proof fn lemma_fixed_round_trip(
    data: Seq<u8>,
    p: int,
    o: u8,
    w: nat,
    sample_bits: nat,
    warm: Seq<i32>,
    res: Seq<i32>,
    blocksize: nat,
    method: nat,
    po: nat,
    params: Seq<(nat, nat)>,
)
    requires
        o <= 4,
        o <= blocksize,
        w < sample_bits,
        sample_bits - w <= 32,
        warm.len() == o,
        all_fit(warm, (sample_bits - w) as nat, warm.len()),
        residual_fits(res, blocksize, o as nat, method, po, params),
        holds_bits(
            data,
            p,
            head_code(SubframeType::Fixed(o), w, (sample_bits - w) as nat, warm) + residual_code(
                res,
                blocksize,
                o as nat,
                method,
                po,
                params,
            ),
        ),
    ensures
        subframe(data, p, blocksize, sample_bits) is Ok,
        subframe(data, p, blocksize, sample_bits).unwrap().0 == SubframeType::Fixed(o),
        subframe(data, p, blocksize, sample_bits).unwrap().1 == scaled(
            warm + reconstruct(fixed_coeffs(o as nat), 0, warm, res),
            w,
        ),
{
    reveal(subframe);
    let sub = (sample_bits - w) as nat;
    let kind = SubframeType::Fixed(o);
    let h = head_code(kind, w, sub, warm);
    let body = residual_code(res, blocksize, o as nat, method, po, params);
    lemma_holds_split(data, p, h, body);
    lemma_head_round_trip(data, p, kind, w, sample_bits, warm, blocksize);
    lemma_residual_round_trip(data, p + h.len(), res, blocksize, o as nat, method, po, params);
    let s = warm + reconstruct(fixed_coeffs(o as nat), 0, warm, res);
    assert(padded(s, w) =~= scaled(s, w));
}

/// An LPC subframe (§9.2.6) of order `order` written with the warm-up
/// `warm`, coefficient precision `precision` (1 to 15 bits), a shift of 0
/// to 15, the coefficients `coeffs` at that precision and a residual `res`
/// laid out by the residual encoder decodes to the warm-up followed by the
/// LPC reconstruction of the residual, every sample times `2^w`.
pub proof fn lemma_lpc_round_trip(
    data: Seq<u8>,
    p: int,
    order: u8,
    w: nat,
    sample_bits: nat,
    warm: Seq<i32>,
    precision: nat,
    shift: nat,
    coeffs: Seq<i32>,
    res: Seq<i32>,
    blocksize: nat,
    method: nat,
    po: nat,
    params: Seq<(nat, nat)>,
)
    requires
        1 <= order <= 32,
        order <= blocksize,
        w < sample_bits,
        sample_bits - w <= 32,
        warm.len() == order,
        all_fit(warm, (sample_bits - w) as nat, warm.len()),
        1 <= precision <= 15,
        shift <= 15,
        coeffs.len() == order,
        all_fit(coeffs, precision, coeffs.len()),
        residual_fits(res, blocksize, order as nat, method, po, params),
        holds_bits(
            data,
            p,
            head_code(SubframeType::Lpc { order }, w, (sample_bits - w) as nat, warm) + lpc_fields_code(
                precision,
                shift,
                coeffs,
            ) + residual_code(res, blocksize, order as nat, method, po, params),
        ),
    ensures
        subframe(data, p, blocksize, sample_bits) is Ok,
        subframe(data, p, blocksize, sample_bits).unwrap().0 == (SubframeType::Lpc { order }),
        subframe(data, p, blocksize, sample_bits).unwrap().1 == scaled(
            warm + reconstruct(coeffs, shift, warm, res),
            w,
        ),
{
    reveal(subframe);
    let sub = (sample_bits - w) as nat;
    let kind = SubframeType::Lpc { order };
    let h = head_code(kind, w, sub, warm);
    let f = lpc_fields_code(precision, shift, coeffs);
    let body = residual_code(res, blocksize, order as nat, method, po, params);
    lemma_holds_split(data, p, h + f, body);
    lemma_holds_split(data, p, h, f);
    lemma_head_round_trip(data, p, kind, w, sample_bits, warm, blocksize);
    let p3 = p + h.len();
    let pm = bits_of((precision - 1) as nat, 4);
    let sh = bits_of(twos(shift as int, 5), 5);
    let cs = twos_run(coeffs, precision, coeffs.len());
    lemma_holds_split(data, p3, pm + sh, cs);
    lemma_holds_split(data, p3, pm, sh);
    lemma_bits_of_len((precision - 1) as nat, 4);
    lemma_bits_of_len(twos(shift as int, 5), 5);
    lemma2_to64();
    lemma_field_of_bits(data, p3, (precision - 1) as nat, 4);
    assert(fits_signed(shift as int, 5));
    lemma_signed_round_trip(data, p3 + 4, shift as int, 5);
    assert(lpc_fields(data, p3) == Ok::<(nat, nat), crate::Error>((precision, shift)));
    lemma_run_round_trip(data, p3 + 9, coeffs, precision, coeffs.len());
    assert(coeffs.take(coeffs.len() as int) =~= coeffs);
    lemma_residual_round_trip(data, p3 + 9 + cs.len(), res, blocksize, order as nat, method, po, params);
    let s = warm + reconstruct(coeffs, shift, warm, res);
    assert(padded(s, w) =~= scaled(s, w));
}

/// Table 19's reserved type codes (2 to 7, 13 to 31) and anything wider
/// than six bits are refused as [`crate::Error::InvalidField`].
pub proof fn lemma_reserved_type_codes(code: u32)
    requires
        2 <= code <= 7 || 13 <= code <= 31 || code >= 64,
    ensures
        type_of_code(code) == Err::<SubframeType, crate::Error>(crate::Error::InvalidField),
{
}

} // verus!
