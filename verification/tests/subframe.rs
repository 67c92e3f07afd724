//! FIXED and LPC integration against oracle vectors, warm-up filling, and
//! the integrators' contract rejections.

use flac_lite::Error;
use flac_lite::bits::BitReader;
use flac_lite::subframe::{PredictorState, decode_subframe, integrate_fixed, integrate_lpc};

const FIXED0_RESID: [i32; 24] = [
    377, 402, 362, 391, 292, -77, -127, -33, 60, -60, -101, -441, -357, -417, -361, -479, -371,
    -706, -719, -523, -296, -118, 49, -137,
];
const FIXED0_EXPECT: [i32; 24] = FIXED0_RESID;

const FIXED1_WARM: [i32; 1] = [498];
const FIXED1_RESID: [i32; 24] = [
    -128, -54, 329, 129, -209, -76, 23, -110, 319, -182, -66, 128, 48, 96, 117, -322, -111,
    -256, 216, -219, 17, 10, 80, 6,
];
const FIXED1_EXPECT: [i32; 24] = [
    370, 316, 645, 774, 565, 489, 512, 402, 721, 539, 473, 601, 649, 745, 862, 540, 429, 173,
    389, 170, 187, 197, 277, 283,
];

const FIXED2_WARM: [i32; 2] = [-433, -142];
const FIXED2_RESID: [i32; 24] = [
    614, -456, 166, -405, 654, -65, -121, -346, 194, -124, 89, 22, 17, -233, 463, -39, 132,
    -448, 21, 123, -160, 35, 215, -396,
];
const FIXED2_EXPECT: [i32; 24] = [
    -110, -243, -210, -582, -300, -83, 13, -237, -293, -473, -564, -633, -685, -970, -792,
    -653, -382, -559, -715, -748, -941, -1099, -1042, -1381,
];

const FIXED3_WARM: [i32; 3] = [-226, 138, 50];
const FIXED3_RESID: [i32; 24] = [
    989, -922, 398, -22, 389, -643, 459, -90, -147, -371, 538, -212, 200, -155, 409, -672, 421,
    -203, 193, -27, 29, -697, 884, -349,
];
const FIXED3_EXPECT: [i32; 24] = [
    -53, -265, -464, -672, -500, -591, -486, -275, -105, -347, -463, -665, -753, -882, -643,
    -708, -656, -690, -617, -464, -202, -528, -558, -641,
];

const FIXED4_WARM: [i32; 4] = [518, 418, 289, 363];
const FIXED4_RESID: [i32; 24] = [
    120, 3, 820, -1450, 1251, -670, 58, 17, -86, 346, 149, -274, -657, 1146, -611, -580, 1257,
    -497, -65, -866, 1699, -1137, 44, 601,
];
const FIXED4_EXPECT: [i32; 24] = [
    477, 186, 356, 248, 374, 576, 754, 825, 620, 316, 239, 441, 317, 408, 644, 375, 208, 253,
    555, 293, 345, 452, 399, 572,
];

const LPC0_COEFFS: [i32; 1] = [64];
const LPC0_SHIFT: i8 = 6;
const LPC0_WARM: [i32; 1] = [-372];
const LPC0_RESID: [i32; 20] = [
    -99, 132, 13, 5, 191, -209, 159, -124, 142, 125, 356, -17, -177, 77, -5, -240, -177, -103,
    352, 140,
];
const LPC0_EXPECT: [i32; 20] = [
    -471, -339, -326, -321, -130, -339, -180, -304, -162, -37, 319, 302, 125, 202, 197, -43,
    -220, -323, 29, 169,
];

const LPC1_COEFFS: [i32; 2] = [96, -32];
const LPC1_SHIFT: i8 = 5;
const LPC1_WARM: [i32; 2] = [-670, -340];
const LPC1_RESID: [i32; 20] = [
    878, 909, 665, 997, 977, 1173, 1252, 1229, 986, 495, 736, 763, 587, 1122, 1047, 1094, 997,
    1018, 1956, 932,
];
const LPC1_EXPECT: [i32; 20] = [
    -792, -797, -934, -1008, -1113, -1158, -1109, -940, -725, -740, -759, -774, -976, -1032,
    -1073, -1093, -1209, -1516, -1383, -1701,
];

const LPC2_COEFFS: [i32; 4] = [80, 40, -20, -8];
const LPC2_SHIFT: i8 = 4;
const LPC2_WARM: [i32; 4] = [234, 493, 240, 346];
const LPC2_RESID: [i32; 20] = [
    -1776, -538, 171, -1652, -1226, -1595, -2705, -2455, -1183, -2159, -2005, -2199, -1880,
    -3709, -3481, -1898, -2570, -2768, -3035, -3069,
];
const LPC2_EXPECT: [i32; 20] = [
    153, 75, 389, 172, 436, 491, 430, 291, 515, 360, 503, 426, 800, 547, 470, 606, 551, 641,
    555, 316,
];

const LPC3_COEFFS: [i32; 5] = [-12345, 999, -7, 33, 4096];
const LPC3_SHIFT: i8 = 0;
const LPC3_WARM: [i32; 5] = [-64, 188, -158, -311, -170];
const LPC3_RESID: [i32; 20] = [
    -272583, -730021, -3920006, -3090565, -5874370, -4749244, -1994688, -4131982, -121137,
    3190315, -1377617, 3905411, 916380, 4159667, 7660184, 3755631, 677187, -377940, -1877786,
    3351499,
];
const LPC3_EXPECT: [i32; 20] = [
    -168, -383, -219, -515, -483, -328, -435, -217, 80, -215, 154, 15, 364, 579, 402, 93, 99,
    49, 409, 313,
];

const FILL0_BYTES: [u8; 5] = [217, 112, 141, 255, 240];
const FILL0_EXPECT: [i32; 3] = [-8, 567, -1234];
const FILL0_START_BITS: usize = 0;
const FILL0_ORDER: usize = 3;
const FILL0_BITS: u8 = 13;
const FILL0_WASTED: u32 = 0;

const FILL1_BYTES: [u8; 4] = [208, 17, 252, 224];
const FILL1_EXPECT: [i32; 2] = [-200, 136];
const FILL1_START_BITS: usize = 5;
const FILL1_ORDER: usize = 2;
const FILL1_BITS: u8 = 11;
const FILL1_WASTED: u32 = 3;

const FILL2_BYTES: [u8; 3] = [80, 0, 0];
const FILL2_EXPECT: [i32; 1] = [-32768];
const FILL2_START_BITS: usize = 3;
const FILL2_ORDER: usize = 1;
const FILL2_BITS: u8 = 16;
const FILL2_WASTED: u32 = 0;

const FILL3_BYTES: [u8; 5] = [180, 201, 56, 255, 0];
const FILL3_EXPECT: [i32; 4] = [-512, 508, -400, 400];
const FILL3_START_BITS: usize = 7;
const FILL3_ORDER: usize = 4;
const FILL3_BITS: u8 = 8;
const FILL3_WASTED: u32 = 2;

const COMBO_RESID: [i32; 6] = [5, -5, 7, 0, -1, 3];
const FILL0_COMBO_EXPECT: [i32; 6] = [-3, -8, -1, -1, -2, 1];
const FILL1_COMBO_EXPECT: [i32; 6] = [-195, -200, -193, -193, -194, -191];
const FILL2_COMBO_EXPECT: [i32; 6] = [-32763, -32768, -32761, -32761, -32762, -32759];
const FILL3_COMBO_EXPECT: [i32; 6] = [-507, -512, -505, -505, -506, -503];

/// Build scratch state from an already-most-recent-first warm-up slice
/// (the oracle emits warm-up in exactly the stored order).
fn warm_state(most_recent_first: &[i32]) -> PredictorState {
    let mut s = PredictorState::new();
    for (slot, &v) in s.warm_up.iter_mut().zip(most_recent_first) {
        *slot = v;
    }
    s.len = most_recent_first.len();
    s
}

const FIXED_COEFFS: [&[i32]; flac_lite::MAX_FIXED_ORDER + 1] =
    [&[], &[1], &[2, -1], &[3, -3, 1], &[4, -6, 4, -1]];

fn fixed_dot(order: usize, warm: &PredictorState, residual: &[i32], out: &mut [i32]) {
    for i in 0..residual.len() {
        let mut acc = i64::from(residual[i]);
        for (j, &c) in FIXED_COEFFS[order].iter().enumerate() {
            let past = if j < i {
                i64::from(out[i - 1 - j])
            } else {
                i64::from(warm.warm_up[j - i])
            };
            acc += i64::from(c) * past;
        }
        out[i] = acc as i32;
    }
}

fn lcg(seed: &mut u32) -> i32 {
    *seed = seed
        .wrapping_mul(1664525)
        .wrapping_add(1013904223)
        .wrapping_shr(16);
    (*seed % 4001) as i32 - 2000
}

#[test]
fn fixed_orders_recover_the_oracle_signal() {
    let cases: [(u8, &[i32], &[i32; 24], &[i32; 24]); 5] = [
        (0, &[0], &FIXED0_RESID, &FIXED0_EXPECT),
        (1, &FIXED1_WARM, &FIXED1_RESID, &FIXED1_EXPECT),
        (2, &FIXED2_WARM, &FIXED2_RESID, &FIXED2_EXPECT),
        (3, &FIXED3_WARM, &FIXED3_RESID, &FIXED3_EXPECT),
        (4, &FIXED4_WARM, &FIXED4_RESID, &FIXED4_EXPECT),
    ];
    for (order, warm, resid, expect) in cases {
        let mut out = [0i32; 24];
        out.copy_from_slice(resid);
        integrate_fixed(order, &warm_state(warm), &mut out)
            .unwrap_or_else(|e| panic!("FIXED order {order}: {e:?}"));
        assert_eq!(&out, expect, "FIXED order {order} vs oracle signal");
    }
}

#[test]
fn fixed_cascade_matches_table20_dot_product_on_vectors() {
    let cases: [(u8, &[i32], &[i32; 24]); 5] = [
        (0, &[0], &FIXED0_RESID),
        (1, &FIXED1_WARM, &FIXED1_RESID),
        (2, &FIXED2_WARM, &FIXED2_RESID),
        (3, &FIXED3_WARM, &FIXED3_RESID),
        (4, &FIXED4_WARM, &FIXED4_RESID),
    ];
    for (order, warm, resid) in cases {
        let st = warm_state(warm);
        let mut cascade = [0i32; 24];
        cascade.copy_from_slice(resid);
        integrate_fixed(order, &st, &mut cascade).unwrap();
        let mut dot = [0i32; 24];
        fixed_dot(usize::from(order), &st, resid, &mut dot);
        assert_eq!(cascade, dot, "FIXED order {order}: cascade vs dot product");
    }
}

#[test]
fn fixed_cascade_matches_dot_product_on_pseudo_random_residuals() {
    for order in 0..=flac_lite::MAX_FIXED_ORDER as u8 {
        let mut seed = 0x2545_F49Bu32 ^ (u32::from(order) * 7919);
        let mut resid = [0i32; 40];
        for r in resid.iter_mut() {
            *r = lcg(&mut seed);
        }
        let st = warm_state(&[7i32, -3, 9, -1][..usize::from(order)]);
        let mut cascade = resid;
        integrate_fixed(order, &st, &mut cascade).unwrap();
        let mut dot = [0i32; 40];
        fixed_dot(usize::from(order), &st, &resid, &mut dot);
        assert_eq!(cascade, dot, "FIXED order {order}: sweep");
    }
}

#[test]
fn lpc_recovers_the_oracle_signal() {
    let mut out = [0i32; 20];
    out.copy_from_slice(&LPC0_RESID);
    integrate_lpc(&LPC0_COEFFS, LPC0_SHIFT, &warm_state(&LPC0_WARM), &mut out).unwrap();
    assert_eq!(&out, &LPC0_EXPECT, "LPC case 0");

    out.copy_from_slice(&LPC1_RESID);
    integrate_lpc(&LPC1_COEFFS, LPC1_SHIFT, &warm_state(&LPC1_WARM), &mut out).unwrap();
    assert_eq!(&out, &LPC1_EXPECT, "LPC case 1 (negative accumulators)");

    out.copy_from_slice(&LPC2_RESID);
    integrate_lpc(&LPC2_COEFFS, LPC2_SHIFT, &warm_state(&LPC2_WARM), &mut out).unwrap();
    assert_eq!(&out, &LPC2_EXPECT, "LPC case 2");

    out.copy_from_slice(&LPC3_RESID);
    integrate_lpc(&LPC3_COEFFS, LPC3_SHIFT, &warm_state(&LPC3_WARM), &mut out).unwrap();
    assert_eq!(&out, &LPC3_EXPECT, "LPC case 3 (shift 0, extreme coeffs)");
}

#[test]
fn lpc_in_place_matches_separate_history_impl() {
    let coeffs = [64i32, -32, 16, -8];
    let shift = 4i8;
    let warm_mrf = [5i32, -9, 3, 11];
    let mut seed = 0xC0FF_EEu32;
    let mut resid = [0i32; 36];
    for r in resid.iter_mut() {
        *r = lcg(&mut seed);
    }
    let st = warm_state(&warm_mrf);
    let mut out = resid;
    integrate_lpc(&coeffs, shift, &st, &mut out).unwrap();

    const W: usize = 4; // warm-up length
    let mut hist = [0i32; W + 36];
    for m in 0..W {
        hist[W - 1 - m] = warm_mrf[m]; // oldest-first by absolute position
    }
    for i in 0..36usize {
        let mut acc = 0i64;
        for (j, &c) in coeffs.iter().enumerate() {
            acc += i64::from(c) * i64::from(hist[W + i - 1 - j]);
        }
        hist[W + i] = ((acc >> shift) + i64::from(resid[i])) as i32;
        assert_eq!(hist[W + i], out[i], "LPC sweep sample {i}");
    }
}

#[test]
fn lpc_shift_is_arithmetic_like_asr() {
    let mut resid = [0i32; 3];
    integrate_lpc(&[1i32], 1, &warm_state(&[-1]), &mut resid).unwrap();
    assert_eq!(resid, [-1, -1, -1]);
}

#[test]
fn fill_reads_pads_and_stores_most_recent_first() {
    let cases: [(&[u8], usize, usize, u8, u32, &[i32]); 4] = [
        (
            &FILL0_BYTES,
            FILL0_START_BITS,
            FILL0_ORDER,
            FILL0_BITS,
            FILL0_WASTED,
            &FILL0_EXPECT,
        ),
        (
            &FILL1_BYTES,
            FILL1_START_BITS,
            FILL1_ORDER,
            FILL1_BITS,
            FILL1_WASTED,
            &FILL1_EXPECT,
        ),
        (
            &FILL2_BYTES,
            FILL2_START_BITS,
            FILL2_ORDER,
            FILL2_BITS,
            FILL2_WASTED,
            &FILL2_EXPECT,
        ),
        (
            &FILL3_BYTES,
            FILL3_START_BITS,
            FILL3_ORDER,
            FILL3_BITS,
            FILL3_WASTED,
            &FILL3_EXPECT,
        ),
    ];
    for (idx, (bytes, start, order, bits, wasted, expect)) in cases.iter().enumerate() {
        let mut r = BitReader::new(bytes);
        if *start > 0 {
            r.read_bits((*start) as u32).unwrap();
        }
        let mut st = PredictorState::new();
        st.fill(&mut r, *order, *bits, *wasted)
            .unwrap_or_else(|e| panic!("fill case {idx}: {e:?}"));
        assert_eq!(st.len, *order, "fill case {idx}: len");
        assert_eq!(&st.warm_up[..*order], *expect, "fill case {idx}: state");
        assert_eq!(
            r.bit_position(),
            start + order * usize::from(*bits),
            "fill case {idx}: cursor lands on the next field"
        );
    }
}

#[test]
fn fill_commit_and_rejection_contracts() {
    let mut r = BitReader::new(&[]);
    let mut st = PredictorState::new();
    st.fill(&mut r, 0, 16, 0).unwrap();
    assert_eq!(st.len, 0);
    assert_eq!(r.bit_position(), 0);

    let mut st = warm_state(&[111, 222, 333]);
    let mut r = BitReader::new(&FILL0_BYTES[..3]); // 24 bits; order 3 wants 39
    assert_eq!(st.fill(&mut r, 3, 13, 0), Err(Error::EndOfStream));
    assert_eq!(st.len, 3, "state untouched on failure");
    assert_eq!(&st.warm_up[..3], &[111, 222, 333]);
    assert_eq!(r.bit_position(), 13, "one 13-bit read succeeded");

    let mut r = BitReader::new(&FILL0_BYTES);
    assert_eq!(st.fill(&mut r, 3, 13, 32), Err(Error::InvalidField));
    assert_eq!(r.bit_position(), 0);

    assert_eq!(
        st.fill(&mut r, flac_lite::MAX_LPC_ORDER + 1, 16, 0),
        Err(Error::UnsupportedPredictorOrder)
    );
    assert_eq!(r.bit_position(), 0);
}

#[test]
fn fill_pads_feed_the_integrator() {
    let cases: [(&[u8], usize, usize, u8, u32, &[i32; 6]); 4] = [
        (
            &FILL0_BYTES,
            FILL0_START_BITS,
            FILL0_ORDER,
            FILL0_BITS,
            FILL0_WASTED,
            &FILL0_COMBO_EXPECT,
        ),
        (
            &FILL1_BYTES,
            FILL1_START_BITS,
            FILL1_ORDER,
            FILL1_BITS,
            FILL1_WASTED,
            &FILL1_COMBO_EXPECT,
        ),
        (
            &FILL2_BYTES,
            FILL2_START_BITS,
            FILL2_ORDER,
            FILL2_BITS,
            FILL2_WASTED,
            &FILL2_COMBO_EXPECT,
        ),
        (
            &FILL3_BYTES,
            FILL3_START_BITS,
            FILL3_ORDER,
            FILL3_BITS,
            FILL3_WASTED,
            &FILL3_COMBO_EXPECT,
        ),
    ];
    for (idx, (bytes, start, order, bits, wasted, expect)) in cases.iter().enumerate() {
        let mut r = BitReader::new(bytes);
        if *start > 0 {
            r.read_bits((*start) as u32).unwrap();
        }
        let mut st = PredictorState::new();
        st.fill(&mut r, *order, *bits, *wasted).unwrap();
        let mut out = [0i32; 6];
        out.copy_from_slice(&COMBO_RESID);
        integrate_fixed(1, &st, &mut out).unwrap();
        assert_eq!(&out, *expect, "fill+FIXED1 combo case {idx}");
    }
}

#[test]
fn integrator_contract_rejections_write_nothing() {
    let st3 = warm_state(&[1, 2, 3]);
    let mut resid = [7i32; 4];

    assert_eq!(
        integrate_fixed(5, &st3, &mut resid),
        Err(Error::UnsupportedPredictorOrder)
    );
    assert_eq!(
        integrate_fixed(2, &warm_state(&[1]), &mut resid),
        Err(Error::InvalidField)
    );
    assert_eq!(resid, [7; 4], "FIXED rejections precede every write");

    assert_eq!(
        integrate_lpc(&[1, 2], -1, &st3, &mut resid),
        Err(Error::InvalidField)
    );
    assert_eq!(
        integrate_lpc(&[1i32; flac_lite::MAX_LPC_ORDER + 1], 0, &st3, &mut resid),
        Err(Error::UnsupportedPredictorOrder)
    );
    assert_eq!(
        integrate_lpc(&[1, 2, 3, 4], 0, &st3, &mut resid),
        Err(Error::InvalidField)
    );
    assert_eq!(
        integrate_lpc(&[1], 127, &st3, &mut resid),
        Err(Error::InvalidField)
    );
    assert_eq!(resid, [7; 4], "LPC rejections precede every write");
}

#[test]
fn decode_subframe_rejections_write_nothing() {
    // FIXED order 4 in a 2-sample block: refused before the type field is
    // consumed.
    let bytes = [0x18u8, 0x00];
    let mut r = BitReader::new(&bytes);
    let mut st = PredictorState::new();
    let mut out = [7i32; 2];
    assert_eq!(decode_subframe(&mut r, 2, 16, &mut st, &mut out), Err(Error::InvalidField));
    assert_eq!(r.bit_position(), 0);
    assert_eq!(out, [7, 7]);

    // Wrong output length: nothing read or written.
    let mut out = [7i32; 3];
    assert_eq!(decode_subframe(&mut r, 2, 16, &mut st, &mut out), Err(Error::InvalidField));
    assert_eq!(r.bit_position(), 0);
    assert_eq!(out, [7, 7, 7]);

    // FIXED order 0 with two wasted bits at a 2-bit sample size: the width
    // gate refuses after the wasted-bits field (7 + 3 bits).
    let bytes = [0x11u8, 0x40];
    let mut r = BitReader::new(&bytes);
    let mut out = [7i32; 4];
    assert_eq!(decode_subframe(&mut r, 4, 2, &mut st, &mut out), Err(Error::InvalidField));
    assert_eq!(r.bit_position(), 10);
    assert_eq!(out, [7; 4]);

    // LPC order 1, warm-up 5 at 16 bits, precision code 0b1111: refused
    // after the precision field, before anything is written.
    let bytes = [0x40u8, 0x00, 0x05, 0xF0];
    let mut r = BitReader::new(&bytes);
    let mut st = PredictorState::new();
    let mut out = [7i32; 4];
    assert_eq!(decode_subframe(&mut r, 4, 16, &mut st, &mut out), Err(Error::InvalidField));
    assert_eq!(r.bit_position(), 8 + 16 + 4);
    assert_eq!(out, [7; 4]);
    assert_eq!((st.len, st.warm_up[0]), (1, 5), "the warm-up was read");

    // Same, precision 4 and shift -1: refused after the shift field.
    let bytes = [0x40u8, 0x00, 0x05, 0x3F, 0x80];
    let mut r = BitReader::new(&bytes);
    let mut out = [7i32; 4];
    assert_eq!(decode_subframe(&mut r, 4, 16, &mut st, &mut out), Err(Error::InvalidField));
    assert_eq!(r.bit_position(), 8 + 16 + 9);
    assert_eq!(out, [7; 4]);

    // The reserved code check keeps the parse cursor (7 bits on).
    let bytes = [0x04u8, 0x00];
    let mut r = BitReader::new(&bytes);
    let mut out = [7i32; 4];
    assert_eq!(decode_subframe(&mut r, 4, 16, &mut st, &mut out), Err(Error::InvalidField));
    assert_eq!(r.bit_position(), 7);
    assert_eq!(out, [7; 4]);
}

#[test]
fn fill_stops_at_the_sample_that_cannot_be_read() {
    // Two 13-bit samples fit 24 bits, the third does not: the cursor sits
    // at 26 and the state is untouched.
    let mut st = PredictorState::new();
    let mut r = BitReader::new(&[0xAB, 0xCD, 0xEF, 0x12]);
    assert_eq!(st.fill(&mut r, 3, 13, 0), Err(Error::EndOfStream));
    assert_eq!(r.bit_position(), 26);
    assert_eq!(st.len, 0);
}

#[test]
fn decode_subframe_body_errors_stop_at_the_failing_read() {
    // VERBATIM, 8-bit samples, block of 3, only two samples present: the
    // cursor stays on the third.
    let bytes = [0x02u8, 0x05, 0x06];
    let mut r = BitReader::new(&bytes);
    let mut st = PredictorState::new();
    let mut out = [7i32; 3];
    assert_eq!(decode_subframe(&mut r, 3, 8, &mut st, &mut out), Err(Error::EndOfStream));
    assert_eq!(r.bit_position(), 24);
    assert_eq!(out, [5, 6, 7], "the samples read so far, the rest untouched");

    // CONSTANT whose sample is cut short: the cursor stays on it.
    let bytes = [0x00u8];
    let mut r = BitReader::new(&bytes);
    let mut out = [7i32; 3];
    assert_eq!(decode_subframe(&mut r, 3, 8, &mut st, &mut out), Err(Error::EndOfStream));
    assert_eq!(r.bit_position(), 8);
    assert_eq!(out, [7, 7, 7]);

    // FIXED order 0 whose residual names a reserved coding method: refused
    // after the method's two bits.
    let bytes = [0x10u8, 0b1100_0000];
    let mut r = BitReader::new(&bytes);
    let mut out = [7i32; 2];
    assert_eq!(decode_subframe(&mut r, 2, 8, &mut st, &mut out), Err(Error::InvalidField));
    assert_eq!(r.bit_position(), 10);
    assert_eq!(out, [7, 7]);

    // FIXED order 1, warm-up 3, one Rice word (2, parameter 1) and then a
    // unary run that meets the end: the warm-up and the residual read so
    // far (not yet integrated) are in place, the rest untouched.
    let bytes = [0x12u8, 0x03, 0x00, 0x48];
    let mut r = BitReader::new(&bytes);
    let mut out = [7i32; 4];
    assert_eq!(decode_subframe(&mut r, 4, 8, &mut st, &mut out), Err(Error::EndOfStream));
    assert_eq!(r.bit_position(), 32);
    assert_eq!(out, [3, 2, 7, 7]);
}
