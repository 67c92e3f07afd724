//! Bit-reader behaviour: widths, cursor atomicity, MSB-first order, signed
//! and coded-number reads, alignment, and differential sweeps against a
//! naive bit oracle.

use flac_lite::Error;
use flac_lite::bits::{BitReader, crc16, crc8};

/// Independent oracle: bit `i` of the slice, MSB-first within each byte.
/// Deliberately naive so a shared bug with `peek_at` is unlikely.
fn ref_bit(data: &[u8], i: usize) -> u32 {
    u32::from((data[i >> 3] >> (7 - (i & 7))) & 1)
}

/// Deterministic pseudo-random bytes (LCG) — no_std-friendly, reproducible.
struct Lcg(u32);
impl Lcg {
    fn next_u8(&mut self) -> u8 {
        self.0 = self.0.wrapping_mul(1_664_525).wrapping_add(1_013_904_223);
        (self.0 >> 24) as u8
    }
}

#[test]
fn read_bits_rejects_out_of_range_widths() {
    let mut r = BitReader::new(&[0xFF; 4]);
    assert_eq!(r.read_bits(0), Err(Error::InvalidField));
    assert_eq!(r.read_bits(33), Err(Error::InvalidField));
    assert_eq!(r.read_bits(u32::MAX), Err(Error::InvalidField));
    assert_eq!(r.bit_position(), 0);
    assert_eq!(r.read_bits(32).unwrap(), 0xFFFF_FFFF);
}

#[test]
fn empty_slice_reports_end_of_stream() {
    let mut r = BitReader::new(&[]);
    assert_eq!(r.bits_remaining(), 0);
    assert_eq!(r.read_bits(1), Err(Error::EndOfStream));
    assert_eq!(r.bit_position(), 0);
}

#[test]
fn read_may_end_exactly_at_last_bit_but_not_one_past() {
    let mut r = BitReader::new(&[0xA5, 0x5A]);
    assert_eq!(r.read_bits(15).unwrap(), 0x52AD);
    assert_eq!(r.bits_remaining(), 1);
    assert_eq!(r.read_bits(1).unwrap(), 0); // last bit, exact fit: ok
    assert_eq!(r.bits_remaining(), 0);
    assert_eq!(r.bit_position(), 16);
    assert_eq!(r.read_bits(1), Err(Error::EndOfStream));
    assert_eq!(r.bit_position(), 16); // unchanged after failure
}

#[test]
fn failed_read_leaves_cursor_untouched_mid_stream() {
    let mut r = BitReader::new(&[0b1010_1010]);
    assert_eq!(r.read_bits(3).unwrap(), 0b101);
    assert_eq!(r.read_bits(6), Err(Error::EndOfStream)); // only 5 left
    assert_eq!(r.bit_position(), 3);
    assert_eq!(r.bits_remaining(), 5);
}

#[test]
fn nibbles_within_one_byte() {
    let mut r = BitReader::new(&[0xA5]); // 1010_0101
    assert_eq!(r.read_bits(4).unwrap(), 0xA);
    assert_eq!(r.read_bits(4).unwrap(), 0x5);
    assert_eq!(r.read_bits(1), Err(Error::EndOfStream));
}

#[test]
fn msb_first_bit_order() {
    let mut r = BitReader::new(&[0b1011_0100]);
    let mut got = [0u32; 8];
    for g in &mut got {
        *g = r.read_bits(1).unwrap();
    }
    assert_eq!(got, [1, 0, 1, 1, 0, 1, 0, 0]);
}

#[test]
fn read_spans_byte_boundary() {
    let mut r = BitReader::new(&[0x12, 0x34]); // 0001_0010 0011_0100
    assert_eq!(r.read_bits(12).unwrap(), 0x123);
    assert_eq!(r.read_bits(4).unwrap(), 0x4);
}

#[test]
fn full_32_bit_aligned_read() {
    let mut r = BitReader::new(&[0xDE, 0xAD, 0xBF, 0xAC]);
    assert_eq!(r.read_bits(32).unwrap(), 0xDEAD_BFAC);
    assert_eq!(r.bit_position(), 32);
}

#[test]
fn full_32_bit_unaligned_read_spans_five_bytes() {
    let mut r = BitReader::new(&[0xAB, 0xCD, 0xEF, 0x01, 0x23]);
    assert_eq!(r.read_bits(3).unwrap(), 0b101);
    assert_eq!(r.read_bits(32).unwrap(), 0x5E6F_7809);
}

#[test]
fn peek_matches_read_and_never_moves_cursor() {
    let mut r = BitReader::new(&[0xA5, 0x5A]);
    for _ in 0..3 {
        assert_eq!(r.peek_bits(7).unwrap(), 0b101_0010); // top 7 bits of 0xA5
        assert_eq!(r.bit_position(), 0); // ...and never move the cursor
    }
    assert_eq!(r.read_bits(7).unwrap(), 0b101_0010);
    assert_eq!(r.bit_position(), 7);
    for _ in 0..2 {
        assert_eq!(r.peek_bits(5).unwrap(), 0b10101); // bits [7..12)
        assert_eq!(r.bit_position(), 7);
    }
    assert_eq!(r.read_bits(5).unwrap(), 0b10101);
    assert_eq!(r.bit_position(), 12);
}

#[test]
fn peek_validates_widths_like_read() {
    let r = BitReader::new(&[0xFF; 4]);
    assert_eq!(r.peek_bits(0), Err(Error::InvalidField));
    assert_eq!(r.peek_bits(33), Err(Error::InvalidField));
    assert_eq!(r.peek_bits(u32::MAX), Err(Error::InvalidField));
    assert_eq!(r.bit_position(), 0);
    assert_eq!(r.peek_bits(32).unwrap(), 0xFFFF_FFFF);
    assert_eq!(r.bit_position(), 0);
}

#[test]
fn peek_eof_leaves_cursor_untouched() {
    let mut r = BitReader::new(&[0b1010_1010]);
    assert_eq!(r.read_bits(3).unwrap(), 0b101);
    assert_eq!(r.peek_bits(6), Err(Error::EndOfStream)); // only 5 left
    assert_eq!(r.bit_position(), 3);
    assert_eq!(r.peek_bits(5).unwrap(), 0b0_1010); // exactly what remains
    assert_eq!(r.bit_position(), 3);
    assert_eq!(r.read_bits(5).unwrap(), 0b0_1010);
    assert_eq!(r.peek_bits(1), Err(Error::EndOfStream));
    assert_eq!(r.bit_position(), 8);
}

#[test]
fn peek_32_bits_unaligned_covers_worst_case_span() {
    let mut r = BitReader::new(&[0xAB, 0xCD, 0xEF, 0x01, 0x23]);
    assert_eq!(r.read_bits(3).unwrap(), 0b101);
    for _ in 0..2 {
        assert_eq!(r.peek_bits(32).unwrap(), 0x5E6F_7809);
        assert_eq!(r.bit_position(), 3);
    }
    assert_eq!(r.read_bits(32).unwrap(), 0x5E6F_7809);
}

#[test]
fn peek_agrees_with_oracle_at_every_position() {
    let mut rng = Lcg(0xCAFE_F00D);
    let mut data = [0u8; 16];
    for d in &mut data {
        *d = rng.next_u8();
    }
    let total = data.len() * 8;

    for start in 0..total {
        let byte_start = start >> 3;
        let pad = start & 7;
        for width in 1..=32usize {
            let mut r = BitReader::new(&data[byte_start..]);
            if pad > 0 {
                let _ = r.read_bits(pad as u32).unwrap();
            }
            let pos = start - (byte_start * 8); // cursor within subslice
            match r.peek_bits(width as u32) {
                Ok(val) => {
                    assert_eq!(
                        r.bit_position(),
                        pos,
                        "peek must not move cursor: start {start}, width {width}"
                    );
                    let mut expect = 0u32;
                    for j in 0..width {
                        expect = (expect << 1) | ref_bit(&data, start + j);
                    }
                    assert_eq!(val, expect, "start {start}, width {width}");
                }
                Err(Error::EndOfStream) => assert!(start + width > total),
                Err(e) => panic!("unexpected at start {start}, width {width}: {e:?}"),
            }
        }
    }
}

/// Independent oracle: assemble `w` bits MSB-first from the naive bit
/// source, then sign-extend by **definition** — if the sign bit is set,
/// subtract 2^w (in `i64`, so `w == 32` cannot overflow). A genuinely
/// *different mechanism* than the shl+arith-shr implementation in
/// `read_signed`, so a shared bug is unlikely.
fn ref_signed(data: &[u8], start: usize, w: usize) -> i32 {
    let mut raw = 0u32;
    for j in 0..w {
        raw = (raw << 1) | ref_bit(data, start + j);
    }
    if raw & (1 << (w - 1)) == 0 {
        raw as i32 // sign bit clear: the raw bits *are* the value
    } else {
        (raw as i64 - (1i64 << w)) as i32 // raw - 2^w, the two's-complement definition
    }
}

#[test]
fn read_signed_hand_computed_fields() {
    let mut r = BitReader::new(&[0xF1, 0x23]);
    assert_eq!(r.read_signed(4).unwrap(), -1); // 1111 → -1
    assert_eq!(r.read_signed(4).unwrap(), 1); // 0001 → +1
    assert_eq!(r.read_signed(5).unwrap(), 4); // 00100 → +4 (sign bit 0)
    assert_eq!(r.read_signed(3).unwrap(), 3); // 011 → +3 (sign bit 0)
    assert_eq!(r.bits_remaining(), 0);
}

#[test]
fn read_signed_unaligned_crosses_byte_boundary() {
    let mut r = BitReader::new(&[0xBF, 0xF2]);
    assert_eq!(r.read_bits(3).unwrap(), 0b101); // re-align to bit 3
    assert_eq!(r.read_signed(12).unwrap(), -7); // bits [3..15) = 1111_1111_1001
}

#[test]
fn read_signed_extremes_per_width() {
    let mut r = BitReader::new(&[0xFF; 66]);
    for n in 1..=32u32 {
        assert_eq!(r.read_signed(n).unwrap(), -1, "width {n}");
    }
    assert_eq!(r.bit_position(), (1..=32u32).sum::<u32>() as usize); // 528 bits

    for n in 1..=32usize {
        let bytes = [0x80, 0, 0, 0, 0]; // bit 0 = 1, rest 0
        let mut r = BitReader::new(&bytes);
        let want = (i32::MIN >> (32 - n)) as i64;
        assert_eq!(r.read_signed(n as u32).unwrap() as i64, want, "width {n}");
    }
}

#[test]
fn read_signed_32_bit_boundary() {
    let mut r = BitReader::new(&[0xFF, 0xFF, 0xFF, 0xFF]);
    assert_eq!(r.read_signed(32).unwrap(), -1);
    let mut r = BitReader::new(&[0x80, 0, 0, 0]);
    assert_eq!(r.read_signed(32).unwrap(), i32::MIN);
    let mut r = BitReader::new(&[0x7F, 0xFF, 0xFF, 0xFF]);
    assert_eq!(r.read_signed(32).unwrap(), i32::MAX);
}

#[test]
fn read_signed_validates_widths_like_read() {
    let mut r = BitReader::new(&[0xFF; 4]);
    assert_eq!(r.read_signed(0), Err(Error::InvalidField));
    assert_eq!(r.read_signed(33), Err(Error::InvalidField));
    assert_eq!(r.read_signed(u32::MAX), Err(Error::InvalidField));
    assert_eq!(r.bit_position(), 0); // rejected reads must not move the cursor
}

#[test]
fn read_signed_eof_leaves_cursor_untouched() {
    let mut r = BitReader::new(&[0b1111_1111]);
    assert_eq!(r.read_signed(3).unwrap(), -1);
    assert_eq!(r.read_signed(6), Err(Error::EndOfStream)); // only 5 left
    assert_eq!(r.bit_position(), 3);
    assert_eq!(r.read_signed(5).unwrap(), -1); // exact fit on the last bits
    assert_eq!(r.bit_position(), 8);
    assert_eq!(r.read_signed(1), Err(Error::EndOfStream));
    assert_eq!(r.bit_position(), 8);
}

#[test]
fn read_signed_agrees_with_unsigned_plus_oracle() {
    let mut rng = Lcg(0x51ED_31ED);
    let mut data = [0u8; 16];
    for d in &mut data {
        *d = rng.next_u8();
    }
    let total = data.len() * 8;

    for start in 0..total {
        let byte_start = start >> 3;
        let pad = start & 7;
        for width in 1..=32usize {
            let mut r = BitReader::new(&data[byte_start..]);
            if pad > 0 {
                let _ = r.read_bits(pad as u32).unwrap();
            }
            let pos = start - (byte_start * 8); // cursor within subslice

            let unsigned_expect = {
                let mut u = BitReader::new(&data[byte_start..]);
                if pad > 0 {
                    let _ = u.read_bits(pad as u32).unwrap();
                }
                match u.read_bits(width as u32) {
                    Ok(v) => v,
                    Err(Error::EndOfStream) => {
                        assert!(start + width > total);
                        continue;
                    }
                    Err(e) => panic!("unsigned read failed: {e:?}"),
                }
            };
            let sign_extended =
                (((unsigned_expect << (32 - width)) as i32) >> (32 - width)) as i64;
            let oracle = ref_signed(&data, start, width) as i64;

            match r.read_signed(width as u32) {
                Ok(val) => {
                    assert_eq!(val as i64, sign_extended, "start {start}, width {width}");
                    assert_eq!(val as i64, oracle, "start {start}, width {width}");
                    assert_eq!(r.bit_position(), pad + width, "cursor must advance");
                }
                Err(Error::EndOfStream) => assert!(start + width > total),
                Err(e) => panic!("unexpected at start {start}, width {width}: {e:?}"),
            }
        }
    }
}

fn encode_coded(v: u64) -> ([u8; 7], usize) {
    const FORMS: [(u64, u8, u32); 7] = [
        (0x7F, 0x00, 1),          // 0xxxxxxx
        (0x7FF, 0xC0, 2),         // 110xxxxx
        (0xFFFF, 0xE0, 3),        // 1110xxxx
        (0x1F_FFFF, 0xF0, 4),     // 11110xxx
        (0x3FF_FFFF, 0xF8, 5),    // 111110xx: 2+24 = 26 payload bits
        (0x7F_FF_FF_FF, 0xFC, 6), // 1111110x
        (0xF_FFFF_FFFF, 0xFE, 7), // 11111110 + 6 continuations
    ];
    let mut out = [0u8; 7];
    for &(max, base, t) in FORMS.iter() {
        if v <= max {
            out[0] = base | (v >> (6 * (t - 1))) as u8;
            for i in 1..t {
                out[i as usize] = 0x80 | ((v >> (6 * (t - 1 - i))) & 0x3F) as u8;
            }
            return (out, t as usize);
        }
    }
    panic!("{v:#x} exceeds the 36-bit coded-number range");
}

#[test]
fn read_utf8_coded_single_byte_identity() {
    for lead in 0x00u8..=0x7F {
        let data = [lead];
        let mut r = BitReader::new(&data);
        assert_eq!(r.read_utf8_coded().unwrap(), u64::from(lead), "{lead:#04X}");
        assert_eq!(r.bit_position(), 8);
    }
}

#[test]
fn read_utf8_coded_rfc_table_vectors() {
    let cases: &[(&[u8], u64)] = &[
        (&[0x00], 0),
        (&[0x7F], 127),
        (&[0xC2, 0x80], 0x80),
        (&[0xDF, 0xBF], 0x7FF),
        (&[0xE0, 0xA0, 0x80], 0x800),
        (&[0xEF, 0xBF, 0xBF], 0xFFFF),
        (&[0xF0, 0x90, 0x80, 0x80], 0x1_0000),
        (&[0xF1, 0x80, 0x80, 0x80], 0x4_0000), // lead payload 0b0001 << 18
        (&[0xF7, 0xBF, 0xBF, 0xBF], 0x1F_FFFF),
        (&[0xF8, 0x88, 0x80, 0x80, 0x80], 0x20_0000),
        (&[0xFB, 0xBF, 0xBF, 0xBF, 0xBF], 0x3_FFFF_FF), // 26-bit max of the 5-byte form
        (&[0xFC, 0x84, 0x80, 0x80, 0x80, 0x80], 0x400_0000),
        (&[0xFD, 0xBF, 0xBF, 0xBF, 0xBF, 0xBF], 0x7F_FF_FF_FF),
        (&[0xFE, 0x80, 0x80, 0x80, 0x80, 0x80, 0x80], 0), // non-canonical zero
        (&[0xFE, 0x82, 0x80, 0x80, 0x80, 0x80, 0x80], 0x8000_0000), // 2^31, table minimum
        (&[0xFE, 0xBF, 0xBF, 0xBF, 0xBF, 0xBF, 0xBF], 0xF_FFFF_FFFF), // 36-bit max
        (&[0xFE, 0xAF, 0x9F, 0xB5, 0xA3, 0xB8, 0x80], 51_000_000_000), // RFC worked example
    ];
    for &(bytes, want) in cases {
        let mut r = BitReader::new(bytes);
        assert_eq!(r.read_utf8_coded().unwrap(), want, "{bytes:02X?}");
        assert_eq!(r.bit_position(), bytes.len() * 8, "{bytes:02X?}");
    }
}

#[test]
fn read_utf8_coded_rejects_invalid_forms_cursor_untouched() {
    let cases: &[&[u8]] = &[
        &[0x80],             // stray continuation lead
        &[0xBF],             // stray continuation lead (upper)
        &[0xFF],             // prefix == 8: the invalid all-ones lead
        &[0xC2, 0x00],       // second octet is not 10xxxxxx
        &[0xC2, 0xC0],       // continuation bit pattern broken (11…)
        &[0xDF, 0x3F],       // continuation bit pattern broken (00…)
        &[0xE0, 0xA0, 0x00], // third octet not a continuation
    ];
    for &bytes in cases {
        let mut r = BitReader::new(bytes);
        assert_eq!(
            r.read_utf8_coded(),
            Err(Error::InvalidField),
            "{bytes:02X?}"
        );
        assert_eq!(r.bit_position(), 0, "atomic: {bytes:02X?}");
    }
    for lead in 0x80u8..0xC0 {
        let data = [lead, 0x80];
        let mut r = BitReader::new(&data);
        assert_eq!(r.read_utf8_coded(), Err(Error::InvalidField), "{lead:#04X}");
        assert_eq!(r.bit_position(), 0);
    }
}

#[test]
fn read_utf8_coded_truncation_restores_cursor() {
    let truncated = [0xFC, 0xBF, 0xBF, 0xBF, 0xBF]; // needs 6 octets, has 5
    let mut r = BitReader::new(&truncated);
    assert_eq!(r.read_utf8_coded(), Err(Error::EndOfStream));
    assert_eq!(r.bit_position(), 0);
    let full = [0xFC, 0xBF, 0xBF, 0xBF, 0xBF, 0xBF];
    let mut r = BitReader::new(&full);
    assert_eq!(r.read_utf8_coded().unwrap(), 0x3F_FF_FF_FF);
    assert_eq!(r.bit_position(), 48);
    let mut r = BitReader::new(&[0xFE]);
    assert_eq!(r.read_utf8_coded(), Err(Error::EndOfStream));
    assert_eq!(r.bit_position(), 0);
}

#[test]
fn read_utf8_coded_two_byte_form_exhaustive() {
    for lead in 0xC0u8..0xE0 {
        for cont in 0x80u8..0xC0 {
            let data = [lead, cont];
            let mut r = BitReader::new(&data);
            let want = (u64::from(lead & 0x1F) << 6) | u64::from(cont & 0x3F);
            assert_eq!(r.read_utf8_coded().unwrap(), want, "{lead:02X} {cont:02X}");
            assert_eq!(r.bit_position(), 16);
        }
    }
}

#[test]
fn read_utf8_coded_sequential_numbers_pack_back_to_back() {
    let data = [
        0x00, // 0
        0xC2, 0x80, // 0x80
        0xFE, 0xAF, 0x9F, 0xB5, 0xA3, 0xB8, 0x80, // 51e9
        0x7F, // 127
    ];
    let mut r = BitReader::new(&data);
    assert_eq!(r.read_utf8_coded().unwrap(), 0);
    assert_eq!(r.read_utf8_coded().unwrap(), 0x80);
    assert_eq!(r.read_utf8_coded().unwrap(), 51_000_000_000);
    assert_eq!(r.read_utf8_coded().unwrap(), 127);
    assert_eq!(r.bit_position(), data.len() as usize * 8);
    assert_eq!(r.read_utf8_coded(), Err(Error::EndOfStream));
    assert_eq!(r.bit_position(), data.len() as usize * 8);
}

#[test]
fn read_utf8_coded_roundtrips_at_every_bit_alignment() {
    let boundaries: &[u64] = &[
        0,
        1,
        0x7E,
        0x7F,
        0x80,
        0x7FE,
        0x7FF,
        0x800,
        0xFFFE,
        0xFFFF,
        0x1_0000,
        0x1F_FFFE,
        0x1F_FFFF,
        0x20_0000,
        0x3_FFFF_FE,
        0x3_FFFF_FF,
        0x400_0000,
        0x7F_FF_FF_FE,
        0x7F_FF_FF_FF,
        0x8000_0000,
        0xF_FFFF_FFFE,
        0xF_FFFF_FFFF,
    ];
    let mut rng = Lcg(0xFEED_C0DE);
    let mut samples: [u64; 64 + 22] = [0; 64 + 22];
    let mut n = 0usize;
    for &b in boundaries {
        samples[n] = b;
        n += 1;
    }
    while n < samples.len() {
        let mut v = 0u64;
        for _ in 0..5 {
            v = (v << 8) | u64::from(rng.next_u8());
        }
        samples[n] = v & 0xF_FFFF_FFFF; // clamp into the 36-bit range
        n += 1;
    }

    for &val in &samples[..n] {
        let (enc, len) = encode_coded(val);
        for pad in 0..8usize {
            let total_bits = pad + len * 8;
            let mut data = [0u8; 16];
            for i in 0..total_bits {
                let bit = if i < pad {
                    (i as u8 * 37 + 11) & 1
                } else {
                    let j = i - pad;
                    (enc[j >> 3] >> (7 - (j & 7))) & 1
                };
                data[i >> 3] |= bit << (7 - (i & 7));
            }
            let mut r = BitReader::new(&data);
            if pad > 0 {
                let _ = r.read_bits(pad as u32).unwrap(); // reach the alignment
            }
            let before = r.bit_position();
            assert_eq!(
                r.read_utf8_coded().unwrap(),
                val,
                "val {val:#x}, pad {pad}, enc {:?}",
                &enc[..len]
            );
            assert_eq!(r.bit_position(), before + len * 8);
        }
    }
}

#[test]
fn byte_align_drops_the_expected_bits_at_every_alignment() {
    let data = [0b1111_0001, 0b0000_1110, 0b1010_1010, 0xFF];
    for pad in 0..8usize {
        let mut r = BitReader::new(&data);
        if pad > 0 {
            let _ = r.read_bits(pad as u32).unwrap();
        }
        let want_drop = if pad == 0 { 0 } else { 8 - pad };
        assert_eq!(r.byte_align() as usize, want_drop, "pad {pad}");
        assert_eq!(r.bit_position(), pad + want_drop, "pad {pad}");
        assert_eq!(r.bit_position() % 8, 0, "pad {pad}: must land aligned");
        assert_eq!(r.bits_remaining(), data.len() * 8 - (pad + want_drop));
    }
}

#[test]
fn byte_align_is_idempotent_on_an_aligned_cursor() {
    let mut r = BitReader::new(&[0xA5, 0x5A]);
    assert_eq!(r.byte_align(), 0);
    assert_eq!(r.bit_position(), 0);
    assert_eq!(r.read_bits(3).unwrap(), 0b101);
    assert_eq!(r.byte_align(), 5);
    assert_eq!(r.bit_position(), 8);
    assert_eq!(r.byte_align(), 0);
    assert_eq!(r.byte_align(), 0);
    assert_eq!(r.bit_position(), 8);
}

#[test]
fn byte_align_returns_bits_dropped_not_the_new_position() {
    let mut r = BitReader::new(&[0u8; 4]);
    assert_eq!(r.read_bits(11).unwrap(), 0);
    assert_eq!(r.byte_align(), 5);
    assert_eq!(r.bit_position(), 16);
}

#[test]
fn byte_align_never_moves_past_the_end_of_the_slice() {
    for len in 0..=8usize {
        let all = [0u8; 8];
        let data = &all[..len];
        let total = len * 8;
        for pos in 0..=total {
            let mut r = BitReader::new(data);
            let mut left = pos;
            while left > 0 {
                let chunk = left.min(13);
                assert_eq!(r.read_bits(chunk as u32).unwrap(), 0);
                left -= chunk;
            }
            let before = r.bit_position();
            let want_drop = if before % 8 == 0 { 0 } else { 8 - before % 8 };
            let drop = r.byte_align();
            assert!(drop <= 7, "len {len}, pos {pos}: drop {drop}");
            assert_eq!(drop as usize, want_drop, "len {len}, pos {pos}");
            assert_eq!(r.bit_position(), before + drop as usize);
            assert!(r.bit_position() <= total, "len {len}, pos {pos}: overrun");
            assert_eq!(r.bit_position() % 8, 0);
        }
    }
}

#[test]
fn read_u8_matches_read_bits_at_every_alignment() {
    let mut rng = Lcg(0xB01F_00D1);
    let mut data = [0u8; 16];
    for d in &mut data {
        *d = rng.next_u8();
    }
    let total = data.len() * 8;

    for start in 0..=(total - 8) {
        let byte_start = start >> 3;
        let pad = start & 7;
        let mut a = BitReader::new(&data[byte_start..]);
        let mut b = BitReader::new(&data[byte_start..]);
        if pad > 0 {
            let _ = a.read_bits(pad as u32).unwrap();
            let _ = b.read_bits(pad as u32).unwrap();
        }
        let want = b.read_bits(8).unwrap() as u8;
        let got = a.read_u8().unwrap();
        assert_eq!(got, want, "start {start}");
        assert_eq!(a.bit_position(), pad + 8, "start {start}");
        let mut oracle = 0u32;
        for j in 0..8 {
            oracle = (oracle << 1) | ref_bit(&data, start + j);
        }
        assert_eq!(u32::from(got), oracle, "start {start}");
    }
}

#[test]
fn read_u8_returns_every_byte_value_in_stream_order() {
    let data: [u8; 256] = core::array::from_fn(|i| i as u8);
    let mut r = BitReader::new(&data);
    for (i, &want) in data.iter().enumerate() {
        assert_eq!(r.read_u8().unwrap(), want, "byte {i}");
        assert_eq!(r.bit_position(), (i + 1) * 8);
    }
    assert_eq!(r.bits_remaining(), 0);
    assert_eq!(r.read_u8(), Err(Error::EndOfStream));
}

#[test]
fn read_u8_eof_leaves_cursor_untouched() {
    let mut r = BitReader::new(&[0b1010_1010]);
    assert_eq!(r.read_bits(3).unwrap(), 0b101);
    assert_eq!(r.read_u8(), Err(Error::EndOfStream)); // only 5 bits left
    assert_eq!(r.bit_position(), 3);
    assert_eq!(r.read_bits(5).unwrap(), 0b0_1010); // exact fit to the end
    assert_eq!(r.read_u8(), Err(Error::EndOfStream));
    assert_eq!(r.bit_position(), 8);
}

#[test]
fn read_u8_agrees_with_peek_bits_unaligned() {
    let mut r = BitReader::new(&[0x36, 0xC3]);
    assert_eq!(r.read_bits(5).unwrap(), 0b0011_0);
    for _ in 0..2 {
        assert_eq!(r.peek_bits(8).unwrap(), 0xD8);
        assert_eq!(r.bit_position(), 5);
    }
    assert_eq!(r.read_u8().unwrap(), 0xD8);
    assert_eq!(r.bit_position(), 13);
}

#[test]
fn unaligned_coded_number_then_byte_straddling_read() {
    let data = [0xB8, 0x17, 0xB6, 0xC0];
    let mut r = BitReader::new(&data);

    assert_eq!(r.read_bits(3).unwrap(), 0b101, "synthetic lead-in");
    assert_eq!(r.bit_position(), 3);
    assert_ne!(r.bit_position() % 8, 0, "setup must be unaligned");

    assert_eq!(r.read_utf8_coded().unwrap(), 61, "coded number");
    assert_eq!(r.bit_position(), 19, "3 + 16 bits of coded number");
    assert_ne!(r.bit_position() % 8, 0, "still unaligned");

    assert_eq!(r.read_u8().unwrap(), 0xB6, "unaligned 8-bit read");
    assert_eq!(r.bit_position(), 27);
    assert_eq!(r.bits_remaining(), 5);
}

#[test]
fn footer_padding_pattern_aligns_then_reads_the_next_byte() {
    let data = [0xAA, 0x5C, 0xA5];
    for pad in 1..8usize {
        let mut r = BitReader::new(&data);
        let _ = r.read_bits(pad as u32).unwrap(); // mid-field padding bits
        assert_eq!(r.byte_align() as usize, 8 - pad, "pad {pad}");
        assert_eq!(r.bit_position(), 8, "pad {pad}");
        assert_eq!(r.read_u8().unwrap(), 0x5C, "pad {pad}");
        assert_eq!(r.read_u8().unwrap(), 0xA5, "pad {pad}: second CRC byte");
        assert_eq!(r.bit_position(), 24, "pad {pad}");

        let mut naive = BitReader::new(&data);
        let _ = naive.read_bits(pad as u32).unwrap();
        assert_ne!(naive.read_u8().unwrap(), 0x5C, "pad {pad}");
    }
}

#[test]
fn position_and_remaining_track_reads() {
    let mut r = BitReader::new(&[0u8; 2]); // 16 bits
    assert_eq!(r.bit_position(), 0);
    assert_eq!(r.bits_remaining(), 16);
    let _ = r.read_bits(5).unwrap();
    assert_eq!(r.bit_position(), 5);
    assert_eq!(r.bits_remaining(), 11);
    let _ = r.read_bits(11).unwrap();
    assert_eq!(r.bit_position(), 16);
    assert_eq!(r.bits_remaining(), 0);
}

#[test]
fn wide_reads_agree_with_bit_by_bit_on_random_data() {
    let mut rng = Lcg(0xDEAD_BEEF);
    for trial in 0..64 {
        let len = 1 + (rng.next_u8() as usize % 8); // 1..=8 bytes
        let mut data = [0u8; 8];
        for d in data.iter_mut().take(len) {
            *d = rng.next_u8();
        }
        let data = &data[..len];
        let total = len * 8;

        let mut bit_r = BitReader::new(data);
        for i in 0..total {
            assert_eq!(
                bit_r.read_bits(1).unwrap(),
                ref_bit(data, i),
                "trial {trial}: bit {i} of {data:02X?}"
            );
        }

        for width in [7u32, 13, 31, 32] {
            let mut wide_r = BitReader::new(data);
            let mut bits_r = BitReader::new(data);
            while wide_r.bits_remaining() >= width as usize {
                let wide = wide_r.read_bits(width).unwrap();
                let mut assembled = 0u32;
                for _ in 0..width {
                    assembled = (assembled << 1) | bits_r.read_bits(1).unwrap();
                }
                assert_eq!(wide, assembled, "trial {trial}: width {width}");
                assert_eq!(wide_r.bit_position(), bits_r.bit_position());
            }
            assert_eq!(wide_r.bits_remaining(), bits_r.bits_remaining());
        }
    }
}

#[test]
fn unaligned_sweeps_cover_every_bit_offset() {
    let mut rng = Lcg(0x1234_5678);
    let mut data = [0u8; 16];
    for (i, d) in data.iter_mut().enumerate() {
        *d = rng.next_u8() ^ ((i as u8) << 3);
    }
    let total = data.len() * 8;

    for start in 0..total {
        let byte_start = start >> 3;
        let pad = start & 7;
        for width in 1..=32usize {
            let mut r = BitReader::new(&data[byte_start..]);
            if pad > 0 {
                let _ = r.read_bits(pad as u32).unwrap();
            }
            match r.read_bits(width as u32) {
                Ok(val) => {
                    assert_eq!(r.bit_position(), pad + width);
                    let mut expect = 0u32;
                    for j in 0..width {
                        expect = (expect << 1) | ref_bit(&data, start + j);
                    }
                    assert_eq!(val, expect, "start {start}, width {width}");
                }
                Err(Error::EndOfStream) => assert!(start + width > total),
                Err(e) => panic!("unexpected error at start {start}, width {width}: {e:?}"),
            }
        }
    }
}

#[test]
fn read_wasted_bits_flag_clear_consumes_only_the_flag() {
    let mut r = BitReader::new(&[0b0111_1111]);
    assert_eq!(r.read_wasted_bits().unwrap(), 0);
    assert_eq!(r.bit_position(), 1);
}

#[test]
fn read_wasted_bits_hand_packed_runs() {
    let mut r = BitReader::new(&[0b1100_0000]);
    assert_eq!(r.read_wasted_bits().unwrap(), 1);
    assert_eq!(r.bit_position(), 2);
    let mut r = BitReader::new(&[0b1001_0000]);
    assert_eq!(r.read_wasted_bits().unwrap(), 3);
    assert_eq!(r.bit_position(), 4);
    let mut r = BitReader::new(&[0b1000_0100]);
    assert_eq!(r.read_wasted_bits().unwrap(), 5);
    assert_eq!(r.bit_position(), 6);
    let mut r = BitReader::new(&[0x80, 0x80]);
    assert_eq!(r.read_wasted_bits().unwrap(), 8);
    assert_eq!(r.bit_position(), 9);
}

#[test]
fn read_wasted_bits_long_run() {
    let mut r = BitReader::new(&[0x80, 0x00, 0x00, 0x00, 0x00, 0x80]);
    assert_eq!(r.read_wasted_bits().unwrap(), 40);
    assert_eq!(r.bit_position(), 41);
}

#[test]
fn read_wasted_bits_unterminated_run_restores_cursor() {
    let mut r = BitReader::new(&[0x80, 0x00]);
    assert_eq!(r.read_wasted_bits(), Err(Error::EndOfStream));
    assert_eq!(r.bit_position(), 0);
    let mut r = BitReader::new(&[0x10, 0x00, 0x00]);
    assert_eq!(r.read_bits(3).unwrap(), 0b000);
    assert_eq!(r.read_wasted_bits(), Err(Error::EndOfStream));
    assert_eq!(r.bit_position(), 3);
    let mut r = BitReader::new(&[]);
    assert_eq!(r.read_wasted_bits(), Err(Error::EndOfStream));
    assert_eq!(r.bit_position(), 0);
}

#[test]
fn read_wasted_bits_matches_naive_oracle_at_every_alignment() {
    let mut data = [0u8; 9];
    let mut rng = Lcg(0xCAFE_F00D);
    for d in data.iter_mut() {
        *d = rng.next_u8();
    }
    let total = data.len() * 8;
    for start in 0..total {
        let mut want: Option<u32> = None;
        if ref_bit(&data, start) == 0 {
            want = Some(0);
        } else {
            let mut zeros = 0u32;
            let mut pos = start + 1;
            loop {
                if pos >= total {
                    break;
                }
                if ref_bit(&data, pos) == 1 {
                    want = Some(zeros + 1);
                    break;
                }
                zeros += 1;
                pos += 1;
            }
        }
        let mut r = BitReader::new(&data);
        let mut left = start;
        while left > 0 {
            let chunk = left.min(32);
            let _ = r.read_bits(chunk as u32).unwrap();
            left -= chunk;
        }
        match (want, r.read_wasted_bits()) {
            (Some(k), Ok(got)) => {
                assert_eq!(got, k, "start {start}");
                let consumed = if k == 0 { 1 } else { k + 1 };
                assert_eq!(r.bit_position(), start + consumed as usize, "start {start}");
            }
            (None, Err(Error::EndOfStream)) => {
                assert_eq!(
                    r.bit_position(),
                    start,
                    "start {start}: failed read must restore"
                );
            }
            (want, got) => panic!("start {start}: oracle says {want:?}, reader {got:?}"),
        }
    }
}

/// Bit-at-a-time CRC-8 (poly 0x07, init 0), written from the polynomial.
fn ref_crc8(data: &[u8]) -> u8 {
    let mut crc = 0u8;
    for &b in data {
        for i in (0..8).rev() {
            let bit = (b >> i) & 1;
            let top = crc >> 7;
            crc <<= 1;
            if top ^ bit == 1 {
                crc ^= 0x07;
            }
        }
    }
    crc
}

/// Bit-at-a-time CRC-16 (poly 0x05, that is `x^16 + x^2 + 1`, init 0xFFFF),
/// written from the polynomial.
fn ref_crc16(data: &[u8]) -> u16 {
    let mut crc = 0xFFFFu16;
    for &b in data {
        for i in (0..8).rev() {
            let bit = u16::from((b >> i) & 1);
            let top = crc >> 15;
            crc <<= 1;
            if top ^ bit == 1 {
                crc ^= 0x0005;
            }
        }
    }
    crc
}

#[test]
fn crc8_check_value_and_empty_input() {
    assert_eq!(crc8(b"123456789"), 0xF4);
    assert_eq!(crc8(&[]), 0);
    assert_eq!(crc8(&[0x00]), 0);
    assert_eq!(crc8(&[0x01]), 0x07);
}

#[test]
fn crc8_matches_the_rfc_example_frame_header() {
    assert_eq!(crc8(&[0xFF, 0xF8, 0x69, 0x98, 0x00, 0x0F]), 0x99);
}

#[test]
fn crc16_check_value_and_empty_input() {
    // Poly 0x05, init 0xFFFF, worked by hand for the one-byte input: the
    // register 0xFEFF shifts out seven set top bits, then a clear one.
    assert_eq!(crc16(b"123456789"), 0x2F61);
    assert_eq!(crc16(&[]), 0xFFFF);
    assert_eq!(crc16(&[0x01]), 0xFC06);
    assert_eq!(crc16(&[0x00]), 0xFC03);
}

#[test]
fn crcs_agree_with_bitwise_oracles_on_random_data() {
    let mut rng = Lcg(0x0BAD_CAFE);
    for len in 0..64usize {
        let mut data = [0u8; 64];
        for d in data.iter_mut().take(len) {
            *d = rng.next_u8();
        }
        let data = &data[..len];
        assert_eq!(crc8(data), ref_crc8(data), "len {len}");
        assert_eq!(crc16(data), ref_crc16(data), "len {len}");
    }
}

#[test]
fn crc8_of_message_and_its_crc_is_zero() {
    let msg = [0xFF, 0xF8, 0xB8, 0xA8, 0x00];
    let c = crc8(&msg);
    let mut framed = msg.to_vec();
    framed.push(c);
    assert_eq!(crc8(&framed), 0);
}
