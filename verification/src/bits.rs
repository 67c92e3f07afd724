//! MSB-first bit reader over an immutable byte slice.
//!
//! FLAC packs its fields MSB-first across byte boundaries, so the whole decoder
//! is built on this one primitive. The cursor is a plain bit offset into the
//! backing slice; every read recomputes what it needs from it.
//!
//! ## Model
//!
//! The reader is specified over the bit string of its slice: [`bit_at`] is bit
//! `i` (MSB-first within each byte) and [`bits_msb`] is the unsigned value of
//! `n` consecutive bits read MSB-first. Every read is stated as a function of
//! the slice, the cursor and its arguments ([`field`], [`coded_number`],
//! [`wasted_field`]), so the higher layers compose their own grammar from
//! these pieces.
use vstd::prelude::*;
use vstd::arithmetic::power2::{pow2, lemma_pow2_unfold, lemma_pow2_pos, lemma2_to64, lemma2_to64_rest, lemma_pow2_adds, lemma_pow2_strictly_increases};
use vstd::arithmetic::div_mod::lemma_fundamental_div_mod_converse;
use vstd::bits::{lemma_u64_shr_is_div, lemma_u64_shl_is_mul, lemma_u64_low_bits_mask_is_mod, lemma_u64_pow2_no_overflow, low_bits_mask};

use crate::Error;

verus! {

// ---------------------------------------------------------------------------
// The bit-string model
// ---------------------------------------------------------------------------

/// Bit `i` of `data`, MSB-first within each byte (bit 0 is the top bit of
/// byte 0).
pub open spec fn bit_at(data: Seq<u8>, i: int) -> nat {
    ((data[i / 8] >> ((7 - i % 8) as u8)) & 1u8) as nat
}

/// The unsigned value of the `n` bits starting at bit `pos`, MSB-first.
pub open spec fn bits_msb(data: Seq<u8>, pos: int, n: nat) -> nat
    decreases n,
{
    if n == 0 {
        0
    } else {
        2 * bits_msb(data, pos, (n - 1) as nat) + bit_at(data, pos + n - 1)
    }
}

/// Number of bits in `data`.
pub open spec fn total_bits(data: Seq<u8>) -> int {
    data.len() as int * 8
}

/// A fixed-width unsigned field of `n` bits at bit `pos`: widths outside
/// `1..=32` are [`Error::InvalidField`], a field running past the end of the
/// slice is [`Error::EndOfStream`].
pub open spec fn field(data: Seq<u8>, pos: int, n: nat) -> Result<u32, Error> {
    if n == 0 || n > 32 {
        Err(Error::InvalidField)
    } else if pos + n > total_bits(data) {
        Err(Error::EndOfStream)
    } else {
        Ok(bits_msb(data, pos, n) as u32)
    }
}

/// Two's-complement reading of the `n`-bit unsigned value `v`.
pub open spec fn sign_extend(v: nat, n: nat) -> int {
    if n > 0 && v >= pow2((n - 1) as nat) {
        v - pow2(n)
    } else {
        v as int
    }
}

/// A signed (two's-complement) field of `n` bits at bit `pos`.
pub open spec fn signed_field(data: Seq<u8>, pos: int, n: nat) -> Result<i32, Error> {
    match field(data, pos, n) {
        Ok(v) => Ok(sign_extend(v as nat, n) as i32),
        Err(e) => Err(e),
    }
}


/// A byte-wide field at bit `pos` (no alignment required).
pub open spec fn byte_field(data: Seq<u8>, pos: int) -> Result<u8, Error> {
    match field(data, pos, 8) {
        Ok(v) => Ok(v as u8),
        Err(e) => Err(e),
    }
}

/// Number of leading one bits of `b` from bit `7 - i` downwards.
pub open spec fn ones_from(b: u8, i: nat) -> nat
    decreases 8 - i,
{
    if i >= 8 {
        0
    } else if b & (0x80u8 >> (i as u8)) != 0 {
        1 + ones_from(b, i + 1)
    } else {
        0
    }
}

/// Number of leading one bits of a byte (0..=8).
pub open spec fn leading_ones(b: u8) -> nat {
    ones_from(b, 0)
}

/// The continuation octets of a coded number: `remaining` octets of the form
/// `10xxxxxx`, each appending its six payload bits to `acc`. Yields the value
/// and the bit position after the last octet.
pub open spec fn coded_tail(data: Seq<u8>, pos: int, remaining: nat, acc: nat) -> Result<
    (nat, int),
    Error,
>
    decreases remaining,
{
    if remaining == 0 {
        Ok((acc, pos))
    } else {
        match field(data, pos, 8) {
            Err(e) => Err(e),
            Ok(c) => if c / 64 != 2 {
                Err(Error::InvalidField)
            } else {
                coded_tail(data, pos + 8, (remaining - 1) as nat, acc * 64 + (c % 64) as nat)
            },
        }
    }
}

/// FLAC's UTF-8-style coded number at bit `pos` (RFC 9639 §9.1.5): the lead
/// octet's leading ones give the total octet count (none: one octet), its
/// remaining `7 - ones` bits are the value's top bits, and every continuation
/// octet `10xxxxxx` adds six more. A lead with exactly one leading one (a
/// stray continuation) or eight (`0xFF`) is invalid. Yields the value and the
/// bit position after the number.
pub open spec fn coded_number(data: Seq<u8>, pos: int) -> Result<(nat, int), Error> {
    match field(data, pos, 8) {
        Err(e) => Err(e),
        Ok(lead) => {
            let p = leading_ones(lead as u8);
            if p == 1 || p == 8 {
                Err(Error::InvalidField)
            } else {
                let octets: nat = if p == 0 {
                    1
                } else {
                    p
                };
                coded_tail(data, pos + 8, (octets - 1) as nat, (lead as nat) % pow2((7 - p) as nat))
            }
        },
    }
}

/// Length of the run of zero bits starting at bit `p` and terminated by a one
/// bit; `None` when the slice ends before a one bit.
pub open spec fn zero_run(data: Seq<u8>, p: int) -> Option<nat>
    decreases total_bits(data) - p,
{
    if p < 0 || p >= total_bits(data) {
        None
    } else if bit_at(data, p) == 1 {
        Some(0)
    } else {
        match zero_run(data, p + 1) {
            Some(z) => Some(z + 1),
            None => None,
        }
    }
}

/// FLAC's wasted-bits-per-sample field at bit `pos` (RFC 9639 §9.2.2): a
/// flag bit; `0` means `k = 0`, `1` is followed by `k - 1` zero bits and a
/// terminating one. Yields `k` and the bit position after the field.
pub open spec fn wasted_field(data: Seq<u8>, pos: int) -> Result<(nat, int), Error> {
    if pos >= total_bits(data) {
        Err(Error::EndOfStream)
    } else if bit_at(data, pos) == 0 {
        Ok((0, pos + 1))
    } else {
        match zero_run(data, pos + 1) {
            None => Err(Error::EndOfStream),
            Some(z) => Ok((z + 1, pos + z + 2)),
        }
    }
}

/// Bits to discard from `pos` to reach the next byte boundary.
pub open spec fn align_gap(pos: int) -> int {
    if pos % 8 == 0 {
        0
    } else {
        8 - pos % 8
    }
}

// ---------------------------------------------------------------------------
// Lemmas about the model
// ---------------------------------------------------------------------------

/// Splitting a run of bits: the first `a` bits are the high part.
pub proof fn lemma_bits_split(data: Seq<u8>, p: int, a: nat, b: nat)
    ensures
        bits_msb(data, p, a + b) == bits_msb(data, p, a) * pow2(b) + bits_msb(data, p + a, b),
    decreases b,
{
    if b == 0 {
        lemma2_to64();
        assert(bits_msb(data, p, a) * pow2(0) == bits_msb(data, p, a)) by (nonlinear_arith)
            requires pow2(0) == 1;
    } else {
        lemma_bits_split(data, p, a, (b - 1) as nat);
        lemma_pow2_unfold(b);
        let x = bits_msb(data, p, a);
        let q = pow2((b - 1) as nat);
        assert(2 * (x * q) == x * (2 * q)) by (nonlinear_arith);
        assert(bits_msb(data, p, a + b) == 2 * bits_msb(data, p, (a + b - 1) as nat) + bit_at(
            data,
            p + a + b - 1,
        ));
        assert(bits_msb(data, p + a, b) == 2 * bits_msb(data, p + a, (b - 1) as nat) + bit_at(
            data,
            p + a + b - 1,
        ));
        assert(((a + b - 1) as nat) == a + ((b - 1) as nat));
    }
}


/// A one-bit run is the bit itself.
pub proof fn lemma_bits_one(data: Seq<u8>, p: int)
    ensures
        bits_msb(data, p, 1) == bit_at(data, p),
{
    reveal_with_fuel(bits_msb, 2);
}

/// An `n`-bit run is below `2^n`.
pub proof fn lemma_bits_bound(data: Seq<u8>, p: int, n: nat)
    ensures
        bits_msb(data, p, n) < pow2(n),
    decreases n,
{
    if n == 0 {
        lemma2_to64();
    } else {
        lemma_bits_bound(data, p, (n - 1) as nat);
        lemma_pow2_unfold(n);
        assert(bit_at(data, p + n - 1) <= 1) by {
            let b = data[(p + n - 1) / 8];
            let s = (7 - (p + n - 1) % 8) as u8;
            assert((b >> s) & 1u8 <= 1u8) by (bit_vector);
        }
    }
}

/// Bit `8 * b + i` of a slice lives in byte `b` at offset `i`.
pub proof fn lemma_byte_index(b: int, i: int)
    requires
        0 <= i < 8,
    ensures
        (8 * b + i) / 8 == b,
        (8 * b + i) % 8 == i,
{
    assert((8 * b + i) / 8 == b && (8 * b + i) % 8 == i) by (nonlinear_arith)
        requires
            0 <= i < 8,
    ;
}

/// The bits of a byte-aligned byte are the byte itself.
pub proof fn lemma_bits_byte(data: Seq<u8>, b: int)
    requires
        0 <= b < data.len(),
    ensures
        bits_msb(data, 8 * b, 8) == data[b] as nat,
{
    let x = data[b];
    reveal_with_fuel(bits_msb, 9);
    lemma_byte_index(b, 0);
    lemma_byte_index(b, 1);
    lemma_byte_index(b, 2);
    lemma_byte_index(b, 3);
    lemma_byte_index(b, 4);
    lemma_byte_index(b, 5);
    lemma_byte_index(b, 6);
    lemma_byte_index(b, 7);
    assert(bit_at(data, 8 * b + 0) == ((x >> 7u8) & 1u8) as nat);
    assert(bit_at(data, 8 * b + 1) == ((x >> 6u8) & 1u8) as nat);
    assert(bit_at(data, 8 * b + 2) == ((x >> 5u8) & 1u8) as nat);
    assert(bit_at(data, 8 * b + 3) == ((x >> 4u8) & 1u8) as nat);
    assert(bit_at(data, 8 * b + 4) == ((x >> 3u8) & 1u8) as nat);
    assert(bit_at(data, 8 * b + 5) == ((x >> 2u8) & 1u8) as nat);
    assert(bit_at(data, 8 * b + 6) == ((x >> 1u8) & 1u8) as nat);
    assert(bit_at(data, 8 * b + 7) == ((x >> 0u8) & 1u8) as nat);
    assert(x as nat == 2 * (2 * (2 * (2 * (2 * (2 * (2 * ((x >> 7u8) & 1u8) + ((x >> 6u8) & 1u8))
        + ((x >> 5u8) & 1u8)) + ((x >> 4u8) & 1u8)) + ((x >> 3u8) & 1u8)) + ((x >> 2u8) & 1u8))
        + ((x >> 1u8) & 1u8)) + ((x >> 0u8) & 1u8)) by (bit_vector);
}

// ---------------------------------------------------------------------------
// The reader
// ---------------------------------------------------------------------------

/// A cursor-based, borrow-only bit reader.
///
/// There is no `Seek` — the cursor only moves forward (on failure it stays
/// put, so a failed read can be retried or abandoned without a rewind).
#[derive(Clone, Copy, Debug)]
pub struct BitReader<'a> {
    /// Backing bytes.
    data: &'a [u8],
    /// Read cursor, in bits from the start of `data`.
    bit_pos: usize,
}

impl<'a> BitReader<'a> {
    /// The backing bytes.
    pub closed spec fn data(self) -> Seq<u8> {
        self.data@
    }

    /// The cursor, in bits from the start of [`Self::data`].
    pub closed spec fn pos(self) -> int {
        self.bit_pos as int
    }

    /// Well-formedness: the cursor lies inside the slice, and the slice's bit
    /// count fits a `u32` (bit positions and unary run lengths are counted
    /// in 32 bits).
    pub open spec fn wf(self) -> bool {
        &&& 0 <= self.pos() <= total_bits(self.data())
        &&& total_bits(self.data()) <= u32::MAX
    }

    /// Wrap a byte slice for bit-level reading, cursor at bit 0.
    pub fn new(data: &'a [u8]) -> (r: Self)
        requires
            data@.len() * 8 <= u32::MAX,
        ensures
            r.wf(),
            r.data() == data@,
            r.pos() == 0,
    {
        BitReader { data, bit_pos: 0 }
    }

    /// Read `n` bits at absolute bit position `pos` without moving the
    /// cursor. At most five bytes are involved in one read, so they are
    /// gathered into a `u64` whose width stays below 64 bits.
    fn peek_at(&self, pos: usize, n: u32) -> (r: Result<u32, Error>)
        requires
            self.wf(),
            pos <= total_bits(self.data()),
        ensures
            r == field(self.data(), pos as int, n as nat),
    {
        if n == 0 || n > 32 {
            return Err(Error::InvalidField);
        }
        let len = self.data.len();
        let total_bits = len * 8;
        let end = match pos.checked_add(n as usize) {
            Some(e) => e,
            None => return Err(Error::EndOfStream),
        };
        if end > total_bits {
            return Err(Error::EndOfStream);
        }
        let ghost d = self.data@;
        let byte_idx = pos >> 3;
        let off = (pos & 7) as u32;
        assert(pos >> 3 == pos / 8 && pos & 7 == pos % 8) by (bit_vector);
        let span = off + n + 7;
        let bytes_needed = (span >> 3) as usize;
        assert(span >> 3 == span / 8) by (bit_vector);
        assert(byte_idx + bytes_needed <= len && bytes_needed <= 5 && 8 * bytes_needed >= off + n
            && 8 * bytes_needed < off + n + 8) by (nonlinear_arith)
            requires
                byte_idx == pos / 8,
                off == pos % 8,
                bytes_needed == (off + n + 7) / 8,
                pos + n <= len * 8,
                1 <= n <= 32,
        ;
        let mut acc: u64 = 0;
        let mut j: usize = 0;
        proof {
            lemma2_to64();
        }
        while j < bytes_needed
            invariant
                j <= bytes_needed,
                bytes_needed <= 5,
                byte_idx + bytes_needed <= len,
                len == d.len(),
                d == self.data@,
                acc == bits_msb(d, 8 * byte_idx, (8 * j) as nat),
            decreases bytes_needed - j,
        {
            let b = self.data[byte_idx + j];
            proof {
                lemma_bits_split(d, 8 * byte_idx, (8 * j) as nat, 8);
                lemma_bits_byte(d, byte_idx + j);
                lemma_bits_bound(d, 8 * byte_idx, (8 * j) as nat);
                lemma2_to64();
                if j < 4 {
                    lemma_pow2_strictly_increases((8 * j) as nat, 32);
                }
                assert(8 * byte_idx + 8 * j == 8 * (byte_idx + j));
                assert(((8 * (j + 1)) as nat) == (8 * j) as nat + 8);
            }
            let ghost old_acc = acc;
            assert(old_acc < 0x1_0000_0000);
            acc = (acc << 8) | (b as u64);
            assert((old_acc << 8) | (b as u64) == old_acc * 256 + b) by (bit_vector)
                requires
                    old_acc < 0x1_0000_0000,
            ;
            j += 1;
        }
        let shift = bytes_needed as u32 * 8 - off - n;
        proof {
            lemma_u64_pow2_no_overflow(n as nat);
            lemma_u64_shl_is_mul(1, n as u64);
            assert(1u64 << (n as u64) == 1u64 << n);
        }
        let mask = (1u64 << n) - 1;
        let hs = acc >> shift;
        let masked = hs & mask;
        proof {
            let p0 = 8 * byte_idx;
            assert(p0 + off == pos);
            assert((8 * bytes_needed) as nat == ((off + n) as nat) + (shift as nat));
            lemma_bits_split(d, p0, (off + n) as nat, shift as nat);
            lemma_bits_split(d, p0, off as nat, n as nat);
            lemma_bits_bound(d, pos as int, n as nat);
            lemma_bits_bound(d, p0 + off + n, shift as nat);
            let hi = bits_msb(d, p0, (off + n) as nat);
            let v = bits_msb(d, pos as int, n as nat);
            lemma_pow2_pos(shift as nat);
            lemma_pow2_pos(n as nat);
            lemma_fundamental_div_mod_converse(
                acc as int,
                pow2(shift as nat) as int,
                hi as int,
                bits_msb(d, p0 + off + n, shift as nat) as int,
            );
            lemma_u64_shr_is_div(acc, shift as u64);
            assert(acc >> (shift as u64) == acc >> shift);
            assert(mask == low_bits_mask(n as nat));
            lemma_u64_low_bits_mask_is_mod(hs, n as nat);
            lemma_fundamental_div_mod_converse(
                hs as int,
                pow2(n as nat) as int,
                bits_msb(d, p0, off as nat) as int,
                v as int,
            );
            lemma2_to64();
            if n < 32 {
                lemma_pow2_strictly_increases(n as nat, 32);
            }
            assert(masked == v);
        }
        Ok(masked as u32)
    }

    /// Read `n` bits (`1..=32`) as an unsigned value, MSB-first.
    ///
    /// Returns [`Error::EndOfStream`] if fewer than `n` bits remain and
    /// [`Error::InvalidField`] for `n == 0` or `n > 32` (caller bugs rather
    /// than stream conditions); the cursor moves by `n` on success only.
    pub fn read_bits(&mut self, n: u32) -> (r: Result<u32, Error>)
        requires
            old(self).wf(),
        ensures
            final(self).wf(),
            final(self).data() == old(self).data(),
            r == field(old(self).data(), old(self).pos(), n as nat),
            final(self).pos() == (if r is Ok {
                old(self).pos() + n
            } else {
                old(self).pos()
            }),
    {
        let val = self.peek_at(self.bit_pos, n)?;
        self.bit_pos = self.bit_pos + n as usize;
        Ok(val)
    }

    /// Peek at the next `n` bits (`1..=32`) without advancing the cursor.
    /// Same width and end-of-stream semantics as [`Self::read_bits`].
    pub fn peek_bits(&self, n: u32) -> (r: Result<u32, Error>)
        requires
            self.wf(),
        ensures
            r == field(self.data(), self.pos(), n as nat),
    {
        self.peek_at(self.bit_pos, n)
    }

    /// Read `n` bits (`1..=32`) as a two's-complement signed value. Same
    /// width/end-of-stream/cursor rules as [`Self::read_bits`].
    pub fn read_signed(&mut self, n: u32) -> (r: Result<i32, Error>)
        requires
            old(self).wf(),
        ensures
            final(self).wf(),
            final(self).data() == old(self).data(),
            r == signed_field(old(self).data(), old(self).pos(), n as nat),
            final(self).pos() == (if r is Ok {
                old(self).pos() + n
            } else {
                old(self).pos()
            }),
    {
        let raw = self.read_bits(n)?;
        proof {
            lemma_bits_bound(old(self).data(), old(self).pos(), n as nat);
            lemma_u64_pow2_no_overflow(n as nat);
            lemma_u64_pow2_no_overflow((n - 1) as nat);
            lemma_u64_shl_is_mul(1, n as u64);
            lemma_u64_shl_is_mul(1, (n - 1) as u64);
            lemma_pow2_unfold(n as nat);
            lemma2_to64();
            if n < 32 {
                lemma_pow2_strictly_increases(n as nat, 32);
            }
            lemma_pow2_pos((n - 1) as nat);
        }
        let half = 1u64 << (n - 1);
        let whole = 1u64 << n;
        if (raw as u64) >= half {
            Ok(((raw as i64) - (whole as i64)) as i32)
        } else {
            Ok(raw as i32)
        }
    }

    /// Read one byte (8 bits, no alignment required). A short read is
    /// [`Error::EndOfStream`] and leaves the cursor untouched.
    pub fn read_u8(&mut self) -> (r: Result<u8, Error>)
        requires
            old(self).wf(),
        ensures
            final(self).wf(),
            final(self).data() == old(self).data(),
            r == byte_field(old(self).data(), old(self).pos()),
            final(self).pos() == (if r is Ok {
                old(self).pos() + 8
            } else {
                old(self).pos()
            }),
    {
        match self.read_bits(8) {
            Ok(v) => {
                proof {
                    lemma_bits_bound(old(self).data(), old(self).pos(), 8);
                    lemma2_to64();
                }
                Ok(v as u8)
            },
            Err(e) => Err(e),
        }
    }

    /// Consume bits up to the next byte boundary and return how many were
    /// discarded (0..=7). Idempotent on an aligned cursor; never passes the
    /// end of the slice (a slice's bit count is a multiple of 8).
    pub fn byte_align(&mut self) -> (r: u32)
        requires
            old(self).wf(),
        ensures
            final(self).wf(),
            final(self).data() == old(self).data(),
            r == align_gap(old(self).pos()),
            final(self).pos() == old(self).pos() + r,
            final(self).pos() % 8 == 0,
    {
        let p = self.bit_pos;
        let low = p & 7;
        assert(low <= 7) by (bit_vector)
            requires
                low == p & 7,
        ;
        let gap = 8 - low;
        let drop = gap & 7;
        assert(low == p % 8) by (bit_vector)
            requires
                low == p & 7,
        ;
        assert(gap & 7 == (if low == 0 {
            0
        } else {
            8 - low
        })) by (bit_vector)
            requires
                low < 8,
                gap == 8 - low,
        ;
        let ghost len = self.data@.len();
        assert(p + drop <= len * 8 && (p + drop) % 8 == 0) by (nonlinear_arith)
            requires
                p <= len * 8,
                drop == (if p % 8 == 0 {
                    0
                } else {
                    8 - p % 8
                }),
        ;
        self.bit_pos = p + drop;
        drop as u32
    }

    /// Read FLAC's UTF-8-style coded number (RFC 9639 §9.1.5), the
    /// variable-length code for frame/sample numbers: up to seven octets and
    /// 36 value bits. It is a bit-level decoder and does not insist on the
    /// shortest form.
    ///
    /// Errors: [`Error::InvalidField`] for a stray continuation lead
    /// (`10xxxxxx`), the all-ones lead `0xFF`, or a continuation octet that is
    /// not `10xxxxxx`; [`Error::EndOfStream`] when the number is cut off. The
    /// read is atomic: on any error the cursor is restored.
    pub fn read_utf8_coded(&mut self) -> (r: Result<u64, Error>)
        requires
            old(self).wf(),
        ensures
            final(self).wf(),
            final(self).data() == old(self).data(),
            match coded_number(old(self).data(), old(self).pos()) {
                Ok((v, end)) => r == Ok::<u64, Error>(v as u64) && final(self).pos() == end,
                Err(e) => r == Err::<u64, Error>(e) && final(self).pos() == old(self).pos(),
            },
    {
        let start = self.bit_pos;
        match self.coded_number_inner() {
            Ok(v) => Ok(v),
            Err(e) => {
                self.bit_pos = start;
                Err(e)
            },
        }
    }

    /// Count the leading ones of a lead octet.
    fn lead_ones(lead: u8) -> (p: u32)
        ensures
            p == leading_ones(lead),
            p <= 8,
    {
        let mut prefix: u32 = 0;
        let mut mask: u8 = 0x80;
        assert(0x80u8 >> 0u8 == 0x80u8) by (bit_vector);
        while lead & mask != 0
            invariant
                prefix <= 8,
                prefix < 8 ==> mask == 0x80u8 >> (prefix as u8),
                prefix == 8 ==> mask == 0,
                leading_ones(lead) == prefix + ones_from(lead, prefix as nat),
            decreases 8 - prefix,
        {
            proof {
                if prefix == 8 {
                    assert(lead & 0 == 0) by (bit_vector);
                }
                let pu = prefix as u8;
                assert(pu < 8 ==> (0x80u8 >> pu) >> 1u8 == 0x80u8 >> ((pu + 1) as u8)) by (bit_vector);
                assert(pu == 7 ==> (0x80u8 >> pu) >> 1u8 == 0) by (bit_vector);
            }
            prefix += 1;
            mask = mask >> 1;
        }
        proof {
            if prefix < 8 {
                assert(ones_from(lead, prefix as nat) == 0);
            }
        }
        prefix
    }

    /// Decode one coded number, advancing the cursor as it goes.
    fn coded_number_inner(&mut self) -> (r: Result<u64, Error>)
        requires
            old(self).wf(),
        ensures
            final(self).wf(),
            final(self).data() == old(self).data(),
            match coded_number(old(self).data(), old(self).pos()) {
                Ok((v, end)) => r == Ok::<u64, Error>(v as u64) && final(self).pos() == end,
                Err(e) => r == Err::<u64, Error>(e),
            },
    {
        let ghost d = self.data@;
        let ghost start = self.bit_pos as int;
        let lead32 = self.read_bits(8)?;
        proof {
            lemma_bits_bound(d, start, 8);
            lemma2_to64();
        }
        let lead = lead32 as u8;
        let prefix = Self::lead_ones(lead);
        if prefix == 1 || prefix == 8 {
            return Err(Error::InvalidField);
        }
        let octets = if prefix == 0 {
            1
        } else {
            prefix
        };
        let payload_mask = 0xFFu32 >> (prefix + 1);
        proof {
            let k = (7 - prefix) as u32;
            assert(0xFFu32 >> (prefix + 1) == (1u32 << k) - 1) by (bit_vector)
                requires
                    prefix <= 7,
                    k == 7 - prefix,
            ;
            vstd::bits::lemma_u32_pow2_no_overflow(k as nat);
            vstd::bits::lemma_u32_shl_is_mul(1, k);
            assert(payload_mask == low_bits_mask(k as nat));
            vstd::bits::lemma_u32_low_bits_mask_is_mod(lead32, k as nat);
            lemma_pow2_pos(k as nat);
            if k < 7 {
                lemma_pow2_strictly_increases(k as nat, 7);
            }
        }
        let mut value: u64 = (lead32 & payload_mask) as u64;
        let mut i: u32 = 1;
        while i < octets
            invariant
                1 <= i <= octets <= 7,
                octets == (if prefix == 0 {
                    1
                } else {
                    prefix
                }),
                self.wf(),
                self.data() == d,
                d == old(self).data(),
                start == old(self).pos(),
                self.pos() == start + 8 * i,
                value < pow2((6 * i + 1) as nat),
                coded_number(d, start) == coded_tail(d, self.pos(), (octets - i) as nat, value as nat),
            decreases octets - i,
        {
            let ghost p0 = self.pos();
            let c32 = self.read_bits(8)?;
            proof {
                lemma_bits_bound(d, p0, 8);
                lemma2_to64();
            }
            let cont = c32 as u8;
            if cont & 0xC0 != 0x80 {
                assert(cont & 0xC0 != 0x80 <==> cont / 64 != 2) by (bit_vector);
                return Err(Error::InvalidField);
            }
            assert(cont & 0xC0 != 0x80 <==> cont / 64 != 2) by (bit_vector);
            let ghost old_value = value;
            proof {
                lemma_pow2_strictly_increases((6 * i + 1) as nat, 50);
                lemma2_to64();
                lemma2_to64_rest();
                lemma_pow2_adds((6 * i + 1) as nat, 6);
            }
            assert(old_value < 0x4_0000_0000_0000);
            value = (value << 6) | ((cont & 0x3F) as u64);
            assert((old_value << 6) | ((cont & 0x3F) as u64) == old_value * 64 + (cont as u64) % 64)
                by (bit_vector)
                requires
                    old_value < 0x4_0000_0000_0000,
            ;
            proof {
                assert(value < pow2((6 * (i + 1) + 1) as nat)) by (nonlinear_arith)
                    requires
                        value == old_value * 64 + (cont as int) % 64,
                        old_value < pow2((6 * i + 1) as nat),
                        pow2((6 * i + 1 + 6) as nat) == pow2((6 * i + 1) as nat) * 64,
                        (6 * (i + 1) + 1) == 6 * i + 1 + 6,
                ;
            }
            i += 1;
        }
        proof {
            lemma_pow2_strictly_increases((6 * i + 1) as nat, 64);
            lemma2_to64_rest();
        }
        Ok(value)
    }

    /// Read FLAC's wasted-bits-per-sample field (RFC 9639 §9.2.2) and return
    /// `k`: a flag bit, then for `k >= 1` a run of `k - 1` zero bits closed by
    /// a one. The read is atomic: a run that reaches the end of the slice
    /// unterminated restores the cursor and yields [`Error::EndOfStream`].
    pub fn read_wasted_bits(&mut self) -> (r: Result<u32, Error>)
        requires
            old(self).wf(),
        ensures
            final(self).wf(),
            final(self).data() == old(self).data(),
            match wasted_field(old(self).data(), old(self).pos()) {
                Ok((k, end)) => r == Ok::<u32, Error>(k as u32) && final(self).pos() == end,
                Err(e) => r == Err::<u32, Error>(e) && final(self).pos() == old(self).pos(),
            },
    {
        let start = self.bit_pos;
        match self.wasted_inner() {
            Ok(k) => Ok(k),
            Err(e) => {
                self.bit_pos = start;
                Err(e)
            },
        }
    }

    fn wasted_inner(&mut self) -> (r: Result<u32, Error>)
        requires
            old(self).wf(),
        ensures
            final(self).wf(),
            final(self).data() == old(self).data(),
            match wasted_field(old(self).data(), old(self).pos()) {
                Ok((k, end)) => r == Ok::<u32, Error>(k as u32) && final(self).pos() == end,
                Err(e) => r == Err::<u32, Error>(e),
            },
    {
        let ghost d = self.data@;
        let ghost start = self.bit_pos as int;
        proof {
            lemma_bits_one(d, start);
            lemma_bits_bound(d, start, 1);
            lemma2_to64();
        }
        if self.read_bits(1)? == 0 {
            return Ok(0);
        }
        let mut zeros: u32 = 0;
        loop
            invariant
                self.wf(),
                self.data() == d,
                d == old(self).data(),
                start == old(self).pos(),
                0 <= start,
                self.pos() == start + 1 + zeros,
                start < total_bits(d),
                bit_at(d, start) == 1,
                zero_run(d, start + 1) == (match zero_run(d, self.pos()) {
                    Some(z) => Some((z + zeros) as nat),
                    None => None::<nat>,
                }),
            decreases total_bits(d) - self.pos(),
        {
            let ghost p = self.pos();
            proof {
                lemma_bits_one(d, p);
                lemma_bits_bound(d, p, 1);
                lemma2_to64();
            }
            let b = self.read_bits(1)?;
            if b == 1 {
                return Ok(zeros + 1);
            }
            zeros += 1;
        }
    }

    /// Bits remaining in the backing slice from the current cursor.
    pub fn bits_remaining(&self) -> (r: usize)
        requires
            self.wf(),
        ensures
            r == total_bits(self.data()) - self.pos(),
    {
        self.data.len() * 8 - self.bit_pos
    }

    /// Current cursor position in bits.
    pub fn bit_position(&self) -> (r: usize)
        ensures
            r == self.pos(),
    {
        self.bit_pos
    }
}

/// Aligning is idempotent: once on a byte boundary, a second alignment
/// drops nothing.
pub proof fn lemma_align_idempotent(pos: int)
    ensures
        (pos + align_gap(pos)) % 8 == 0,
        align_gap(pos + align_gap(pos)) == 0,
        0 <= align_gap(pos) < 8,
{
}

// ---------------------------------------------------------------------------
// CRCs
// ---------------------------------------------------------------------------

/// One bit step of CRC-8 with polynomial `x^8 + x^2 + x + 1` (0x07).
pub open spec fn crc8_step(c: u8) -> u8 {
    if c & 0x80 != 0 {
        (c << 1u8) ^ 0x07u8
    } else {
        c << 1u8
    }
}

/// `k` bit steps of CRC-8.
pub open spec fn crc8_steps(c: u8, k: nat) -> u8
    decreases k,
{
    if k == 0 {
        c
    } else {
        crc8_step(crc8_steps(c, (k - 1) as nat))
    }
}

/// CRC-8 of a byte string: polynomial 0x07, no reflection, initial value 0
/// (RFC 9639 §9.1.8), processed MSB-first.
pub open spec fn crc8_of(data: Seq<u8>) -> u8
    decreases data.len(),
{
    if data.len() == 0 {
        0
    } else {
        crc8_steps(crc8_of(data.drop_last()) ^ data.last(), 8)
    }
}

/// One bit step of CRC-16 with polynomial 0x05 (`x^16 + x^2 + 1`).
pub open spec fn crc16_step(c: u16) -> u16 {
    if c & 0x8000 != 0 {
        (c << 1u16) ^ 0x0005u16
    } else {
        c << 1u16
    }
}

/// `k` bit steps of CRC-16.
pub open spec fn crc16_steps(c: u16, k: nat) -> u16
    decreases k,
{
    if k == 0 {
        c
    } else {
        crc16_step(crc16_steps(c, (k - 1) as nat))
    }
}

/// CRC-16 of a byte string: polynomial 0x05 (`x^16 + x^2 + 1`), no
/// reflection, initial value 0xFFFF, each byte entering the high half,
/// MSB-first.
pub open spec fn crc16_of(data: Seq<u8>) -> u16
    decreases data.len(),
{
    if data.len() == 0 {
        0xFFFF
    } else {
        crc16_steps(crc16_of(data.drop_last()) ^ ((data.last() as u16) << 8u16), 8)
    }
}

/// CRC-8 over a byte range (the frame header check), table-free.
pub fn crc8(data: &[u8]) -> (r: u8)
    ensures
        r == crc8_of(data@),
{
    let mut crc: u8 = 0;
    let mut i: usize = 0;
    while i < data.len()
        invariant
            i <= data@.len(),
            crc == crc8_of(data@.take(i as int)),
        decreases data@.len() - i,
    {
        let start = crc ^ data[i];
        crc = start;
        let mut k: u32 = 0;
        while k < 8
            invariant
                k <= 8,
                crc == crc8_steps(start, k as nat),
            decreases 8 - k,
        {
            crc = if crc & 0x80 != 0 {
                (crc << 1) ^ 0x07
            } else {
                crc << 1
            };
            k += 1;
        }
        assert(data@.take(i + 1).drop_last() == data@.take(i as int));
        i += 1;
    }
    assert(data@.take(data@.len() as int) == data@);
    crc
}

/// CRC-16 over a byte range, table-free: polynomial 0x05 with initial value
/// 0xFFFF (see [`crc16_of`]).
pub fn crc16(data: &[u8]) -> (r: u16)
    ensures
        r == crc16_of(data@),
{
    let mut crc: u16 = 0xFFFF;
    let mut i: usize = 0;
    while i < data.len()
        invariant
            i <= data@.len(),
            crc == crc16_of(data@.take(i as int)),
        decreases data@.len() - i,
    {
        let start = crc ^ ((data[i] as u16) << 8);
        crc = start;
        let mut k: u32 = 0;
        while k < 8
            invariant
                k <= 8,
                crc == crc16_steps(start, k as nat),
            decreases 8 - k,
        {
            crc = if crc & 0x8000 != 0 {
                (crc << 1) ^ 0x0005
            } else {
                crc << 1
            };
            k += 1;
        }
        assert(data@.take(i + 1).drop_last() == data@.take(i as int));
        i += 1;
    }
    assert(data@.take(data@.len() as int) == data@);
    crc
}

} // verus!
