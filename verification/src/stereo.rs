//! Stereo decorrelation (RFC 9639 §4.2, Table 16).
//!
//! FLAC may store a stereo pair as two subframes plus a channel-assignment
//! code naming how to recombine them:
//!
//! | Assignment | Subframe 0 | Subframe 1 |
//! |---|---|---|
//! | `0b1000` left/side | left | side = L−R |
//! | `0b1001` side/right | side = L−R | right |
//! | `0b1010` mid/side | mid = (L+R)>>1 | side = L−R |
//!
//! `mid` drops the low bit of `L+R`, and that bit is recoverable: `L+R` and
//! `L−R` have the same parity, so `side & 1` is the lost bit. Hence
//! `m_ext = 2·mid + (side & 1)` is `L+R` exactly, and `(m_ext ± side) / 2`
//! never rounds. The transform is independent per sample.
use vstd::prelude::*;

use crate::Error;
use crate::format::ChannelConfig;

verus! {

/// The output pair for one stored pair `(a, b)` (subframe 0, subframe 1),
/// computed exactly and stored as `i32`.
pub open spec fn recombined(config: ChannelConfig, a: i32, b: i32) -> (i32, i32) {
    match config {
        ChannelConfig::Independent { .. } => (a, b),
        ChannelConfig::LeftSide => (a, (a - b) as i32),
        ChannelConfig::RightSide => ((a + b) as i32, b),
        ChannelConfig::MidSide => {
            let m_ext = 2 * a + b % 2;
            (((m_ext + b) / 2) as i32, ((m_ext - b) / 2) as i32)
        },
    }
}

/// What an encoder stores for the true pair `(l, r)` under each assignment
/// (the mid rounds toward negative infinity, an arithmetic shift).
pub open spec fn stored_pair(config: ChannelConfig, l: int, r: int) -> (int, int) {
    match config {
        ChannelConfig::Independent { .. } => (l, r),
        ChannelConfig::LeftSide => (l, l - r),
        ChannelConfig::RightSide => (l - r, r),
        ChannelConfig::MidSide => ((l + r) / 2, l - r),
    }
}

/// Recombination undoes the encoder's transform: for every assignment and
/// every sample pair whose stored values fit `i32`, decorrelating what the
/// encoder stores gives back the pair it started from.
pub proof fn lemma_recombine_inverts_store(config: ChannelConfig, l: i32, r: i32)
    requires
        i32::MIN <= stored_pair(config, l as int, r as int).0 <= i32::MAX,
        i32::MIN <= stored_pair(config, l as int, r as int).1 <= i32::MAX,
    ensures
        recombined(
            config,
            stored_pair(config, l as int, r as int).0 as i32,
            stored_pair(config, l as int, r as int).1 as i32,
        ) == (l, r),
{
    if config is MidSide {
        let sum = l + r;
        let m = sum / 2;
        let s = l - r;
        vstd::arithmetic::div_mod::lemma_fundamental_div_mod(sum as int, 2);
        vstd::arithmetic::div_mod::lemma_mod_pos_bound(sum as int + 0x1_0000_0000, 2);
        vstd::arithmetic::div_mod::lemma_fundamental_div_mod(s as int, 2);
        vstd::arithmetic::div_mod::lemma_mod_pos_bound(s as int + 0x1_0000_0000, 2);
        assert(s % 2 == sum % 2) by {
            vstd::arithmetic::div_mod::lemma_mod_sub_multiples_vanish(sum as int, 2);
            vstd::arithmetic::div_mod::lemma_fundamental_div_mod_converse(
                s as int,
                2,
                sum / 2 - r,
                sum % 2,
            );
        }
        assert((2 * m + s % 2 + s) / 2 == l as int) by {
            vstd::arithmetic::div_mod::lemma_fundamental_div_mod_converse(
                2 * m + s % 2 + s,
                2,
                l as int,
                0,
            );
        }
        assert((2 * m + s % 2 - s) / 2 == r as int) by {
            vstd::arithmetic::div_mod::lemma_fundamental_div_mod_converse(
                2 * m + s % 2 - s,
                2,
                r as int,
                0,
            );
        }
    }
}

/// Recombine two decoded subframes into left/right PCM, in place.
///
/// On entry `left` holds subframe 0 and `right` subframe 1 (for side/right,
/// `left` holds the side); on exit they hold the channels, per
/// [`recombined`]. Exactly `blocksize` samples are processed; anything
/// beyond stays untouched.
///
/// Mono ([`ChannelConfig::Independent`] with one channel) checks `left`
/// alone, so it may pass an empty `right`; every other assignment needs
/// both buffers at least `blocksize` long. A short buffer is
/// [`Error::InvalidField`] with nothing written.
pub fn decorrelate(config: ChannelConfig, blocksize: usize, left: &mut [i32], right: &mut [i32]) -> (r:
    Result<(), Error>)
    ensures
        final(left)@.len() == old(left)@.len(),
        final(right)@.len() == old(right)@.len(),
        (if config == (ChannelConfig::Independent { channels: 1 }) {
            old(left)@.len() < blocksize
        } else {
            old(left)@.len() < blocksize || old(right)@.len() < blocksize
        }) ==> r == Err::<(), Error>(Error::InvalidField) && final(left)@ == old(left)@
            && final(right)@ == old(right)@,
        r is Ok ==> (config is Independent ==> final(left)@ == old(left)@ && final(right)@ == old(
            right,
        )@),
        !(if config == (ChannelConfig::Independent { channels: 1 }) {
            old(left)@.len() < blocksize
        } else {
            old(left)@.len() < blocksize || old(right)@.len() < blocksize
        }) ==> r is Ok && forall|i: int|
            0 <= i < blocksize ==> (#[trigger] final(left)@[i], final(right)@[i]) == recombined(
                config,
                old(left)@[i],
                old(right)@[i],
            ),
        r is Ok ==> forall|i: int|
            blocksize <= i < old(left)@.len() ==> #[trigger] final(left)@[i] == old(left)@[i],
        r is Ok ==> forall|i: int|
            blocksize <= i < old(right)@.len() ==> #[trigger] final(right)@[i] == old(right)@[i],
{
    match config {
        ChannelConfig::Independent { channels } => {
            if channels == 1 {
                if left.len() < blocksize {
                    return Err(Error::InvalidField);
                }
            } else if left.len() < blocksize || right.len() < blocksize {
                return Err(Error::InvalidField);
            }
            assert(config != (ChannelConfig::Independent { channels: 1 }) ==> channels != 1);
            return Ok(());
        },
        _ => {},
    }
    if left.len() < blocksize || right.len() < blocksize {
        return Err(Error::InvalidField);
    }
    let mut i: usize = 0;
    while i < blocksize
        invariant
            !(config is Independent),
            blocksize <= left@.len(),
            blocksize <= right@.len(),
            left@.len() == old(left)@.len(),
            right@.len() == old(right)@.len(),
            i <= blocksize,
            forall|k: int|
                0 <= k < i ==> (#[trigger] left@[k], right@[k]) == recombined(
                    config,
                    old(left)@[k],
                    old(right)@[k],
                ),
            forall|k: int| i <= k < left@.len() ==> #[trigger] left@[k] == old(left)@[k],
            forall|k: int| i <= k < right@.len() ==> #[trigger] right@[k] == old(right)@[k],
        decreases blocksize - i,
    {
        let a = left[i] as i64;
        let b = right[i] as i64;
        let (x, y): (i64, i64) = match config {
            ChannelConfig::LeftSide => (a, a - b),
            ChannelConfig::RightSide => (a + b, b),
            _ => {
                let lsb = b.checked_rem_euclid(2).unwrap();
                let m_ext = 2 * a + lsb;
                ((m_ext + b).checked_div_euclid(2).unwrap(), (m_ext - b).checked_div_euclid(2).unwrap())
            },
        };
        left[i] = x as i32;
        right[i] = y as i32;
        i += 1;
    }
    Ok(())
}

} // verus!
