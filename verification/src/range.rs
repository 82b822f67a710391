//! Packed run descriptors: skip a stretch of empty voxels, then draw some.

use vstd::prelude::*;
use vstd::arithmetic::div_mod::lemma_fundamental_div_mod_converse;

verus! {

/// Number of bytes one range occupies in packed form.
pub const RLE_RANGE_SIZE: usize = 2;

/// Number of values the skipped field can represent.
pub const RLE_SKIPPED_MAX: usize = 1024;

/// Number of values the drawn field can represent.
pub const RLE_DRAWN_MAX: usize = 64;

/// One run-length range of a voxel column: first `skipped` empty voxels,
/// then `drawn` voxels whose colors come from the column's color list.
/// On the wire it is a 16-bit word with skipped in bits [0,10) and drawn
/// in bits [10,16), so no range may hold more than 1023 skipped or 63
/// drawn voxels; longer runs are split over several ranges.
#[derive(Clone, Copy, Debug, PartialEq, Eq, Structural)]
pub struct RleRange {
    /// How many voxels are not drawn before the drawn part.
    pub skipped: u16,
    /// How many voxels are drawn after the skipped part.
    pub drawn: u8,
}

impl RleRange {
    /// Both counters fit their 10/6 bit fields.
    pub open spec fn wf(self) -> bool {
        self.skipped < 1024 && self.drawn < 64
    }

    /// The 16-bit wire word: skipped in bits [0,10), drawn in [10,16).
    pub open spec fn word(self) -> int {
        self.skipped + self.drawn * 1024
    }

    /// The range whose wire word is `w`.
    pub open spec fn of_word(w: int) -> RleRange {
        RleRange { skipped: (w % 1024) as u16, drawn: ((w / 1024) % 64) as u8 }
    }

    /// Little-endian byte pair of the wire word.
    pub open spec fn wire_bytes(self) -> Seq<u8> {
        seq![(self.word() % 256) as u8, (self.word() / 256) as u8]
    }

    /// Construct a range from its skipped and drawn counters.
    pub fn range(skipped: u16, drawn: u8) -> (r: RleRange)
        requires
            skipped < 1024,
            drawn < 64,
        ensures
            r == (RleRange { skipped, drawn }),
    {
        RleRange { skipped, drawn }
    }

    /// Pack the range into its two little-endian wire bytes.
    pub fn into_bytes(&self) -> (r: [u8; 2])
        requires
            self.wf(),
        ensures
            r@ == self.wire_bytes(),
    {
        let w: u16 = self.skipped + (self.drawn as u16) * 1024;
        let lo = (w % 256) as u8;
        let hi = (w / 256) as u8;
        let r = [lo, hi];
        proof {
            assert(r@ =~= self.wire_bytes());
        }
        r
    }

    /// Unpack a range from its two little-endian wire bytes.
    pub fn from_bytes(bytes: [u8; 2]) -> (r: RleRange)
        ensures
            r == RleRange::of_word(bytes@[0] + bytes@[1] * 256),
            r.wf(),
    {
        let w: u16 = bytes[0] as u16 + (bytes[1] as u16) * 256;
        RleRange { skipped: w % 1024, drawn: ((w / 1024) % 64) as u8 }
    }
}

/// Decoding inverts encoding: a well-formed range is recovered from its
/// own wire word, which always fits 16 bits.
pub proof fn lemma_range_word_roundtrip(r: RleRange)
    requires
        r.wf(),
    ensures
        0 <= r.word() < 65536,
        RleRange::of_word(r.word()) == r,
{
    lemma_fundamental_div_mod_converse(r.word(), 1024, r.drawn as int, r.skipped as int);
}

} // verus!
