//! 16-bit packed color voxels.

use vstd::prelude::*;
use vstd::arithmetic::div_mod::lemma_fundamental_div_mod_converse;

verus! {

/// Number of bytes one voxel occupies in packed form.
pub const RGB_VOXEL_SIZE: usize = 2;

/// 16-bit color voxel: 5 bits of red, 6 bits of green, 5 bits of blue.
/// The human eye is more sensitive to green tones, so green keeps the
/// extra bit.  The all-zero value is the unique "no voxel here" sentinel;
/// any other bit pattern is an occupied voxel.
#[derive(Clone, Copy, Debug, PartialEq, Eq, Structural)]
pub struct RgbVoxel {
    pub red: u8,
    pub green: u8,
    pub blue: u8,
}

impl RgbVoxel {
    /// The channels fit their 5/6/5 bit fields.
    pub open spec fn wf(self) -> bool {
        self.red < 32 && self.green < 64 && self.blue < 32
    }

    /// The sentinel value: every channel zero.
    pub open spec fn empty_spec() -> RgbVoxel {
        RgbVoxel { red: 0, green: 0, blue: 0 }
    }

    /// The 16-bit wire word: red in bits [0,5), green in [5,11), blue in [11,16).
    pub open spec fn word(self) -> int {
        self.red + self.green * 32 + self.blue * 2048
    }

    /// The voxel whose wire word is `w`.
    pub open spec fn of_word(w: int) -> RgbVoxel {
        RgbVoxel { red: (w % 32) as u8, green: ((w / 32) % 64) as u8, blue: ((w / 2048) % 32) as u8 }
    }

    /// Little-endian byte pair of the wire word.
    pub open spec fn wire_bytes(self) -> Seq<u8> {
        seq![(self.word() % 256) as u8, (self.word() / 256) as u8]
    }

    /// Empty voxel is a voxel with all channels set to zero.
    pub fn empty() -> (r: RgbVoxel)
        ensures
            r == RgbVoxel::empty_spec(),
    {
        RgbVoxel { red: 0, green: 0, blue: 0 }
    }

    /// A voxel is empty exactly when all channels are zero.
    pub fn is_empty(&self) -> (r: bool)
        ensures
            r == (*self == RgbVoxel::empty_spec()),
    {
        self.red == 0 && self.green == 0 && self.blue == 0
    }

    /// Make a color from red, green and blue fields.  Callers pre-scale
    /// 8-bit channels into the 5/6/5 ranges themselves.
    pub fn rgb(red: u8, green: u8, blue: u8) -> (r: RgbVoxel)
        requires
            red < 32,
            green < 64,
            blue < 32,
        ensures
            r == (RgbVoxel { red, green, blue }),
    {
        RgbVoxel { red, green, blue }
    }

    /// A pure shade of red.
    pub fn only_red(red: u8) -> (r: RgbVoxel)
        requires
            red < 32,
        ensures
            r == (RgbVoxel { red, green: 0, blue: 0 }),
    {
        RgbVoxel { red, green: 0, blue: 0 }
    }

    /// A pure shade of green.
    pub fn only_green(green: u8) -> (r: RgbVoxel)
        requires
            green < 64,
        ensures
            r == (RgbVoxel { red: 0, green, blue: 0 }),
    {
        RgbVoxel { red: 0, green, blue: 0 }
    }

    /// A pure shade of blue.
    pub fn only_blue(blue: u8) -> (r: RgbVoxel)
        requires
            blue < 32,
        ensures
            r == (RgbVoxel { red: 0, green: 0, blue }),
    {
        RgbVoxel { red: 0, green: 0, blue }
    }

    /// Pack the voxel into its two little-endian wire bytes.
    pub fn into_bytes(&self) -> (r: [u8; 2])
        requires
            self.wf(),
        ensures
            r@ == self.wire_bytes(),
    {
        let w: u16 = self.red as u16 + (self.green as u16) * 32 + (self.blue as u16) * 2048;
        let lo = (w % 256) as u8;
        let hi = (w / 256) as u8;
        let r = [lo, hi];
        proof {
            assert(r@ =~= self.wire_bytes());
        }
        r
    }

    /// Unpack a voxel from its two little-endian wire bytes.
    pub fn from_bytes(bytes: [u8; 2]) -> (r: RgbVoxel)
        ensures
            r == RgbVoxel::of_word(bytes@[0] + bytes@[1] * 256),
            r.wf(),
    {
        let w: u16 = bytes[0] as u16 + (bytes[1] as u16) * 256;
        RgbVoxel { red: (w % 32) as u8, green: ((w / 32) % 64) as u8, blue: ((w / 2048) % 32) as u8 }
    }
}

/// Decoding inverts encoding: a well-formed voxel is recovered from its
/// own wire word, which always fits 16 bits.
pub proof fn lemma_voxel_word_roundtrip(v: RgbVoxel)
    requires
        v.wf(),
    ensures
        0 <= v.word() < 65536,
        RgbVoxel::of_word(v.word()) == v,
{
    let w = v.word();
    lemma_fundamental_div_mod_converse(w, 32, v.green + 64 * v.blue, v.red as int);
    lemma_fundamental_div_mod_converse(v.green + 64 * v.blue, 64, v.blue as int, v.green as int);
    lemma_fundamental_div_mod_converse(w, 2048, v.blue as int, v.red + 32 * v.green);
}

} // verus!
