//! The ring of integers modulo `2^48`.

use crate::ring::IntRing2k;
use vstd::arithmetic::div_mod::*;
use vstd::arithmetic::power2::*;
use vstd::prelude::*;

verus! {

/// An element of the ring: its upper 16 and its lower 32 bits.
#[derive(Clone, Copy, Debug, PartialEq, Eq, Structural)]
pub struct Ring48 {
    pub upper: u16,
    pub lower: u32,
}

impl Ring48 {
    /// The element as a machine word.
    pub open spec fn word(self) -> u64 {
        (self.upper * 0x1_0000_0000 + self.lower) as u64
    }

    /// The element that a word stands for: its upper 16 bits are cut off.
    pub fn masked(x: u64) -> (r: Ring48)
        ensures
            r == Ring48::of_int(x as int),
            r.word() == x % 0x1_0000_0000_0000,
    {
        let low: u64 = x % 0x1_0000_0000_0000;
        Ring48 { upper: (low / 0x1_0000_0000) as u16, lower: (low % 0x1_0000_0000) as u32 }
    }

    /// The element as a machine word.
    pub fn to_word(self) -> (r: u64)
        ensures
            r == self.word(),
            r == self.val(),
            r < 0x1_0000_0000_0000,
    {
        self.upper as u64 * 0x1_0000_0000 + self.lower as u64
    }
}

/// Residues of a residue.
proof fn lemma_residue(x: int)
    ensures
        (x % 0x1_0000_0000_0000_0000) % 0x1_0000_0000_0000 == x % 0x1_0000_0000_0000,
{
    lemma_mod_mod(x, 0x1_0000_0000_0000, 0x1_0000);
}

/// The bitwise operations on words of 48 bits give words of 48 bits.
proof fn lemma_words_stay_small(x: u64, y: u64)
    requires
        x < 0x1_0000_0000_0000,
        y < 0x1_0000_0000_0000,
    ensures
        x ^ y < 0x1_0000_0000_0000,
        x & y < 0x1_0000_0000_0000,
{
    assert(x ^ y < 0x1_0000_0000_0000 && x & y < 0x1_0000_0000_0000) by (bit_vector)
        requires
            x < 0x1_0000_0000_0000,
            y < 0x1_0000_0000_0000,
    ;
}

impl IntRing2k for Ring48 {
    open spec fn bits() -> nat {
        48
    }

    open spec fn modulus() -> int {
        0x1_0000_0000_0000
    }

    open spec fn val(self) -> int {
        self.upper * 0x1_0000_0000 + self.lower
    }

    open spec fn of_int(x: int) -> Ring48 {
        let low = x % 0x1_0000_0000_0000;
        Ring48 { upper: (low / 0x1_0000_0000) as u16, lower: (low % 0x1_0000_0000) as u32 }
    }

    open spec fn bxor(self, other: Ring48) -> Ring48 {
        Ring48::of_int((self.word() ^ other.word()) as int)
    }

    open spec fn band(self, other: Ring48) -> Ring48 {
        Ring48::of_int((self.word() & other.word()) as int)
    }

    proof fn law_modulus() {
        lemma2_to64();
        lemma2_to64_rest();
    }

    proof fn law_val(self) {
    }

    proof fn law_of_int(x: int) {
    }

    proof fn law_bitwise(self, other: Ring48, i: nat) {
        let (x, y) = (self.word(), other.word());
        lemma_words_stay_small(x, y);
        x.law_bitwise(y, i);
        assert(self.bxor(other).val() == x ^ y);
        assert(self.band(other).val() == x & y);
    }

    fn width() -> (r: usize) {
        48
    }

    fn from_bit(b: bool) -> (r: Ring48) {
        Ring48 {
            upper: 0,
            lower: if b {
                1
            } else {
                0
            },
        }
    }

    fn ring_add(self, other: Ring48) -> (r: Ring48) {
        Ring48::masked(self.to_word() + other.to_word())
    }

    fn ring_sub(self, other: Ring48) -> (r: Ring48) {
        proof {
            lemma_residue(self.val() - other.val());
        }
        Ring48::masked(self.to_word().wrapping_sub(other.to_word()))
    }

    fn ring_mul(self, other: Ring48) -> (r: Ring48) {
        proof {
            lemma_residue(self.val() * other.val());
        }
        Ring48::masked(self.to_word().wrapping_mul(other.to_word()))
    }

    fn ring_xor(self, other: Ring48) -> (r: Ring48) {
        Ring48::masked(self.to_word() ^ other.to_word())
    }

    fn ring_and(self, other: Ring48) -> (r: Ring48) {
        Ring48::masked(self.to_word() & other.to_word())
    }

    fn bit_at(self, i: usize) -> (r: bool) {
        self.to_word().bit_at(i)
    }

    fn power_of_two(i: usize) -> (r: Ring48) {
        let word: u64 = u64::power_of_two(i);
        proof {
            u64::law_of_int(pow2(i as nat) as int);
            lemma_residue(pow2(i as nat) as int);
        }
        Ring48::masked(word)
    }

    fn same(self, other: Ring48) -> (r: bool) {
        self.upper == other.upper && self.lower == other.lower
    }
}

} // verus!
