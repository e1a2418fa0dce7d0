//! Rings of integers modulo a power of two.
//!
//! Every secret-shared value of this library lives in such a ring. [`IntRing2k`] gives the
//! ring operations together with a model: the integer a value stands for, and the bits of
//! that integer.

use vstd::arithmetic::power2::*;
use vstd::prelude::*;

verus! {

/// Bit `i` of the non-negative integer `x`.
pub open spec fn bit_of(x: int, i: nat) -> bool {
    (x / pow2(i) as int) % 2 == 1
}

/// The integer that a bit stands for.
pub open spec fn bit_int(b: bool) -> int {
    if b {
        1
    } else {
        0
    }
}

/// The ring of integers modulo `2^bits()`.
pub trait IntRing2k: Copy {
    /// Width of an element in bits.
    spec fn bits() -> nat;

    /// Number of elements of the ring.
    spec fn modulus() -> int;

    /// The integer in `0..modulus()` that an element stands for.
    spec fn val(self) -> int;

    /// The element that stands for the residue of `x`.
    spec fn of_int(x: int) -> Self;

    /// Bitwise exclusive or.
    spec fn bxor(self, other: Self) -> Self;

    /// Bitwise and.
    spec fn band(self, other: Self) -> Self;

    /// The modulus is a power of two that fits a machine word.
    proof fn law_modulus()
        ensures
            0 < Self::bits() <= 64,
            Self::modulus() == pow2(Self::bits()),
            2 <= Self::modulus() <= 0x1_0000_0000_0000_0000,
    ;

    /// An element is determined by the integer it stands for.
    proof fn law_val(self)
        ensures
            0 <= self.val() < Self::modulus(),
            Self::of_int(self.val()) == self,
    ;

    /// `of_int` takes the residue.
    proof fn law_of_int(x: int)
        ensures
            Self::of_int(x).val() == x % Self::modulus(),
    ;

    /// The bitwise operations work bit by bit.
    proof fn law_bitwise(self, other: Self, i: nat)
        requires
            i < Self::bits(),
        ensures
            bit_of(self.bxor(other).val(), i) == (bit_of(self.val(), i) != bit_of(other.val(), i)),
            bit_of(self.band(other).val(), i) == (bit_of(self.val(), i) && bit_of(other.val(), i)),
    ;

    /// Width of an element in bits.
    fn width() -> (r: usize)
        ensures
            r == Self::bits(),
    ;

    /// The element that stands for a bit.
    fn from_bit(b: bool) -> (r: Self)
        ensures
            r == Self::of_int(bit_int(b)),
    ;

    /// Sum modulo `2^bits()`.
    fn ring_add(self, other: Self) -> (r: Self)
        ensures
            r == Self::of_int(self.val() + other.val()),
    ;

    /// Difference modulo `2^bits()`.
    fn ring_sub(self, other: Self) -> (r: Self)
        ensures
            r == Self::of_int(self.val() - other.val()),
    ;

    /// Product modulo `2^bits()`.
    fn ring_mul(self, other: Self) -> (r: Self)
        ensures
            r == Self::of_int(self.val() * other.val()),
    ;

    /// Bitwise exclusive or.
    fn ring_xor(self, other: Self) -> (r: Self)
        ensures
            r == self.bxor(other),
    ;

    /// Bitwise and.
    fn ring_and(self, other: Self) -> (r: Self)
        ensures
            r == self.band(other),
    ;

    /// Bit `i`, counted from the least significant one.
    fn bit_at(self, i: usize) -> (r: bool)
        requires
            i < Self::bits(),
        ensures
            r == bit_of(self.val(), i as nat),
    ;

    /// The power `2^i`.
    fn power_of_two(i: usize) -> (r: Self)
        requires
            i < Self::bits(),
        ensures
            r == Self::of_int(pow2(i as nat) as int),
    ;

    /// Whether two elements are the same.
    fn same(self, other: Self) -> (r: bool)
        ensures
            r == (self == other),
    ;
}

impl IntRing2k for bool {
    open spec fn bits() -> nat {
        1
    }

    open spec fn modulus() -> int {
        2
    }

    open spec fn val(self) -> int {
        bit_int(self)
    }

    open spec fn of_int(x: int) -> bool {
        x % 2 == 1
    }

    open spec fn bxor(self, other: bool) -> bool {
        self != other
    }

    open spec fn band(self, other: bool) -> bool {
        self && other
    }

    proof fn law_modulus() {
        lemma2_to64();
    }

    proof fn law_val(self) {
    }

    proof fn law_of_int(x: int) {
    }

    proof fn law_bitwise(self, other: bool, i: nat) {
        lemma2_to64();
        assert(pow2(0) == 1);
    }

    fn width() -> (r: usize) {
        1
    }

    fn from_bit(b: bool) -> (r: bool) {
        b
    }

    fn ring_add(self, other: bool) -> (r: bool) {
        self != other
    }

    fn ring_sub(self, other: bool) -> (r: bool) {
        self != other
    }

    fn ring_mul(self, other: bool) -> (r: bool) {
        assert(bit_int(self) * bit_int(other) == bit_int(self && other)) by (nonlinear_arith);
        self && other
    }

    fn ring_xor(self, other: bool) -> (r: bool) {
        self != other
    }

    fn ring_and(self, other: bool) -> (r: bool) {
        self && other
    }

    fn bit_at(self, i: usize) -> (r: bool) {
        proof {
            lemma2_to64();
            assert(i as nat == 0);
            assert(bit_int(self) / 1 == bit_int(self));
        }
        self
    }

    fn power_of_two(i: usize) -> (r: bool) {
        proof {
            lemma2_to64();
        }
        true
    }

    fn same(self, other: bool) -> (r: bool) {
        self == other
    }
}

impl IntRing2k for u8 {
    open spec fn bits() -> nat {
        8
    }

    open spec fn modulus() -> int {
        0x100
    }

    open spec fn val(self) -> int {
        self as int
    }

    open spec fn of_int(x: int) -> u8 {
        (x % 0x100) as u8
    }

    open spec fn bxor(self, other: u8) -> u8 {
        self ^ other
    }

    open spec fn band(self, other: u8) -> u8 {
        self & other
    }

    proof fn law_modulus() {
        lemma2_to64();
        lemma2_to64_rest();
    }

    proof fn law_val(self) {
    }

    proof fn law_of_int(x: int) {
    }

    proof fn law_bitwise(self, other: u8, i: nat) {
        let s = i as u8;
        let x: u8 = self ^ other;
        let y: u8 = self & other;
        assert({
            &&& ((self ^ other) >> s) & 1 == ((self >> s) & 1) ^ ((other >> s) & 1)
            &&& ((self & other) >> s) & 1 == ((self >> s) & 1) & ((other >> s) & 1)
            &&& (self >> s) & 1 == (self >> s) % 2
            &&& (other >> s) & 1 == (other >> s) % 2
            &&& ((self ^ other) >> s) & 1 == ((self ^ other) >> s) % 2
            &&& ((self & other) >> s) & 1 == ((self & other) >> s) % 2
            &&& 0u8 ^ 0u8 == 0 && 0u8 ^ 1u8 == 1 && 1u8 ^ 0u8 == 1 && 1u8 ^ 1u8 == 0
            &&& 0u8 & 0u8 == 0 && 0u8 & 1u8 == 0 && 1u8 & 0u8 == 0 && 1u8 & 1u8 == 1
        }) by (bit_vector);
        vstd::bits::lemma_u8_shr_is_div(self, s);
        vstd::bits::lemma_u8_shr_is_div(other, s);
        vstd::bits::lemma_u8_shr_is_div(x, s);
        vstd::bits::lemma_u8_shr_is_div(y, s);
    }

    fn width() -> (r: usize) {
        8
    }

    fn from_bit(b: bool) -> (r: u8) {
        if b {
            1
        } else {
            0
        }
    }

    fn ring_add(self, other: u8) -> (r: u8) {
        self.wrapping_add(other)
    }

    fn ring_sub(self, other: u8) -> (r: u8) {
        self.wrapping_sub(other)
    }

    fn ring_mul(self, other: u8) -> (r: u8) {
        self.wrapping_mul(other)
    }

    fn ring_xor(self, other: u8) -> (r: u8) {
        self ^ other
    }

    fn ring_and(self, other: u8) -> (r: u8) {
        self & other
    }

    fn bit_at(self, i: usize) -> (r: bool) {
        let s: u8 = i as u8;
        proof {
            vstd::bits::lemma_u8_shr_is_div(self, s);
            assert((self >> s) & 1 == (self >> s) % 2) by (bit_vector);
        }
        (self >> s) & 1 == 1
    }

    fn power_of_two(i: usize) -> (r: u8) {
        let s: u8 = i as u8;
        proof {
            vstd::bits::lemma_u8_pow2_no_overflow(i as nat);
            assert(1 * pow2(i as nat) == pow2(i as nat));
            vstd::bits::lemma_u8_shl_is_mul(1, s);
        }
        1u8 << s
    }

    fn same(self, other: u8) -> (r: bool) {
        self == other
    }
}

impl IntRing2k for u16 {
    open spec fn bits() -> nat {
        16
    }

    open spec fn modulus() -> int {
        0x1_0000
    }

    open spec fn val(self) -> int {
        self as int
    }

    open spec fn of_int(x: int) -> u16 {
        (x % 0x1_0000) as u16
    }

    open spec fn bxor(self, other: u16) -> u16 {
        self ^ other
    }

    open spec fn band(self, other: u16) -> u16 {
        self & other
    }

    proof fn law_modulus() {
        lemma2_to64();
        lemma2_to64_rest();
    }

    proof fn law_val(self) {
    }

    proof fn law_of_int(x: int) {
    }

    proof fn law_bitwise(self, other: u16, i: nat) {
        let s = i as u16;
        let x: u16 = self ^ other;
        let y: u16 = self & other;
        assert({
            &&& ((self ^ other) >> s) & 1 == ((self >> s) & 1) ^ ((other >> s) & 1)
            &&& ((self & other) >> s) & 1 == ((self >> s) & 1) & ((other >> s) & 1)
            &&& (self >> s) & 1 == (self >> s) % 2
            &&& (other >> s) & 1 == (other >> s) % 2
            &&& ((self ^ other) >> s) & 1 == ((self ^ other) >> s) % 2
            &&& ((self & other) >> s) & 1 == ((self & other) >> s) % 2
            &&& 0u16 ^ 0u16 == 0 && 0u16 ^ 1u16 == 1 && 1u16 ^ 0u16 == 1 && 1u16 ^ 1u16 == 0
            &&& 0u16 & 0u16 == 0 && 0u16 & 1u16 == 0 && 1u16 & 0u16 == 0 && 1u16 & 1u16 == 1
        }) by (bit_vector);
        vstd::bits::lemma_u16_shr_is_div(self, s);
        vstd::bits::lemma_u16_shr_is_div(other, s);
        vstd::bits::lemma_u16_shr_is_div(x, s);
        vstd::bits::lemma_u16_shr_is_div(y, s);
    }

    fn width() -> (r: usize) {
        16
    }

    fn from_bit(b: bool) -> (r: u16) {
        if b {
            1
        } else {
            0
        }
    }

    fn ring_add(self, other: u16) -> (r: u16) {
        self.wrapping_add(other)
    }

    fn ring_sub(self, other: u16) -> (r: u16) {
        self.wrapping_sub(other)
    }

    fn ring_mul(self, other: u16) -> (r: u16) {
        self.wrapping_mul(other)
    }

    fn ring_xor(self, other: u16) -> (r: u16) {
        self ^ other
    }

    fn ring_and(self, other: u16) -> (r: u16) {
        self & other
    }

    fn bit_at(self, i: usize) -> (r: bool) {
        let s: u16 = i as u16;
        proof {
            vstd::bits::lemma_u16_shr_is_div(self, s);
            assert((self >> s) & 1 == (self >> s) % 2) by (bit_vector);
        }
        (self >> s) & 1 == 1
    }

    fn power_of_two(i: usize) -> (r: u16) {
        let s: u16 = i as u16;
        proof {
            vstd::bits::lemma_u16_pow2_no_overflow(i as nat);
            assert(1 * pow2(i as nat) == pow2(i as nat));
            vstd::bits::lemma_u16_shl_is_mul(1, s);
        }
        1u16 << s
    }

    fn same(self, other: u16) -> (r: bool) {
        self == other
    }
}

impl IntRing2k for u32 {
    open spec fn bits() -> nat {
        32
    }

    open spec fn modulus() -> int {
        0x1_0000_0000
    }

    open spec fn val(self) -> int {
        self as int
    }

    open spec fn of_int(x: int) -> u32 {
        (x % 0x1_0000_0000) as u32
    }

    open spec fn bxor(self, other: u32) -> u32 {
        self ^ other
    }

    open spec fn band(self, other: u32) -> u32 {
        self & other
    }

    proof fn law_modulus() {
        lemma2_to64();
        lemma2_to64_rest();
    }

    proof fn law_val(self) {
    }

    proof fn law_of_int(x: int) {
    }

    proof fn law_bitwise(self, other: u32, i: nat) {
        let s = i as u32;
        let x: u32 = self ^ other;
        let y: u32 = self & other;
        assert({
            &&& ((self ^ other) >> s) & 1 == ((self >> s) & 1) ^ ((other >> s) & 1)
            &&& ((self & other) >> s) & 1 == ((self >> s) & 1) & ((other >> s) & 1)
            &&& (self >> s) & 1 == (self >> s) % 2
            &&& (other >> s) & 1 == (other >> s) % 2
            &&& ((self ^ other) >> s) & 1 == ((self ^ other) >> s) % 2
            &&& ((self & other) >> s) & 1 == ((self & other) >> s) % 2
            &&& 0u32 ^ 0u32 == 0 && 0u32 ^ 1u32 == 1 && 1u32 ^ 0u32 == 1 && 1u32 ^ 1u32 == 0
            &&& 0u32 & 0u32 == 0 && 0u32 & 1u32 == 0 && 1u32 & 0u32 == 0 && 1u32 & 1u32 == 1
        }) by (bit_vector);
        vstd::bits::lemma_u32_shr_is_div(self, s);
        vstd::bits::lemma_u32_shr_is_div(other, s);
        vstd::bits::lemma_u32_shr_is_div(x, s);
        vstd::bits::lemma_u32_shr_is_div(y, s);
    }

    fn width() -> (r: usize) {
        32
    }

    fn from_bit(b: bool) -> (r: u32) {
        if b {
            1
        } else {
            0
        }
    }

    fn ring_add(self, other: u32) -> (r: u32) {
        self.wrapping_add(other)
    }

    fn ring_sub(self, other: u32) -> (r: u32) {
        self.wrapping_sub(other)
    }

    fn ring_mul(self, other: u32) -> (r: u32) {
        self.wrapping_mul(other)
    }

    fn ring_xor(self, other: u32) -> (r: u32) {
        self ^ other
    }

    fn ring_and(self, other: u32) -> (r: u32) {
        self & other
    }

    fn bit_at(self, i: usize) -> (r: bool) {
        let s: u32 = i as u32;
        proof {
            vstd::bits::lemma_u32_shr_is_div(self, s);
            assert((self >> s) & 1 == (self >> s) % 2) by (bit_vector);
        }
        (self >> s) & 1 == 1
    }

    fn power_of_two(i: usize) -> (r: u32) {
        let s: u32 = i as u32;
        proof {
            vstd::bits::lemma_u32_pow2_no_overflow(i as nat);
            assert(1 * pow2(i as nat) == pow2(i as nat));
            vstd::bits::lemma_u32_shl_is_mul(1, s);
        }
        1u32 << s
    }

    fn same(self, other: u32) -> (r: bool) {
        self == other
    }
}

impl IntRing2k for u64 {
    open spec fn bits() -> nat {
        64
    }

    open spec fn modulus() -> int {
        0x1_0000_0000_0000_0000
    }

    open spec fn val(self) -> int {
        self as int
    }

    open spec fn of_int(x: int) -> u64 {
        (x % 0x1_0000_0000_0000_0000) as u64
    }

    open spec fn bxor(self, other: u64) -> u64 {
        self ^ other
    }

    open spec fn band(self, other: u64) -> u64 {
        self & other
    }

    proof fn law_modulus() {
        lemma2_to64();
        lemma2_to64_rest();
    }

    proof fn law_val(self) {
    }

    proof fn law_of_int(x: int) {
    }

    proof fn law_bitwise(self, other: u64, i: nat) {
        let s = i as u64;
        let x: u64 = self ^ other;
        let y: u64 = self & other;
        assert({
            &&& ((self ^ other) >> s) & 1 == ((self >> s) & 1) ^ ((other >> s) & 1)
            &&& ((self & other) >> s) & 1 == ((self >> s) & 1) & ((other >> s) & 1)
            &&& (self >> s) & 1 == (self >> s) % 2
            &&& (other >> s) & 1 == (other >> s) % 2
            &&& ((self ^ other) >> s) & 1 == ((self ^ other) >> s) % 2
            &&& ((self & other) >> s) & 1 == ((self & other) >> s) % 2
            &&& 0u64 ^ 0u64 == 0 && 0u64 ^ 1u64 == 1 && 1u64 ^ 0u64 == 1 && 1u64 ^ 1u64 == 0
            &&& 0u64 & 0u64 == 0 && 0u64 & 1u64 == 0 && 1u64 & 0u64 == 0 && 1u64 & 1u64 == 1
        }) by (bit_vector);
        vstd::bits::lemma_u64_shr_is_div(self, s);
        vstd::bits::lemma_u64_shr_is_div(other, s);
        vstd::bits::lemma_u64_shr_is_div(x, s);
        vstd::bits::lemma_u64_shr_is_div(y, s);
    }

    fn width() -> (r: usize) {
        64
    }

    fn from_bit(b: bool) -> (r: u64) {
        if b {
            1
        } else {
            0
        }
    }

    fn ring_add(self, other: u64) -> (r: u64) {
        self.wrapping_add(other)
    }

    fn ring_sub(self, other: u64) -> (r: u64) {
        self.wrapping_sub(other)
    }

    fn ring_mul(self, other: u64) -> (r: u64) {
        self.wrapping_mul(other)
    }

    fn ring_xor(self, other: u64) -> (r: u64) {
        self ^ other
    }

    fn ring_and(self, other: u64) -> (r: u64) {
        self & other
    }

    fn bit_at(self, i: usize) -> (r: bool) {
        let s: u64 = i as u64;
        proof {
            vstd::bits::lemma_u64_shr_is_div(self, s);
            assert((self >> s) & 1 == (self >> s) % 2) by (bit_vector);
        }
        (self >> s) & 1 == 1
    }

    fn power_of_two(i: usize) -> (r: u64) {
        let s: u64 = i as u64;
        proof {
            vstd::bits::lemma_u64_pow2_no_overflow(i as nat);
            assert(1 * pow2(i as nat) == pow2(i as nat));
            vstd::bits::lemma_u64_shl_is_mul(1, s);
        }
        1u64 << s
    }

    fn same(self, other: u64) -> (r: bool) {
        self == other
    }
}

} // verus!
