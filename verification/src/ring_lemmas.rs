//! Facts about [`IntRing2k`] that hold in every ring.

use crate::ring::{bit_of, IntRing2k};
use vstd::arithmetic::div_mod::*;
use vstd::arithmetic::mul::*;
use vstd::arithmetic::power2::*;
use vstd::prelude::*;

verus! {

/// Bit `i` of an element.
pub open spec fn bit<T: IntRing2k>(x: T, i: nat) -> bool {
    bit_of(x.val(), i)
}

/// The element zero.
pub open spec fn zero<T: IntRing2k>() -> T {
    T::of_int(0)
}

/// The element one.
pub open spec fn one<T: IntRing2k>() -> T {
    T::of_int(1)
}

/// Integers that differ by a multiple of the modulus stand for the same element.
pub proof fn lemma_shift<T: IntRing2k>(x: int, q: int)
    ensures
        T::of_int(x + q * T::modulus()) == T::of_int(x),
{
    T::law_modulus();
    T::law_of_int(x);
    T::law_of_int(x + q * T::modulus());
    T::of_int(x).law_val();
    T::of_int(x + q * T::modulus()).law_val();
    lemma_mod_multiples_vanish(q, x, T::modulus());
    lemma_mul_is_commutative(q, T::modulus());
}

/// The integer of `of_int(x)` differs from `x` by a multiple of the modulus, which is returned.
pub proof fn lemma_reduce<T: IntRing2k>(x: int) -> (q: int)
    ensures
        T::of_int(x).val() == x - q * T::modulus(),
{
    T::law_modulus();
    T::law_of_int(x);
    let q = x / T::modulus();
    lemma_fundamental_div_mod(x, T::modulus());
    lemma_mul_is_commutative(q, T::modulus());
    q
}

/// A small integer is the integer of its element.
pub proof fn lemma_small<T: IntRing2k>(x: int)
    requires
        0 <= x < T::modulus(),
    ensures
        T::of_int(x).val() == x,
{
    T::law_of_int(x);
    lemma_small_mod(x as nat, T::modulus() as nat);
}

/// A reduced summand may be replaced by the integer it was reduced from.
pub proof fn lemma_absorb<T: IntRing2k>(x: int, y: int)
    ensures
        T::of_int(T::of_int(x).val() + y) == T::of_int(x + y),
{
    let q = lemma_reduce::<T>(x);
    lemma_shift::<T>(x + y, -q);
    lemma_mul_unary_negation(q, T::modulus());
    assert(T::of_int(x).val() + y == x + y + (-q) * T::modulus());
}

/// A reduced subtrahend may be replaced by the integer it was reduced from.
pub proof fn lemma_absorb_sub<T: IntRing2k>(x: int, y: int)
    ensures
        T::of_int(y - T::of_int(x).val()) == T::of_int(y - x),
{
    let q = lemma_reduce::<T>(x);
    lemma_shift::<T>(y - x, q);
}

/// A reduced factor may be replaced by the integer it was reduced from.
pub proof fn lemma_absorb_mul<T: IntRing2k>(x: int, y: int)
    ensures
        T::of_int(T::of_int(x).val() * y) == T::of_int(x * y),
{
    let q = lemma_reduce::<T>(x);
    let m = T::modulus();
    assert((x - q * m) * y == x * y + (-(q * y)) * m) by (nonlinear_arith);
    lemma_shift::<T>(x * y, -(q * y));
}

/// Adding three reduced integers is adding the integers.
pub proof fn lemma_sum3<T: IntRing2k>(x: int, y: int, z: int)
    ensures
        T::of_int(T::of_int(x).val() + T::of_int(y).val() + T::of_int(z).val()) == T::of_int(
            x + y + z,
        ),
{
    lemma_absorb::<T>(x, T::of_int(y).val() + T::of_int(z).val());
    lemma_absorb::<T>(y, x + T::of_int(z).val());
    lemma_absorb::<T>(z, x + y);
}

/// Two integers below `2^k` with the same `k` bits are equal.
pub proof fn lemma_bits_determine(x: int, y: int, k: nat)
    requires
        0 <= x < pow2(k),
        0 <= y < pow2(k),
        forall|i: nat| i < k ==> bit_of(x, i) == bit_of(y, i),
    ensures
        x == y,
    decreases k,
{
    if k == 0 {
        lemma2_to64();
    } else {
        lemma2_to64();
        lemma_pow2_unfold(k);
        assert(bit_of(x, 0) == bit_of(y, 0));
        assert(x / 1 == x && y / 1 == y);
        let (u, v) = (x / 2, y / 2);
        assert forall|i: nat| i < (k - 1) as nat implies bit_of(u, i) == bit_of(v, i) by {
            lemma_bit_of_half(x, i);
            lemma_bit_of_half(y, i);
            assert(bit_of(x, i + 1) == bit_of(y, i + 1));
        }
        lemma_bits_determine(u, v, (k - 1) as nat);
    }
}

/// Halving moves every bit down by one place.
pub proof fn lemma_bit_of_half(x: int, i: nat)
    requires
        0 <= x,
    ensures
        bit_of(x / 2, i) == bit_of(x, i + 1),
{
    lemma_pow2_pos(i);
    lemma_pow2_unfold(i + 1);
    lemma_div_denominator(x, 2, pow2(i) as int);
}

/// Elements with the same bits are the same.
pub proof fn lemma_bits_ext<T: IntRing2k>(a: T, b: T)
    requires
        forall|i: nat| i < T::bits() ==> bit(a, i) == bit(b, i),
    ensures
        a == b,
{
    T::law_modulus();
    a.law_val();
    b.law_val();
    assert forall|i: nat| i < T::bits() implies bit_of(a.val(), i) == bit_of(b.val(), i) by {
        assert(bit(a, i) == bit(b, i));
    }
    lemma_bits_determine(a.val(), b.val(), T::bits());
}

pub broadcast proof fn lemma_xor_bit<T: IntRing2k>(a: T, b: T, i: nat)
    requires
        i < T::bits(),
    ensures
        #[trigger] bit(a.bxor(b), i) == (bit(a, i) != bit(b, i)),
{
    a.law_bitwise(b, i);
}

pub broadcast proof fn lemma_and_bit<T: IntRing2k>(a: T, b: T, i: nat)
    requires
        i < T::bits(),
    ensures
        #[trigger] bit(a.band(b), i) == (bit(a, i) && bit(b, i)),
{
    a.law_bitwise(b, i);
}

pub broadcast proof fn lemma_zero_bit<T: IntRing2k>(i: nat)
    ensures
        !(#[trigger] bit(zero::<T>(), i)),
{
    T::law_modulus();
    lemma_small::<T>(0);
    lemma_pow2_pos(i);
    lemma_div_of0(pow2(i) as int);
}

/// How the bits of a bitwise expression follow from those of its operands.
pub broadcast group group_bits {
    lemma_xor_bit,
    lemma_and_bit,
    lemma_zero_bit,
}

/// The grouping of exclusive ors does not matter.
pub proof fn lemma_xor_assoc<T: IntRing2k>(a: T, b: T, c: T)
    ensures
        a.bxor(b).bxor(c) == a.bxor(b.bxor(c)),
{
    broadcast use group_bits;

    assert forall|i: nat| i < T::bits() implies bit(a.bxor(b).bxor(c), i) == bit(
        a.bxor(b.bxor(c)),
        i,
    ) by {
    }
    lemma_bits_ext(a.bxor(b).bxor(c), a.bxor(b.bxor(c)));
}

/// The order of operands of an exclusive or does not matter.
pub proof fn lemma_xor_comm<T: IntRing2k>(a: T, b: T)
    ensures
        a.bxor(b) == b.bxor(a),
{
    broadcast use group_bits;

    assert forall|i: nat| i < T::bits() implies bit(a.bxor(b), i) == bit(b.bxor(a), i) by {
    }
    lemma_bits_ext(a.bxor(b), b.bxor(a));
}

/// Zero changes nothing, and an element cancels itself.
pub proof fn lemma_xor_zero<T: IntRing2k>(a: T)
    ensures
        a.bxor(zero::<T>()) == a,
        zero::<T>().bxor(a) == a,
        a.bxor(a) == zero::<T>(),
{
    broadcast use group_bits;

    assert forall|i: nat| i < T::bits() implies bit(a.bxor(zero::<T>()), i) == bit(a, i) by {
    }
    lemma_bits_ext(a.bxor(zero::<T>()), a);
    lemma_xor_comm(a, zero::<T>());
    assert forall|i: nat| i < T::bits() implies bit(a.bxor(a), i) == bit(zero::<T>(), i) by {
    }
    lemma_bits_ext(a.bxor(a), zero::<T>());
}

} // verus!
