//! Replicated secret sharing among three parties.
//!
//! A value is split into three parts; party `i` holds part `i` and the part of the party before
//! it. The parts add up to the value, or combine to it by exclusive or.

use crate::ring::IntRing2k;
use crate::ring_lemmas::{
    bit, group_bits, lemma_absorb, lemma_absorb_mul, lemma_absorb_sub, lemma_bits_ext, lemma_sum3,
    zero,
};
use vstd::arithmetic::mul::*;
use vstd::prelude::*;

verus! {

/// What one party holds of a shared value: its own part and that of the previous party.
#[derive(Clone, Copy, Debug, PartialEq, Eq, Structural)]
pub struct Share<T> {
    pub a: T,
    pub b: T,
}

/// The shares of three parties fit together: each part is held twice.
pub open spec fn consistent<T>(s0: Share<T>, s1: Share<T>, s2: Share<T>) -> bool {
    &&& s1.b == s0.a
    &&& s2.b == s1.a
    &&& s0.b == s2.a
}

/// The value whose additive parts three parties hold.
pub open spec fn sum_value<T: IntRing2k>(s0: Share<T>, s1: Share<T>, s2: Share<T>) -> T {
    T::of_int(s0.a.val() + s1.a.val() + s2.a.val())
}

/// The value whose exclusive-or parts three parties hold.
pub open spec fn xor_value<T: IntRing2k>(s0: Share<T>, s1: Share<T>, s2: Share<T>) -> T {
    s0.a.bxor(s1.a).bxor(s2.a)
}

impl<T: IntRing2k> Share<T> {
    /// The share with the given parts.
    pub fn new(a: T, b: T) -> (r: Share<T>)
        ensures
            r == (Share { a, b }),
    {
        Share { a, b }
    }

    /// A share of zero that all parties hold alike.
    pub fn zero() -> (r: Share<T>)
        ensures
            r == Share::<T>::zero_spec(),
            r.a == T::of_int(0),
            r.b == T::of_int(0),
    {
        Share { a: T::from_bit(false), b: T::from_bit(false) }
    }

    /// A share of zero that all parties hold alike.
    pub open spec fn zero_spec() -> Share<T> {
        Share { a: T::of_int(0), b: T::of_int(0) }
    }

    /// The sum of two shares, part by part.
    pub open spec fn plus_spec(self, other: Share<T>) -> Share<T> {
        Share {
            a: T::of_int(self.a.val() + other.a.val()),
            b: T::of_int(self.b.val() + other.b.val()),
        }
    }

    /// The difference of two shares, part by part.
    pub open spec fn minus_spec(self, other: Share<T>) -> Share<T> {
        Share {
            a: T::of_int(self.a.val() - other.a.val()),
            b: T::of_int(self.b.val() - other.b.val()),
        }
    }

    /// The exclusive or of two shares, part by part.
    pub open spec fn xor_spec(self, other: Share<T>) -> Share<T> {
        Share { a: self.a.bxor(other.a), b: self.b.bxor(other.b) }
    }

    /// A share times a public value, part by part.
    pub open spec fn times_spec(self, c: T) -> Share<T> {
        Share { a: T::of_int(self.a.val() * c.val()), b: T::of_int(self.b.val() * c.val()) }
    }

    /// The part of a product that this party can compute.
    pub open spec fn product_spec(self, other: Share<T>) -> T {
        T::of_int(
            self.a.val() * other.a.val() + self.b.val() * other.a.val() + self.a.val()
                * other.b.val(),
        )
    }

    /// The part of a bitwise and that this party can compute.
    pub open spec fn and_spec(self, other: Share<T>) -> T {
        self.a.band(other.a).bxor(self.b.band(other.a)).bxor(self.a.band(other.b))
    }

    /// The sum of two shares.
    pub fn plus(self, other: Share<T>) -> (r: Share<T>)
        ensures
            r == self.plus_spec(other),
            r.a == T::of_int(self.a.val() + other.a.val()),
            r.b == T::of_int(self.b.val() + other.b.val()),
    {
        Share { a: self.a.ring_add(other.a), b: self.b.ring_add(other.b) }
    }

    /// The difference of two shares.
    pub fn minus(self, other: Share<T>) -> (r: Share<T>)
        ensures
            r == self.minus_spec(other),
            r.a == T::of_int(self.a.val() - other.a.val()),
            r.b == T::of_int(self.b.val() - other.b.val()),
    {
        Share { a: self.a.ring_sub(other.a), b: self.b.ring_sub(other.b) }
    }

    /// The exclusive or of two shares.
    pub fn xor(self, other: Share<T>) -> (r: Share<T>)
        ensures
            r == self.xor_spec(other),
            r.a == self.a.bxor(other.a),
            r.b == self.b.bxor(other.b),
    {
        Share { a: self.a.ring_xor(other.a), b: self.b.ring_xor(other.b) }
    }

    /// A share times a public value.
    pub fn times(self, c: T) -> (r: Share<T>)
        ensures
            r == self.times_spec(c),
            r.a == T::of_int(self.a.val() * c.val()),
            r.b == T::of_int(self.b.val() * c.val()),
    {
        Share { a: self.a.ring_mul(c), b: self.b.ring_mul(c) }
    }

    /// The part of the product of two shared values that this party can compute: the three parts
    /// of the parties add up to the product.
    pub fn product(self, other: Share<T>) -> (r: T)
        ensures
            r == self.product_spec(other),
            r == T::of_int(
                self.a.val() * other.a.val() + self.b.val() * other.a.val() + self.a.val()
                    * other.b.val(),
            ),
    {
        let x: T = self.a.ring_mul(other.a);
        let y: T = self.b.ring_mul(other.a);
        let z: T = self.a.ring_mul(other.b);
        proof {
            let (p, q, s) = (
                self.a.val() * other.a.val(),
                self.b.val() * other.a.val(),
                self.a.val() * other.b.val(),
            );
            lemma_absorb::<T>(x.val() + y.val(), z.val());
            lemma_sum3::<T>(p, q, s);
        }
        x.ring_add(y).ring_add(z)
    }

    /// The part of the bitwise and of two shared values that this party can compute: the three
    /// parts of the parties combine to it by exclusive or.
    pub fn and(self, other: Share<T>) -> (r: T)
        ensures
            r == self.and_spec(other),
            r == self.a.band(other.a).bxor(self.b.band(other.a)).bxor(self.a.band(other.b)),
    {
        let x: T = self.a.ring_and(other.a);
        let y: T = self.b.ring_and(other.a);
        let z: T = self.a.ring_and(other.b);
        x.ring_xor(y).ring_xor(z)
    }
}

/// Shares that combine by exclusive or, part by part.
pub trait XorShare: Copy {
    /// The exclusive or of two shares.
    spec fn xor_of(self, other: Self) -> Self;

    /// A share of zero.
    spec fn nil_of() -> Self;

    /// The exclusive or of two shares.
    fn xored(self, other: Self) -> (r: Self)
        ensures
            r == self.xor_of(other),
    ;

    /// A share of zero.
    fn nil() -> (r: Self)
        ensures
            r == Self::nil_of(),
    ;
}

impl<T: IntRing2k> XorShare for Share<T> {
    open spec fn xor_of(self, other: Share<T>) -> Share<T> {
        self.xor_spec(other)
    }

    open spec fn nil_of() -> Share<T> {
        Share::<T>::zero_spec()
    }

    fn xored(self, other: Share<T>) -> (r: Share<T>) {
        self.xor(other)
    }

    fn nil() -> (r: Share<T>) {
        Share::zero()
    }
}

/// Adding shares adds the values.
pub proof fn lemma_plus_value<T: IntRing2k>(
    x: (Share<T>, Share<T>, Share<T>),
    y: (Share<T>, Share<T>, Share<T>),
)
    requires
        consistent(x.0, x.1, x.2),
        consistent(y.0, y.1, y.2),
    ensures
        consistent(x.0.plus_spec(y.0), x.1.plus_spec(y.1), x.2.plus_spec(y.2)),
        sum_value(x.0.plus_spec(y.0), x.1.plus_spec(y.1), x.2.plus_spec(y.2)) == T::of_int(
            sum_value(x.0, x.1, x.2).val() + sum_value(y.0, y.1, y.2).val(),
        ),
{
    let (xs, ys) = (
        x.0.a.val() + x.1.a.val() + x.2.a.val(),
        y.0.a.val() + y.1.a.val() + y.2.a.val(),
    );
    lemma_sum3::<T>(
        x.0.a.val() + y.0.a.val(),
        x.1.a.val() + y.1.a.val(),
        x.2.a.val() + y.2.a.val(),
    );
    lemma_absorb::<T>(xs, T::of_int(ys).val());
    lemma_absorb::<T>(ys, xs);
}

/// Subtracting shares subtracts the values.
pub proof fn lemma_minus_value<T: IntRing2k>(
    x: (Share<T>, Share<T>, Share<T>),
    y: (Share<T>, Share<T>, Share<T>),
)
    requires
        consistent(x.0, x.1, x.2),
        consistent(y.0, y.1, y.2),
    ensures
        consistent(x.0.minus_spec(y.0), x.1.minus_spec(y.1), x.2.minus_spec(y.2)),
        sum_value(x.0.minus_spec(y.0), x.1.minus_spec(y.1), x.2.minus_spec(y.2)) == T::of_int(
            sum_value(x.0, x.1, x.2).val() - sum_value(y.0, y.1, y.2).val(),
        ),
{
    let (xs, ys) = (
        x.0.a.val() + x.1.a.val() + x.2.a.val(),
        y.0.a.val() + y.1.a.val() + y.2.a.val(),
    );
    lemma_sum3::<T>(
        x.0.a.val() - y.0.a.val(),
        x.1.a.val() - y.1.a.val(),
        x.2.a.val() - y.2.a.val(),
    );
    lemma_absorb::<T>(xs, -T::of_int(ys).val());
    lemma_absorb_sub::<T>(ys, xs);
}

/// Multiplying shares by a public value multiplies the value.
pub proof fn lemma_times_value<T: IntRing2k>(x: (Share<T>, Share<T>, Share<T>), c: T)
    requires
        consistent(x.0, x.1, x.2),
    ensures
        consistent(x.0.times_spec(c), x.1.times_spec(c), x.2.times_spec(c)),
        sum_value(x.0.times_spec(c), x.1.times_spec(c), x.2.times_spec(c)) == T::of_int(
            sum_value(x.0, x.1, x.2).val() * c.val(),
        ),
{
    let (p, q, s, k) = (x.0.a.val(), x.1.a.val(), x.2.a.val(), c.val());
    lemma_sum3::<T>(p * k, q * k, s * k);
    lemma_absorb_mul::<T>(p + q + s, k);
    assert((p + q + s) * k == p * k + q * k + s * k) by (nonlinear_arith);
}

/// The exclusive or of shares is the exclusive or of the values.
pub proof fn lemma_xor_value<T: IntRing2k>(
    x: (Share<T>, Share<T>, Share<T>),
    y: (Share<T>, Share<T>, Share<T>),
)
    requires
        consistent(x.0, x.1, x.2),
        consistent(y.0, y.1, y.2),
    ensures
        consistent(x.0.xor_spec(y.0), x.1.xor_spec(y.1), x.2.xor_spec(y.2)),
        xor_value(x.0.xor_spec(y.0), x.1.xor_spec(y.1), x.2.xor_spec(y.2)) == xor_value(
            x.0,
            x.1,
            x.2,
        ).bxor(xor_value(y.0, y.1, y.2)),
{
    broadcast use group_bits;

    let l = xor_value(x.0.xor_spec(y.0), x.1.xor_spec(y.1), x.2.xor_spec(y.2));
    let r = xor_value(x.0, x.1, x.2).bxor(xor_value(y.0, y.1, y.2));
    assert forall|i: nat| i < T::bits() implies bit(l, i) == bit(r, i) by {
    }
    lemma_bits_ext(l, r);
}

/// The local parts of a product add up to the product of the values.
pub proof fn lemma_product_value<T: IntRing2k>(
    x: (Share<T>, Share<T>, Share<T>),
    y: (Share<T>, Share<T>, Share<T>),
)
    requires
        consistent(x.0, x.1, x.2),
        consistent(y.0, y.1, y.2),
    ensures
        T::of_int(
            x.0.product_spec(y.0).val() + x.1.product_spec(y.1).val() + x.2.product_spec(
                y.2,
            ).val(),
        ) == T::of_int(sum_value(x.0, x.1, x.2).val() * sum_value(y.0, y.1, y.2).val()),
{
    let (x0, x1, x2) = (x.0.a.val(), x.1.a.val(), x.2.a.val());
    let (y0, y1, y2) = (y.0.a.val(), y.1.a.val(), y.2.a.val());
    let (p0, p1, p2) = (
        x0 * y0 + x2 * y0 + x0 * y2,
        x1 * y1 + x0 * y1 + x1 * y0,
        x2 * y2 + x1 * y2 + x2 * y1,
    );
    lemma_sum3::<T>(p0, p1, p2);
    assert(p0 + p1 + p2 == (x0 + x1 + x2) * (y0 + y1 + y2)) by (nonlinear_arith)
        requires
            p0 == x0 * y0 + x2 * y0 + x0 * y2,
            p1 == x1 * y1 + x0 * y1 + x1 * y0,
            p2 == x2 * y2 + x1 * y2 + x2 * y1,
    ;
    let (xs, ys) = (x0 + x1 + x2, y0 + y1 + y2);
    lemma_absorb_mul::<T>(xs, T::of_int(ys).val());
    lemma_absorb_mul::<T>(ys, xs);
    lemma_mul_is_commutative(xs, T::of_int(ys).val());
    lemma_mul_is_commutative(xs, ys);
}

/// The local parts of a bitwise and combine to the bitwise and of the values.
pub proof fn lemma_and_value<T: IntRing2k>(
    x: (Share<T>, Share<T>, Share<T>),
    y: (Share<T>, Share<T>, Share<T>),
)
    requires
        consistent(x.0, x.1, x.2),
        consistent(y.0, y.1, y.2),
    ensures
        x.0.and_spec(y.0).bxor(x.1.and_spec(y.1)).bxor(x.2.and_spec(y.2)) == xor_value(
            x.0,
            x.1,
            x.2,
        ).band(xor_value(y.0, y.1, y.2)),
{
    broadcast use group_bits;

    let l = x.0.and_spec(y.0).bxor(x.1.and_spec(y.1)).bxor(x.2.and_spec(y.2));
    let r = xor_value(x.0, x.1, x.2).band(xor_value(y.0, y.1, y.2));
    assert forall|i: nat| i < T::bits() implies bit(l, i) == bit(r, i) by {
    }
    lemma_bits_ext(l, r);
}

} // verus!
