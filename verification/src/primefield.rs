//! Arithmetic in small prime fields.

use vstd::arithmetic::div_mod::*;
use vstd::prelude::*;

verus! {

/// `p` has no divisor besides one and itself.
pub open spec fn is_prime(p: int) -> bool {
    &&& p >= 2
    &&& forall|d: int| 1 < d < p ==> #[trigger] (p % d) != 0
}

/// The moduli that the comparisons of 8-bit and of 16-bit numbers use are prime.
pub proof fn lemma_usual_moduli()
    ensures
        is_prime(19),
        is_prime(37),
{
    assert forall|d: int| 1 < d < 19 implies #[trigger] (19int % d) != 0 by {
        lemma_no_divisor(19, d);
    }
    assert forall|d: int| 1 < d < 37 implies #[trigger] (37int % d) != 0 by {
        lemma_no_divisor(37, d);
    }
}

proof fn lemma_no_divisor(p: int, d: int)
    requires
        p == 19 || p == 37,
        1 < d < p,
    ensures
        p % d != 0,
{
    let q = p / d;
    lemma_fundamental_div_mod(p, d);
    if p % d == 0 {
        assert(p == d * q);
        assert(1 < q < p) by (nonlinear_arith)
            requires
                p == d * q,
                1 < d < p,
        ;
        assert(d <= 6 || q <= 6) by (nonlinear_arith)
            requires
                p == d * q,
                p <= 37,
                1 < d,
                1 < q,
        ;
        let small = if d <= 6 {
            d
        } else {
            q
        };
        let other = if d <= 6 {
            q
        } else {
            d
        };
        assert(p == small * other) by (nonlinear_arith)
            requires
                p == d * q,
                small == d && other == q || small == q && other == d,
        ;
        assert(small == 2 || small == 3 || small == 4 || small == 5 || small == 6);
    }
}

/// An element of the field with `modulus` elements.
#[derive(Clone, Copy, Debug, PartialEq, Eq, Structural)]
pub struct PrimeElement {
    pub value: u16,
    pub modulus: u16,
}

impl PrimeElement {
    /// The value is reduced by a modulus of at least two.
    pub open spec fn wf(self) -> bool {
        &&& self.modulus >= 2
        &&& self.value < self.modulus
    }

    /// The element of the field with `p` elements that stands for the residue of `x`.
    pub open spec fn of_int(x: int, p: u16) -> PrimeElement {
        PrimeElement { value: (x % p as int) as u16, modulus: p }
    }

    /// The element that `value` stands for.
    pub fn new(value: u16, modulus: u16) -> (r: PrimeElement)
        requires
            modulus >= 2,
        ensures
            r == PrimeElement::of_int(value as int, modulus),
            r.wf(),
            r.modulus == modulus,
            r.value == value % modulus,
    {
        PrimeElement { value: value % modulus, modulus }
    }

    /// The element zero.
    pub fn zero(modulus: u16) -> (r: PrimeElement)
        requires
            modulus >= 2,
        ensures
            r == PrimeElement::of_int(0, modulus),
            r.wf(),
            r.modulus == modulus,
            r.value == 0,
    {
        proof {
            lemma_small_mod(0, modulus as nat);
        }
        PrimeElement { value: 0, modulus }
    }

    /// The element one.
    pub fn one(modulus: u16) -> (r: PrimeElement)
        requires
            modulus >= 2,
        ensures
            r == PrimeElement::of_int(1, modulus),
            r.wf(),
            r.modulus == modulus,
            r.value == 1,
    {
        proof {
            lemma_small_mod(1, modulus as nat);
        }
        PrimeElement { value: 1, modulus }
    }

    /// The sum in the field.
    pub fn plus(self, other: PrimeElement) -> (r: PrimeElement)
        requires
            self.wf(),
            other.wf(),
            self.modulus == other.modulus,
        ensures
            r == PrimeElement::of_int(self.value + other.value, self.modulus),
            r.wf(),
            r.modulus == self.modulus,
            r.value == (self.value + other.value) % self.modulus as int,
    {
        let sum: u32 = self.value as u32 + other.value as u32;
        PrimeElement { value: (sum % self.modulus as u32) as u16, modulus: self.modulus }
    }

    /// The difference in the field.
    pub fn minus(self, other: PrimeElement) -> (r: PrimeElement)
        requires
            self.wf(),
            other.wf(),
            self.modulus == other.modulus,
        ensures
            r == PrimeElement::of_int(self.value - other.value, self.modulus),
            r.wf(),
            r.modulus == self.modulus,
            r.value == (self.value - other.value) % self.modulus as int,
    {
        let diff: u32 = self.value as u32 + self.modulus as u32 - other.value as u32;
        proof {
            lemma_mod_add_multiples_vanish(self.value - other.value, self.modulus as int);
        }
        PrimeElement { value: (diff % self.modulus as u32) as u16, modulus: self.modulus }
    }

    /// The element that adds up to zero with this one.
    pub fn negate(self) -> (r: PrimeElement)
        requires
            self.wf(),
        ensures
            r == PrimeElement::of_int(-self.value, self.modulus),
            r.wf(),
            r.modulus == self.modulus,
            r.value == (-self.value) % self.modulus as int,
    {
        PrimeElement::zero(self.modulus).minus(self)
    }

    /// The product in the field.
    pub fn times(self, other: PrimeElement) -> (r: PrimeElement)
        requires
            self.wf(),
            other.wf(),
            self.modulus == other.modulus,
        ensures
            r == PrimeElement::of_int(self.value * other.value, self.modulus),
            r.wf(),
            r.modulus == self.modulus,
            r.value == (self.value * other.value) % self.modulus as int,
    {
        assert(self.value * other.value <= 0xffff * 0xffff) by (nonlinear_arith)
            requires
                self.value <= 0xffff,
                other.value <= 0xffff,
        ;
        let product: u32 = self.value as u32 * other.value as u32;
        PrimeElement { value: (product % self.modulus as u32) as u16, modulus: self.modulus }
    }

    /// Whether this is the element zero.
    pub fn is_zero(self) -> (r: bool)
        ensures
            r == (self.value == 0),
    {
        self.value == 0
    }
}

/// A reduced summand may be replaced by the integer it was reduced from.
pub proof fn lemma_field_absorb(x: int, y: int, p: u16)
    requires
        p >= 2,
    ensures
        PrimeElement::of_int(PrimeElement::of_int(x, p).value + y, p) == PrimeElement::of_int(
            x + y,
            p,
        ),
{
    lemma_mod_bound(x, p as int);
    lemma_add_mod_noop(x, y, p as int);
    lemma_add_mod_noop(x % p as int, y, p as int);
    lemma_mod_twice(x, p as int);
}

/// A reduced factor may be replaced by the integer it was reduced from.
pub proof fn lemma_field_absorb_mul(x: int, y: int, p: u16)
    requires
        p >= 2,
    ensures
        PrimeElement::of_int(y * PrimeElement::of_int(x, p).value, p) == PrimeElement::of_int(
            y * x,
            p,
        ),
{
    lemma_mod_bound(x, p as int);
    lemma_mul_mod_noop_right(y, x, p as int);
}

/// A prime that divides a product of a number below it with `x` divides `x`.
pub proof fn lemma_prime_divides(p: int, a: int, x: int)
    requires
        is_prime(p),
        0 < a < p,
        (a * x) % p == 0,
    ensures
        x % p == 0,
    decreases a,
{
    if a > 1 {
        let q = p / a;
        let r = p % a;
        lemma_fundamental_div_mod(p, a);
        assert(p % a != 0);
        lemma_mod_pos_bound(p, a);
        // r * x = p * x - q * (a * x)
        let k = (a * x) / p;
        lemma_fundamental_div_mod(a * x, p);
        assert(r * x == (x - q * k) * p) by (nonlinear_arith)
            requires
                p == a * q + r,
                a * x == p * k,
        ;
        lemma_mod_multiples_basic(x - q * k, p);
        lemma_prime_divides(p, r, x);
    }
}

} // verus!
