//! Binary adders over shared bit planes.
//!
//! An adder is a circuit of exclusive ors, which every party computes on its own shares, and
//! bitwise ands, which take a round of communication. Each function here computes what goes into
//! the next round, or what comes out of it.

use crate::matrix::rectangular;
use crate::message::ProtocolError;
use crate::planes::{same_shape, shapes_agree, transposed_pack_xor, xor_seq, xor_vec};
use crate::ring::bit_int;
use crate::shares::XorShare;
use vstd::arithmetic::power2::*;
use vstd::prelude::*;

verus! {

/// The planes `x ^ z` and `y ^ z` that go into the round of a carry-save adder.
pub open spec fn csa_operands<S: XorShare>(
    x: Seq<Vec<S>>,
    y: Seq<Vec<S>>,
    z: Seq<Vec<S>>,
    lhs: Seq<Vec<S>>,
    rhs: Seq<Vec<S>>,
) -> bool {
    &&& same_shape(lhs, x)
    &&& same_shape(rhs, x)
    &&& forall|i: int| 0 <= i < x.len() ==> (#[trigger] lhs[i])@ == xor_seq(x[i]@, z[i]@)
    &&& forall|i: int| 0 <= i < x.len() ==> (#[trigger] rhs[i])@ == xor_seq(y[i]@, z[i]@)
}

/// The sum planes `x ^ y ^ z` and the carry planes `product ^ z` of a carry-save adder.
pub open spec fn csa_result<S: XorShare>(
    x: Seq<Vec<S>>,
    y: Seq<Vec<S>>,
    z: Seq<Vec<S>>,
    products: Seq<Vec<S>>,
    s: Seq<Vec<S>>,
    c: Seq<Vec<S>>,
) -> bool {
    &&& same_shape(s, x)
    &&& same_shape(c, x)
    &&& forall|i: int|
        0 <= i < x.len() ==> (#[trigger] s[i])@ == xor_seq(xor_seq(x[i]@, y[i]@), z[i]@)
    &&& forall|i: int| 0 <= i < x.len() ==> (#[trigger] c[i])@ == xor_seq(products[i]@, z[i]@)
}

/// Operands of the round of a carry-save adder.
fn csa_request<S: XorShare>(x: &[Vec<S>], y: &[Vec<S>], z: &[Vec<S>]) -> (r: (
    Vec<Vec<S>>,
    Vec<Vec<S>>,
))
    requires
        same_shape(y@, x@),
        same_shape(z@, x@),
    ensures
        csa_operands(x@, y@, z@, r.0@, r.1@),
{
    proof {
        lemma_same_shape_swap(y@, x@);
        lemma_same_shape_swap(z@, x@);
        assert(same_shape(y@, z@)) by {
            assert forall|i: int| 0 <= i < y@.len() implies (#[trigger] y@[i])@.len()
                == z@[i]@.len() by {
                assert(z@[i]@.len() == x@[i]@.len());
            }
        }
    }
    let lhs: Vec<Vec<S>> = transposed_pack_xor(x, z);
    let rhs: Vec<Vec<S>> = transposed_pack_xor(y, z);
    proof {
        assert forall|i: int| 0 <= i < rhs@.len() implies (#[trigger] rhs@[i])@.len()
            == x@[i]@.len() by {
            assert(rhs@[i]@.len() == y@[i]@.len());
        }
    }
    (lhs, rhs)
}

proof fn lemma_same_shape_swap<A, B>(x: Seq<Vec<A>>, y: Seq<Vec<B>>)
    requires
        same_shape(x, y),
    ensures
        same_shape(y, x),
{
    assert forall|i: int| 0 <= i < y.len() implies (#[trigger] y[i])@.len() == x[i]@.len() by {
        assert(x[i]@.len() == y[i]@.len());
    }
}

/// Sum and carry planes of a carry-save adder.
fn csa_finish<S: XorShare>(x: &[Vec<S>], y: &[Vec<S>], z: &[Vec<S>], products: &[Vec<S>]) -> (r: (
    Vec<Vec<S>>,
    Vec<Vec<S>>,
))
    requires
        same_shape(y@, x@),
        same_shape(z@, x@),
        same_shape(products@, x@),
    ensures
        csa_result(x@, y@, z@, products@, r.0@, r.1@),
{
    proof {
        lemma_same_shape_swap(y@, x@);
        lemma_same_shape_swap(z@, x@);
        assert(same_shape(products@, z@)) by {
            assert forall|i: int| 0 <= i < products@.len() implies (#[trigger] products@[i])@.len()
                == z@[i]@.len() by {
                assert(z@[i]@.len() == x@[i]@.len());
            }
        }
    }
    let xy: Vec<Vec<S>> = transposed_pack_xor(x, y);
    proof {
        assert(same_shape(xy@, z@)) by {
            assert forall|i: int| 0 <= i < xy@.len() implies (#[trigger] xy@[i])@.len()
                == z@[i]@.len() by {
                assert(z@[i]@.len() == x@[i]@.len());
            }
        }
    }
    let s: Vec<Vec<S>> = transposed_pack_xor(xy.as_slice(), z);
    let c: Vec<Vec<S>> = transposed_pack_xor(products, z);
    proof {
        assert forall|i: int| 0 <= i < s@.len() implies (#[trigger] s@[i])@.len()
            == x@[i]@.len() by {
            assert(xy@[i]@.len() == x@[i]@.len());
        }
        assert forall|i: int| 0 <= i < c@.len() implies (#[trigger] c@[i])@.len()
            == x@[i]@.len() by {
            assert(products@[i]@.len() == x@[i]@.len());
        }
        assert forall|i: int| 0 <= i < x@.len() implies (#[trigger] s@[i])@ == xor_seq(
            xor_seq(x@[i]@, y@[i]@),
            z@[i]@,
        ) by {
            assert(xy@[i]@ == xor_seq(x@[i]@, y@[i]@));
        }
    }
    (s, c)
}

/// A carry chain over two vectors of planes: `carry` is the carry into place `at`.
#[derive(Debug)]
pub struct CarryChain<S> {
    pub u: Vec<Vec<S>>,
    pub v: Vec<Vec<S>>,
    pub carry: Vec<S>,
    pub at: usize,
}

impl<S: XorShare> CarryChain<S> {
    /// All planes have as many words as the carry, and the chain has not passed the last place.
    pub open spec fn wf(self) -> bool {
        &&& self.u@.len() == self.v@.len()
        &&& self.at <= self.u@.len()
        &&& rectangular(self.u@, self.carry@.len())
        &&& rectangular(self.v@, self.carry@.len())
    }

    /// Starts a chain with no carry into place `at`.
    pub fn start(u: Vec<Vec<S>>, v: Vec<Vec<S>>, at: usize, words: usize) -> (r: CarryChain<S>)
        requires
            u@.len() == v@.len(),
            at <= u@.len(),
            rectangular(u@, words as nat),
            rectangular(v@, words as nat),
        ensures
            r.wf(),
            r.u == u,
            r.v == v,
            r.at == at,
            r.carry@ == Seq::new(words as nat, |i: int| S::nil_of()),
    {
        let mut carry: Vec<S> = Vec::new();
        let mut i: usize = 0;
        while i < words
            invariant
                i <= words,
                carry@ == Seq::new(i as nat, |j: int| S::nil_of()),
            decreases words - i,
        {
            carry.push(S::nil());
            assert(carry@ =~= Seq::new((i + 1) as nat, |j: int| S::nil_of()));
            i += 1;
        }
        CarryChain { u, v, carry, at }
    }

    /// The operands of the next round: `u ^ carry` and `v ^ carry` at the current place. There is no
    /// round after the last place.
    pub fn request(&self) -> (r: Option<(Vec<S>, Vec<S>)>)
        requires
            self.wf(),
        ensures
            (r is Some) == (self.at < self.u@.len()),
            r matches Some((lhs, rhs)) ==> {
                &&& lhs@ == xor_seq(self.u@[self.at as int]@, self.carry@)
                &&& rhs@ == xor_seq(self.v@[self.at as int]@, self.carry@)
            },
    {
        if self.at >= self.u.len() {
            return None;
        }
        assert(self.u@[self.at as int]@.len() == self.carry@.len());
        assert(self.v@[self.at as int]@.len() == self.carry@.len());
        Some(
            (
                xor_vec(self.u[self.at].as_slice(), self.carry.as_slice()),
                xor_vec(self.v[self.at].as_slice(), self.carry.as_slice()),
            ),
        )
    }

    /// Takes the result of a round: the carry into the next place is `product ^ carry`.
    pub fn absorb(&mut self, product: &[S]) -> (r: Result<(), ProtocolError>)
        requires
            old(self).wf(),
            old(self).at < old(self).u@.len(),
        ensures
            final(self).wf(),
            final(self).u == old(self).u,
            final(self).v == old(self).v,
            product@.len() != old(self).carry@.len() ==> {
                &&& r == Err::<(), ProtocolError>(ProtocolError::LengthMismatch)
                &&& *final(self) == *old(self)
            },
            product@.len() == old(self).carry@.len() ==> {
                &&& r == Ok::<(), ProtocolError>(())
                &&& chain_moves(*old(self), product@, *final(self))
                &&& final(self).at == old(self).at + 1
                &&& final(self).carry@.len() == product@.len()
                &&& forall|k: int|
                    0 <= k < product@.len() ==> #[trigger] final(self).carry@[k] == old(self).carry@[k].xor_of(product@[k])
            },
    {
        if product.len() != self.carry.len() {
            return Err(ProtocolError::LengthMismatch);
        }
        let carry: Vec<S> = xor_vec(self.carry.as_slice(), product);
        let places: usize = self.u.len();
        assert(self.at < places);
        self.carry = carry;
        self.at = self.at + 1;
        Ok(())
    }

    /// The sum bit at place `i`: `u ^ v ^ carry`.
    pub fn sum_at(&self, i: usize) -> (r: Vec<S>)
        requires
            self.wf(),
            i < self.u@.len(),
        ensures
            r@ == xor_seq(xor_seq(self.u@[i as int]@, self.v@[i as int]@), self.carry@),
    {
        assert(self.u@[i as int]@.len() == self.carry@.len());
        assert(self.v@[i as int]@.len() == self.carry@.len());
        let uv: Vec<S> = xor_vec(self.u[i].as_slice(), self.v[i].as_slice());
        xor_vec(uv.as_slice(), self.carry.as_slice())
    }
}

/// What a round does to the chain of a party.
pub open spec fn chain_moves<S: XorShare>(
    before: CarryChain<S>,
    product: Seq<S>,
    after: CarryChain<S>,
) -> bool {
    &&& after.u == before.u
    &&& after.v == before.v
    &&& after.carry@ == xor_seq(before.carry@, product)
    &&& after.at == before.at + 1
}

/// The majority of three bits.
pub open spec fn majority(x: bool, y: bool, z: bool) -> bool {
    (x && y) || (x && z) || (y && z)
}

/// The number that the first `n` bits stand for, least significant bit first.
pub open spec fn lnum(bits: Seq<bool>, n: nat) -> int
    decreases n,
{
    if n == 0 {
        0
    } else {
        lnum(bits, (n - 1) as nat) + bit_int(bits[n - 1]) * pow2((n - 1) as nat)
    }
}

/// The carry into place `k` when the bits from place `from` on are added.
pub open spec fn carry_into(u: Seq<bool>, v: Seq<bool>, from: nat, k: nat) -> bool
    decreases k,
{
    if k <= from {
        false
    } else {
        majority(u[k - 1], v[k - 1], carry_into(u, v, from, (k - 1) as nat))
    }
}

/// The bits of a sum.
pub open spec fn sum_bits(u: Seq<bool>, v: Seq<bool>, n: nat) -> Seq<bool> {
    Seq::new(n, |i: int| (u[i] != v[i]) != carry_into(u, v, 0, i as nat))
}

/// Adding bit by bit adds the numbers: what does not fit is the carry out of the last place.
pub proof fn lemma_ripple_adds(u: Seq<bool>, v: Seq<bool>, n: nat)
    requires
        n <= u.len(),
        n <= v.len(),
    ensures
        lnum(u, n) + lnum(v, n) == lnum(sum_bits(u, v, n), n) + bit_int(carry_into(u, v, 0, n))
            * pow2(n),
    decreases n,
{
    if n == 0 {
        lemma2_to64();
        assert(bit_int(carry_into(u, v, 0, 0)) * pow2(0) == 0);
    } else {
        let k = (n - 1) as nat;
        lemma_ripple_adds(u, v, k);
        lemma_lnum_ext(sum_bits(u, v, k), sum_bits(u, v, n), k);
        lemma_pow2_unfold(n);
        let (a, b, c) = (bit_int(u[n - 1]), bit_int(v[n - 1]), bit_int(carry_into(u, v, 0, k)));
        let s = bit_int(sum_bits(u, v, n)[n - 1]);
        let d = bit_int(carry_into(u, v, 0, n));
        let w = pow2(k) as int;
        assert(a + b + c == s + 2 * d);
        assert(a * w + b * w + c * w == s * w + d * (2 * w)) by (nonlinear_arith)
            requires
                a + b + c == s + 2 * d,
        ;
    }
}

/// A number depends on the bits that it counts alone.
pub proof fn lemma_lnum_ext(a: Seq<bool>, b: Seq<bool>, n: nat)
    requires
        n <= a.len(),
        n <= b.len(),
        forall|i: int| 0 <= i < n ==> a[i] == b[i],
    ensures
        lnum(a, n) == lnum(b, n),
    decreases n,
{
    if n > 0 {
        lemma_lnum_ext(a, b, (n - 1) as nat);
    }
}

/// The bits of a number are those that it was made of.
pub proof fn lemma_lnum_bound(a: Seq<bool>, n: nat)
    requires
        n <= a.len(),
    ensures
        0 <= lnum(a, n) < pow2(n),
    decreases n,
{
    lemma2_to64();
    if n > 0 {
        lemma_lnum_bound(a, (n - 1) as nat);
        lemma_pow2_unfold(n);
        let w = pow2((n - 1) as nat) as int;
        assert(bit_int(a[n - 1]) * w == if a[n - 1] {
            w
        } else {
            0
        });
    }
}

/// The bitwise sum of three numbers.
pub open spec fn xor3_bits(x: Seq<bool>, y: Seq<bool>, z: Seq<bool>) -> Seq<bool> {
    Seq::new(x.len(), |i: int| (x[i] != y[i]) != z[i])
}

/// The bitwise majority of three numbers.
pub open spec fn majority_bits(x: Seq<bool>, y: Seq<bool>, z: Seq<bool>) -> Seq<bool> {
    Seq::new(x.len(), |i: int| majority(x[i], y[i], z[i]))
}

/// A carry-save adder keeps the sum: the bitwise sum plus twice the bitwise majority.
pub proof fn lemma_csa_adds(x: Seq<bool>, y: Seq<bool>, z: Seq<bool>, n: nat)
    requires
        n <= x.len(),
        x.len() == y.len(),
        x.len() == z.len(),
    ensures
        lnum(x, n) + lnum(y, n) + lnum(z, n) == lnum(xor3_bits(x, y, z), n) + 2 * lnum(
            majority_bits(x, y, z),
            n,
        ),
    decreases n,
{
    if n > 0 {
        lemma_csa_adds(x, y, z, (n - 1) as nat);
        let w = pow2((n - 1) as nat) as int;
        let (a, b, c) = (bit_int(x[n - 1]), bit_int(y[n - 1]), bit_int(z[n - 1]));
        let s = bit_int(xor3_bits(x, y, z)[n - 1]);
        let d = bit_int(majority_bits(x, y, z)[n - 1]);
        assert(a * w + b * w + c * w == s * w + 2 * (d * w)) by (nonlinear_arith)
            requires
                a + b + c == s + 2 * d,
        ;
    }
}

/// Moving bits up by one place doubles the number.
pub proof fn lemma_shift_doubles(c: Seq<bool>, n: nat)
    requires
        n <= c.len(),
    ensures
        lnum(seq![false] + c, n + 1) == 2 * lnum(c, n),
    decreases n,
{
    let d = seq![false] + c;
    if n == 0 {
        lemma2_to64();
        assert(lnum(d, 1) == lnum(d, 0) + bit_int(d[0]) * pow2(0));
        assert(!d[0]);
    } else {
        lemma_shift_doubles(c, (n - 1) as nat);
        assert(d[n as int] == c[n - 1]);
        lemma_pow2_unfold(n);
        let (b, w) = (bit_int(c[n - 1]), pow2((n - 1) as nat) as int);
        assert(b * (2 * w) == 2 * (b * w)) by (nonlinear_arith);
    }
}

/// The least number of planes that a sum of three numbers is computed with.
pub const MIN_PLANES: usize = 16;

/// First round of adding three numbers given as bit planes: its operands.
pub fn add3_request<S: XorShare>(x1: &[Vec<S>], x2: &[Vec<S>], x3: &[Vec<S>]) -> (r: Result<
    (Vec<Vec<S>>, Vec<Vec<S>>),
    ProtocolError,
>)
    ensures
        if x1@.len() != x2@.len() || x1@.len() != x3@.len() {
            r == Err::<(Vec<Vec<S>>, Vec<Vec<S>>), ProtocolError>(ProtocolError::LengthMismatch)
        } else if x1@.len() < MIN_PLANES {
            r == Err::<(Vec<Vec<S>>, Vec<Vec<S>>), ProtocolError>(ProtocolError::TooFewBits)
        } else if !same_shape(x2@, x1@) || !same_shape(x3@, x1@) {
            r == Err::<(Vec<Vec<S>>, Vec<Vec<S>>), ProtocolError>(ProtocolError::LengthMismatch)
        } else {
            r is Ok && csa_operands(x1@, x2@, x3@, r->Ok_0.0@, r->Ok_0.1@)
        },
        r is Ok ==> r->Ok_0.0@.len() == x1@.len() && r->Ok_0.1@.len() == x1@.len() && forall|
            i: int,
            k: int,
        |
            0 <= i < x1@.len() && 0 <= k < x1@[i]@.len() ==> {
                &&& r->Ok_0.0@[i]@.len() == x1@[i]@.len() && r->Ok_0.1@[i]@.len() == x1@[i]@.len()
                &&& r->Ok_0.0@[i]@[k] == (#[trigger] x1@[i]@[k]).xor_of(x3@[i]@[k])
                &&& r->Ok_0.1@[i]@[k] == x2@[i]@[k].xor_of(x3@[i]@[k])
            },
{
    if x1.len() != x2.len() || x1.len() != x3.len() {
        return Err(ProtocolError::LengthMismatch);
    }
    if x1.len() < MIN_PLANES {
        return Err(ProtocolError::TooFewBits);
    }
    if !shapes_agree(x2, x1) || !shapes_agree(x3, x1) {
        return Err(ProtocolError::LengthMismatch);
    }
    Ok(csa_request(x1, x2, x3))
}

/// Takes the result of the first round: the three numbers are reduced to the bitwise sum and the
/// bitwise majority.
pub fn add3_reduce<S: XorShare>(
    x1: &[Vec<S>],
    x2: &[Vec<S>],
    x3: &[Vec<S>],
    products: &[Vec<S>],
) -> (r: Result<(Vec<Vec<S>>, Vec<Vec<S>>), ProtocolError>)
    requires
        same_shape(x2@, x1@),
        same_shape(x3@, x1@),
    ensures
        if same_shape(products@, x1@) {
            r is Ok && csa_result(x1@, x2@, x3@, products@, r->Ok_0.0@, r->Ok_0.1@)
        } else {
            r == Err::<(Vec<Vec<S>>, Vec<Vec<S>>), ProtocolError>(ProtocolError::LengthMismatch)
        },
        r is Ok ==> r->Ok_0.0@.len() == x1@.len() && r->Ok_0.1@.len() == x1@.len() && forall|
            i: int,
            k: int,
        |
            0 <= i < x1@.len() && 0 <= k < x1@[i]@.len() ==> {
                &&& r->Ok_0.0@[i]@.len() == x1@[i]@.len() && r->Ok_0.1@[i]@.len() == x1@[i]@.len()
                &&& r->Ok_0.0@[i]@[k] == (#[trigger] x1@[i]@[k]).xor_of(x2@[i]@[k]).xor_of(
                    x3@[i]@[k],
                )
                &&& r->Ok_0.1@[i]@[k] == products@[i]@[k].xor_of(x3@[i]@[k])
            },
{
    if !shapes_agree(products, x1) {
        return Err(ProtocolError::LengthMismatch);
    }
    Ok(csa_finish(x1, x2, x3, products))
}

/// The adder that finds the two bits by which the sum of three numbers exceeds their width: it
/// adds the bitwise sum and twice the bitwise majority, whose top plane is kept apart.
#[derive(Debug)]
pub struct TwoCarriesAdder<S> {
    pub chain: CarryChain<S>,
    pub top: Vec<S>,
}

impl<S: XorShare> TwoCarriesAdder<S> {
    /// The chain is well formed and the top plane as long as the others.
    pub open spec fn wf(self) -> bool {
        &&& self.chain.wf()
        &&& self.top@.len() == self.chain.carry@.len()
    }

    /// Starts from the bitwise sum `s` and the bitwise majority `c`, whose planes have `words`
    /// words. The lowest place has no carry, so the chain starts at the next one.
    pub fn new(s: Vec<Vec<S>>, c: Vec<Vec<S>>, words: usize) -> (r: TwoCarriesAdder<S>)
        requires
            s@.len() == c@.len(),
            s@.len() >= 1,
            rectangular(s@, words as nat),
            rectangular(c@, words as nat),
        ensures
            r.wf(),
            carries_started(s@, c@, words as nat, r),
            r.chain.u@ == s@ && r.chain.at == 1 && r.top@ == c@.last()@,
            r.chain.v@.len() == s@.len() && r.chain.carry@.len() == words,
            forall|k: int| 0 <= k < words ==> #[trigger] r.chain.carry@[k] == S::nil_of(),
            forall|k: int| 0 <= k < words ==> #[trigger] r.chain.v@[0]@[k] == S::nil_of(),
            forall|j: int| 0 < j < s@.len() ==> (#[trigger] r.chain.v@[j])@ == c@[j - 1]@,
    {
        let mut v: Vec<Vec<S>> = Vec::new();
        let mut zeros: Vec<S> = Vec::new();
        let mut i: usize = 0;
        while i < words
            invariant
                i <= words,
                zeros@ == Seq::new(i as nat, |j: int| S::nil_of()),
            decreases words - i,
        {
            zeros.push(S::nil());
            assert(zeros@ =~= Seq::new((i + 1) as nat, |j: int| S::nil_of()));
            i += 1;
        }
        v.push(zeros);
        let mut i: usize = 0;
        while i < c.len() - 1
            invariant
                c@.len() >= 1,
                rectangular(c@, words as nat),
                i <= c@.len() - 1,
                v@.len() == i + 1,
                v@[0]@ == Seq::new(words as nat, |j: int| S::nil_of()),
                rectangular(v@, words as nat),
                forall|j: int| 0 < j <= i ==> (#[trigger] v@[j])@ == c@[j - 1]@,
            decreases c@.len() - 1 - i,
        {
            assert(c@[i as int]@.len() == words);
            v.push(vstd::slice::slice_to_vec(c[i].as_slice()));
            i += 1;
        }
        assert(c@[c@.len() - 1]@.len() == words);
        let top: Vec<S> = vstd::slice::slice_to_vec(c[c.len() - 1].as_slice());
        TwoCarriesAdder { chain: CarryChain::start(s, v, 1, words), top }
    }

    /// The operands of the last round, when the chain has passed the last place.
    pub fn top_request(&self) -> (r: (Vec<S>, Vec<S>))
        ensures
            r.0@ == self.top@,
            r.1@ == self.chain.carry@,
    {
        (
            vstd::slice::slice_to_vec(self.top.as_slice()),
            vstd::slice::slice_to_vec(self.chain.carry.as_slice()),
        )
    }

    /// Takes the result of the last round: the lower carry is `top ^ carry`, the upper one the
    /// product.
    pub fn finish(self, product: Vec<S>) -> (r: (Vec<S>, Vec<S>))
        requires
            self.wf(),
        ensures
            r.0@ == xor_seq(self.top@, self.chain.carry@),
            r.1 == product,
    {
        (xor_vec(self.top.as_slice(), self.chain.carry.as_slice()), product)
    }
}

/// What the adder of a party starts with.
pub open spec fn carries_started<S: XorShare>(
    s: Seq<Vec<S>>,
    c: Seq<Vec<S>>,
    words: nat,
    a: TwoCarriesAdder<S>,
) -> bool {
    &&& a.chain.u@ == s
    &&& a.chain.at == 1
    &&& a.chain.carry@ == Seq::new(words, |i: int| S::nil_of())
    &&& a.chain.v@.len() == s.len()
    &&& a.chain.v@[0]@ == Seq::new(words, |i: int| S::nil_of())
    &&& forall|j: int| 0 < j < s.len() ==> (#[trigger] a.chain.v@[j])@ == c[j - 1]@
    &&& a.top@ == c.last()@
}

/// The second summand of the last addition: the majority moved up by one place, without its top
/// bit.
pub open spec fn doubled(c: Seq<bool>) -> Seq<bool> {
    seq![false] + c.drop_last()
}

/// The two carries are correct: three numbers add up to a number of their width, plus the lower
/// carry at the next place, plus the upper carry at the one after it.
pub proof fn lemma_two_carries(x1: Seq<bool>, x2: Seq<bool>, x3: Seq<bool>)
    requires
        x1.len() >= 1,
        x2.len() == x1.len(),
        x3.len() == x1.len(),
    ensures
        ({
            let n = x1.len();
            let s = xor3_bits(x1, x2, x3);
            let c = majority_bits(x1, x2, x3);
            let v = doubled(c);
            let carry = carry_into(s, v, 1, n);
            let (lower, upper) = (c.last() != carry, c.last() && carry);
            lnum(x1, n) + lnum(x2, n) + lnum(x3, n) == lnum(sum_bits(s, v, n), n) + bit_int(lower)
                * pow2(n) + bit_int(upper) * pow2(n + 1)
        }),
{
    let n = x1.len();
    let s = xor3_bits(x1, x2, x3);
    let c = majority_bits(x1, x2, x3);
    let v = doubled(c);
    lemma_csa_adds(x1, x2, x3, n);
    lemma_ripple_adds(s, v, n);
    lemma_carry_from_one(s, v, n);
    // 2 * c = v + top * 2^n
    let k = (n - 1) as nat;
    lemma_shift_doubles(c.drop_last(), k);
    lemma_lnum_ext(c.drop_last(), c, k);
    lemma_pow2_unfold(n);
    lemma_pow2_unfold(n + 1);
    let (t, w) = (bit_int(c.last()), pow2(n) as int);
    let carry = bit_int(carry_into(s, v, 1, n));
    assert(lnum(c, n) == lnum(c, k) + t * pow2(k));
    assert(2 * (t * pow2(k)) == t * w) by (nonlinear_arith)
        requires
            w == 2 * pow2(k),
    ;
    let (lo, up) = (
        bit_int(c.last() != carry_into(s, v, 1, n)),
        bit_int(c.last() && carry_into(s, v, 1, n)),
    );
    assert(t * w + carry * w == lo * w + up * (2 * w)) by (nonlinear_arith)
        requires
            t + carry == lo + 2 * up,
    ;
}

/// A chain may start at the second place when the lowest bit of one summand is unset.
pub proof fn lemma_carry_from_one(u: Seq<bool>, v: Seq<bool>, n: nat)
    requires
        v.len() >= 1,
        !v[0],
        n >= 1,
    ensures
        carry_into(u, v, 0, n) == carry_into(u, v, 1, n),
    decreases n,
{
    reveal_with_fuel(carry_into, 2);
    if n > 1 {
        lemma_carry_from_one(u, v, (n - 1) as nat);
    }
}

} // verus!
