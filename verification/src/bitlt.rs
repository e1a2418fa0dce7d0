//! Comparison of a shared number with a public one.
//!
//! Two compute roles hold a number as exclusive-or shares of its bits, most significant bit
//! first, and know a public number. Each appends one bit so that the two numbers cannot be
//! equal. They mask the bitwise difference and let a dealer turn it into shares over a prime
//! field. Prefix sums of the difference vanish in one place only, the first one where the
//! numbers differ; scaled and rotated they go back to the dealer, who marks that place. The
//! public bit there decides the comparison.

use crate::counting::lemma_count_step;
use crate::msb_dealer_helpers::all_in_field;
use crate::primefield::{
    is_prime, lemma_field_absorb, lemma_field_absorb_mul, lemma_prime_divides, PrimeElement,
};
use crate::ring::{bit_int, IntRing2k};
use crate::ring_lemmas::{bit, lemma_bit_of_half};
use vstd::arithmetic::div_mod::*;
use vstd::arithmetic::mul::*;
use vstd::arithmetic::power2::*;
use vstd::prelude::*;

verus! {

/// The number that bits stand for, most significant bit first.
pub open spec fn num(bits: Seq<bool>) -> int
    decreases bits.len(),
{
    if bits.len() == 0 {
        0
    } else {
        2 * num(bits.drop_last()) + bit_int(bits.last())
    }
}

/// The low `n` bits of an element, most significant bit first.
pub open spec fn low_bits<T: IntRing2k>(x: T, n: nat) -> Seq<bool> {
    Seq::new(n, |i: int| bit(x, (n - 1 - i) as nat))
}

/// The low `n` bits of a public value, most significant bit first, with one more bit appended.
pub fn public_bits<T: IntRing2k>(x: T, n: usize, last: bool) -> (r: Vec<bool>)
    requires
        n <= T::bits(),
    ensures
        r@ == low_bits(x, n as nat).push(last),
        r@.len() == n + 1,
        forall|i: int| 0 <= i < n ==> #[trigger] r@[i] == bit(x, (n - 1 - i) as nat),
        r@[n as int] == last,
{
    let mut out: Vec<bool> = Vec::new();
    let mut i: usize = 0;
    while i < n
        invariant
            i <= n <= T::bits(),
            out@.len() == i,
            forall|j: int| 0 <= j < i ==> out@[j] == bit(x, (n - 1 - j) as nat),
        decreases n - i,
    {
        out.push(x.bit_at(n - 1 - i));
        i += 1;
    }
    out.push(last);
    assert(out@ =~= low_bits(x, n as nat).push(last));
    out
}

/// What a compute role sends to the dealer: `first` marks the role that adds public values.
pub open spec fn masked_shares(
    first: bool,
    shares: Seq<bool>,
    public: Seq<bool>,
    masks: Seq<bool>,
) -> Seq<bool> {
    Seq::new(
        shares.len(),
        |i: int|
            if first {
                (shares[i] != public[i]) != masks[i]
            } else {
                shares[i]
            },
    )
}

/// Takes the difference of the shared and the public number and masks it.
pub fn mask_shares(first: bool, shares: &[bool], public: &[bool], masks: &[bool]) -> (r: Vec<bool>)
    requires
        shares@.len() == public@.len() == masks@.len(),
    ensures
        r@ == masked_shares(first, shares@, public@, masks@),
        r@.len() == shares@.len(),
        first ==> forall|i: int|
            0 <= i < r@.len() ==> #[trigger] r@[i] == ((shares@[i] != public@[i]) != masks@[i]),
        !first ==> r@ == shares@,
{
    let mut out: Vec<bool> = Vec::new();
    let mut i: usize = 0;
    while i < shares.len()
        invariant
            shares@.len() == public@.len() == masks@.len(),
            i <= shares@.len(),
            out@.len() == i,
            forall|j: int|
                0 <= j < i ==> out@[j] == masked_shares(first, shares@, public@, masks@)[j],
        decreases shares@.len() - i,
    {
        let mut share: bool = shares[i];
        if first {
            share = (share != public[i]) != masks[i];
        }
        out.push(share);
        i += 1;
    }
    assert(out@ =~= masked_shares(first, shares@, public@, masks@));
    out
}

/// A field share after its mask was taken off, not reduced.
pub open spec fn unmasked(first: bool, share: PrimeElement, mask: bool) -> int {
    if mask {
        bit_int(first) - share.value
    } else {
        share.value as int
    }
}

/// The sum of the first `k` shares after their masks were taken off, not reduced.
pub open spec fn prefix(first: bool, shares: Seq<PrimeElement>, masks: Seq<bool>, k: nat) -> int
    decreases k,
{
    if k == 0 {
        0
    } else {
        prefix(first, shares, masks, (k - 1) as nat) + unmasked(first, shares[k - 1], masks[k - 1])
    }
}

/// The share of the scaled test value of place `k`.
pub open spec fn test_value(
    first: bool,
    shares: Seq<PrimeElement>,
    masks: Seq<bool>,
    scalars: Seq<PrimeElement>,
    k: nat,
    p: u16,
) -> PrimeElement {
    PrimeElement::of_int(
        scalars[k as int].value * (prefix(first, shares, masks, k) + prefix(
            first,
            shares,
            masks,
            k + 1,
        ) - bit_int(first)),
        p,
    )
}

/// The shares of the scaled test values, rotated by `shift` places.
pub open spec fn test_values(
    first: bool,
    shares: Seq<PrimeElement>,
    masks: Seq<bool>,
    scalars: Seq<PrimeElement>,
    shift: nat,
    p: u16,
) -> Seq<PrimeElement> {
    Seq::new(
        shares.len(),
        |i: int|
            test_value(
                first,
                shares,
                masks,
                scalars,
                ((i + shift) % shares.len() as int) as nat,
                p,
            ),
    )
}

/// Takes the masks off the field shares, forms the prefix sums, scales and rotates them.
pub fn form_test_values(
    first: bool,
    shares: &[PrimeElement],
    masks: &[bool],
    scalars: &[PrimeElement],
    shift: usize,
    modulus: u16,
) -> (r: Vec<PrimeElement>)
    requires
        modulus >= 2,
        shares@.len() == masks@.len() == scalars@.len(),
        shares@.len() < usize::MAX / 2,
        shift < shares@.len(),
        all_in_field(shares@, modulus),
        all_in_field(scalars@, modulus),
    ensures
        r@ == test_values(first, shares@, masks@, scalars@, shift as nat, modulus),
        all_in_field(r@, modulus),
        r@.len() == shares@.len(),
        forall|i: int|
            0 <= i < r@.len() ==> {
                let k = (i + shift) % r@.len() as int;
                &&& (#[trigger] r@[i]).modulus == modulus
                &&& r@[i].value == (scalars@[k].value * (prefix(
                    first,
                    shares@,
                    masks@,
                    k as nat,
                ) + prefix(first, shares@, masks@, (k + 1) as nat) - bit_int(first)))
                    % modulus as int
            },
{
    let n: usize = shares.len();
    let one = PrimeElement::one(modulus);
    let ghost p = modulus;
    let mut values: Vec<PrimeElement> = Vec::new();
    let mut running = PrimeElement::zero(modulus);
    let mut i: usize = 0;
    while i < n
        invariant
            n == shares@.len() == masks@.len() == scalars@.len(),
            modulus >= 2,
            p == modulus,
            i <= n,
            all_in_field(shares@, modulus),
            all_in_field(scalars@, modulus),
            one == PrimeElement::of_int(1, p),
            one.wf(),
            running == PrimeElement::of_int(prefix(first, shares@, masks@, i as nat), p),
            running.wf(),
            values@.len() == i,
            all_in_field(values@, modulus),
            forall|j: int|
                0 <= j < i ==> values@[j] == test_value(
                    first,
                    shares@,
                    masks@,
                    scalars@,
                    j as nat,
                    p,
                ),
        decreases n - i,
    {
        let ghost before = prefix(first, shares@, masks@, i as nat);
        let ghost after = prefix(first, shares@, masks@, (i + 1) as nat);
        let mut share = shares[i];
        if masks[i] {
            share = share.negate();
            if first {
                share = share.plus(one);
                proof {
                    lemma_small_mod(1, p as nat);
                    lemma_field_absorb(-shares@[i as int].value, 1, p);
                }
            }
        } else {
            proof {
                lemma_small_mod(shares@[i as int].value as nat, p as nat);
            }
        }
        assert(share == PrimeElement::of_int(
            unmasked(first, shares@[i as int], masks@[i as int]),
            p,
        ));
        let next = running.plus(share);
        proof {
            let u = unmasked(first, shares@[i as int], masks@[i as int]);
            lemma_field_absorb(before, share.value as int, p);
            lemma_field_absorb(u, before, p);
            assert(next == PrimeElement::of_int(after, p));
        }
        let mut value = running.plus(next);
        proof {
            lemma_field_absorb(before, next.value as int, p);
            lemma_field_absorb(after, before, p);
            assert(value == PrimeElement::of_int(before + after, p));
        }
        if first {
            value = value.minus(one);
            proof {
                lemma_small_mod(1, p as nat);
                lemma_field_absorb(before + after, -1, p);
            }
        }
        let scaled = value.times(scalars[i]);
        proof {
            let s = scalars@[i as int].value as int;
            lemma_field_absorb_mul(before + after - bit_int(first), s, p);
            lemma_mul_is_commutative(value.value as int, s);
        }
        values.push(scaled);
        running = next;
        i += 1;
    }
    let mut out: Vec<PrimeElement> = Vec::new();
    let mut i: usize = 0;
    while i < n
        invariant
            n == shares@.len() == values@.len(),
            n < usize::MAX / 2,
            shift < n,
            i <= n,
            p == modulus,
            all_in_field(values@, modulus),
            forall|j: int|
                0 <= j < n ==> values@[j] == test_value(
                    first,
                    shares@,
                    masks@,
                    scalars@,
                    j as nat,
                    p,
                ),
            out@.len() == i,
            all_in_field(out@, modulus),
            forall|j: int|
                0 <= j < i ==> out@[j] == test_values(
                    first,
                    shares@,
                    masks@,
                    scalars@,
                    shift as nat,
                    p,
                )[j],
        decreases n - i,
    {
        let k: usize = (i + shift) % n;
        out.push(values[k]);
        i += 1;
    }
    assert(out@ =~= test_values(first, shares@, masks@, scalars@, shift as nat, p));
    out
}

/// The marks in the order they had before they were rotated by `shift` places.
pub open spec fn rotated_back(marks: Seq<bool>, shift: nat) -> Seq<bool> {
    Seq::new(
        marks.len(),
        |i: int|
            if shift <= i {
                marks[i - shift]
            } else {
                marks[i + (marks.len() - shift)]
            },
    )
}

/// The exclusive or of the products of the first `k` bits.
pub open spec fn dot(a: Seq<bool>, b: Seq<bool>, k: nat) -> bool
    decreases k,
{
    if k == 0 {
        false
    } else {
        dot(a, b, (k - 1) as nat) != (a[k - 1] && b[k - 1])
    }
}

/// Picks the public bit at the marked place: rotates the marks back and multiplies them with the
/// public bits.
pub fn select_public_bit(marks: &[bool], public: &[bool], shift: usize) -> (r: bool)
    requires
        marks@.len() == public@.len(),
        shift < marks@.len(),
    ensures
        r == dot(rotated_back(marks@, shift as nat), public@, marks@.len()),
        r == (Set::new(
            |i: int|
                0 <= i < public@.len() && public@[i] && marks@[if shift <= i {
                    i - shift
                } else {
                    i + public@.len() - shift
                }],
        ).len() % 2 == 1),
{
    let mut sum: bool = false;
    let mut i: usize = 0;
    while i < marks.len()
        invariant
            marks@.len() == public@.len(),
            shift < marks@.len(),
            i <= marks@.len(),
            sum == dot(rotated_back(marks@, shift as nat), public@, i as nat),
        decreases marks@.len() - i,
    {
        let mark: bool = if shift <= i {
            marks[i - shift]
        } else {
            marks[i + (marks.len() - shift)]
        };
        sum = sum != (mark && public[i]);
        i += 1;
    }
    proof {
        let back = rotated_back(marks@, shift as nat);
        lemma_dot_is_parity(back, public@, marks@.len());
        assert(Set::new(|i: int| 0 <= i < marks@.len() && back[i] && public@[i]) =~= Set::new(
            |i: int|
                0 <= i < public@.len() && public@[i] && marks@[if shift <= i {
                    i - shift
                } else {
                    i + public@.len() - shift
                }],
        ));
    }
    sum
}

/// The inner product of two vectors of bits tells whether an odd number of places is set in both.
pub proof fn lemma_dot_is_parity(a: Seq<bool>, b: Seq<bool>, k: nat)
    ensures
        dot(a, b, k) == (Set::new(|i: int| 0 <= i < k && a[i] && b[i]).len() % 2 == 1),
    decreases k,
{
    let f = |i: int| a[i] && b[i];
    lemma_count_step(f, k);
    assert(Set::new(|i: int| 0 <= i < k && f(i)) =~= Set::new(
        |i: int| 0 <= i < k && a[i] && b[i],
    ));
    if k > 0 {
        lemma_dot_is_parity(a, b, (k - 1) as nat);
        assert(Set::new(|i: int| 0 <= i < k - 1 && f(i)) =~= Set::new(
            |i: int| 0 <= i < ((k - 1) as nat) && a[i] && b[i],
        ));
    }
}

/// A prefix sum adds up what is left of the first field shares when their masks are taken off: the
/// share itself where the mask is unset, its complement to the public one where it is set.
pub proof fn lemma_prefix_sum(first: bool, shares: Seq<PrimeElement>, masks: Seq<bool>, k: nat)
    ensures
        prefix(first, shares, masks, k) == Seq::new(
            k,
            |i: int|
                if masks[i] {
                    bit_int(first) - shares[i].value
                } else {
                    shares[i].value as int
                },
        ).fold_left(0int, |n: int, x: int| n + x),
    decreases k,
{
    if k > 0 {
        lemma_prefix_sum(first, shares, masks, (k - 1) as nat);
        let part = |i: int|
            if masks[i] {
                bit_int(first) - shares[i].value
            } else {
                shares[i].value as int
            };
        assert(Seq::new(k, part).drop_last() =~= Seq::new((k - 1) as nat, part));
    }
}

/// How many of the first `k` bits are set.
pub open spec fn count(bits: Seq<bool>, k: nat) -> int
    decreases k,
{
    if k == 0 {
        0
    } else {
        count(bits, (k - 1) as nat) + bit_int(bits[k - 1])
    }
}

/// The bitwise difference of two numbers.
pub open spec fn difference(a: Seq<bool>, b: Seq<bool>) -> Seq<bool> {
    Seq::new(a.len(), |i: int| a[i] != b[i])
}

/// Bit `k` is set and no bit before it is.
pub open spec fn is_first(bits: Seq<bool>, k: int) -> bool {
    &&& 0 <= k < bits.len()
    &&& bits[k]
    &&& forall|j: int| 0 <= j < k ==> !bits[j]
}

proof fn lemma_count_bounds(bits: Seq<bool>, k: nat)
    requires
        k <= bits.len(),
    ensures
        0 <= count(bits, k) <= k,
        count(bits, k) == 0 <==> (forall|j: int| 0 <= j < k ==> !bits[j]),
    decreases k,
{
    if k > 0 {
        lemma_count_bounds(bits, (k - 1) as nat);
        if count(bits, k) == 0 {
            assert(!bits[k - 1]);
        }
    }
}

/// Some bit is the first one that is set, if any is set.
proof fn lemma_first_exists(bits: Seq<bool>, k: int) -> (f: int)
    requires
        0 <= k < bits.len(),
        bits[k],
    ensures
        is_first(bits, f),
        f <= k,
    decreases k,
{
    if exists|j: int| 0 <= j < k && bits[j] {
        let j = choose|j: int| 0 <= j < k && bits[j];
        lemma_first_exists(bits, j)
    } else {
        k
    }
}

proof fn lemma_num_bounds(bits: Seq<bool>)
    ensures
        num(bits) >= 0,
    decreases bits.len(),
{
    if bits.len() > 0 {
        lemma_num_bounds(bits.drop_last());
    }
}

/// The first place where two numbers differ decides which one is smaller.
pub proof fn lemma_first_difference_decides(a: Seq<bool>, b: Seq<bool>, f: int)
    requires
        a.len() == b.len(),
        is_first(difference(a, b), f),
    ensures
        (num(a) < num(b)) == b[f],
        num(a) != num(b),
    decreases a.len(),
{
    let d = difference(a, b);
    let n = a.len() as int;
    assert(d[f]);
    if f == n - 1 {
        assert forall|j: int| 0 <= j < n - 1 implies a[j] == b[j] by {
            assert(!d[j]);
        }
        assert(a.drop_last() =~= b.drop_last());
    } else {
        let (x, y) = (a.drop_last(), b.drop_last());
        assert forall|j: int| 0 <= j < f implies !difference(x, y)[j] by {
            assert(!d[j]);
        }
        assert(difference(x, y)[f]);
        lemma_first_difference_decides(x, y, f);
    }
}

/// The prefix sums of the two roles add up to the number of differing bits.
proof fn lemma_prefix_adds_up(
    shares_0: Seq<PrimeElement>,
    shares_1: Seq<PrimeElement>,
    masks: Seq<bool>,
    diff: Seq<bool>,
    k: nat,
    p: int,
)
    requires
        p >= 2,
        k <= diff.len(),
        shares_0.len() == diff.len(),
        shares_1.len() == diff.len(),
        masks.len() == diff.len(),
        forall|i: int|
            0 <= i < diff.len() ==> (#[trigger] shares_0[i].value + shares_1[i].value) % p
                == bit_int(diff[i] != masks[i]),
    ensures
        (prefix(true, shares_0, masks, k) + prefix(false, shares_1, masks, k)) % p == count(diff, k)
            % p,
    decreases k,
{
    if k > 0 {
        let j = (k - 1) as nat;
        lemma_prefix_adds_up(shares_0, shares_1, masks, diff, j, p);
        let before = prefix(true, shares_0, masks, j) + prefix(false, shares_1, masks, j);
        let t = shares_0[k - 1].value + shares_1[k - 1].value;
        let u = unmasked(true, shares_0[k - 1], masks[k - 1]) + unmasked(
            false,
            shares_1[k - 1],
            masks[k - 1],
        );
        let b = bit_int(diff[k - 1]);
        assert(t % p == bit_int(diff[k - 1] != masks[k - 1]));
        assert(u % p == b % p) by {
            if masks[k - 1] {
                assert(u == 1 - t);
                lemma_sub_mod_noop(1, t, p);
                lemma_sub_mod_noop(1, bit_int(!diff[k - 1]), p);
                lemma_small_mod(bit_int(!diff[k - 1]) as nat, p as nat);
            } else {
                assert(u == t);
                lemma_small_mod(b as nat, p as nat);
            }
        }
        lemma_add_mod_noop(before, u, p);
        lemma_add_mod_noop(count(diff, j), b, p);
        assert(prefix(true, shares_0, masks, k) + prefix(false, shares_1, masks, k) == before + u);
    }
}

/// The two shares of a test value cancel exactly in the first place where the numbers differ.
proof fn lemma_test_value_vanishes(
    shares_0: Seq<PrimeElement>,
    shares_1: Seq<PrimeElement>,
    masks: Seq<bool>,
    scalars: Seq<PrimeElement>,
    diff: Seq<bool>,
    k: nat,
    p: u16,
)
    requires
        is_prime(p as int),
        2 * diff.len() <= p + 1,
        k < diff.len(),
        shares_0.len() == diff.len(),
        shares_1.len() == diff.len(),
        masks.len() == diff.len(),
        scalars.len() == diff.len(),
        0 < scalars[k as int].value < p,
        forall|i: int|
            0 <= i < diff.len() ==> (#[trigger] shares_0[i].value + shares_1[i].value) % p as int
                == bit_int(diff[i] != masks[i]),
    ensures
        ((test_value(true, shares_0, masks, scalars, k, p).value + test_value(
            false,
            shares_1,
            masks,
            scalars,
            k,
            p,
        ).value) % p as int == 0) == is_first(diff, k as int),
{
    let m = p as int;
    let s = scalars[k as int].value as int;
    let a0 = prefix(true, shares_0, masks, k) + prefix(true, shares_0, masks, k + 1) - 1;
    let a1 = prefix(false, shares_1, masks, k) + prefix(false, shares_1, masks, k + 1);
    let d = count(diff, k) + count(diff, k + 1) - 1;
    let c0 = test_value(true, shares_0, masks, scalars, k, p);
    let c1 = test_value(false, shares_1, masks, scalars, k, p);
    // c0 + c1 = s * (a0 + a1) = s * d  modulo p
    assert((c0.value + c1.value) % m == (s * d) % m) by {
        lemma_field_absorb(s * a0, c1.value as int, p);
        lemma_field_absorb(s * a1, s * a0, p);
        assert((c0.value + c1.value) % m == (s * a0 + s * a1) % m) by {
            lemma_mod_bound(c0.value + c1.value, m);
            lemma_mod_bound(s * a0 + s * a1, m);
        }
        lemma_mul_is_distributive_add(s, a0, a1);
        lemma_prefix_adds_up(shares_0, shares_1, masks, diff, k, m);
        lemma_prefix_adds_up(shares_0, shares_1, masks, diff, k + 1, m);
        let x = prefix(true, shares_0, masks, k) + prefix(false, shares_1, masks, k);
        let y = prefix(true, shares_0, masks, k + 1) + prefix(false, shares_1, masks, k + 1);
        lemma_add_mod_noop(x, y, m);
        lemma_add_mod_noop(count(diff, k), count(diff, k + 1), m);
        assert((x + y) % m == (d + 1) % m);
        lemma_sub_mod_noop(x + y, 1, m);
        lemma_sub_mod_noop(d + 1, 1, m);
        assert((a0 + a1) % m == d % m);
        lemma_mul_mod_noop_right(s, a0 + a1, m);
        lemma_mul_mod_noop_right(s, d, m);
    }
    lemma_count_bounds(diff, k);
    lemma_count_bounds(diff, k + 1);
    assert(count(diff, k + 1) == count(diff, k) + bit_int(diff[k as int]));
    if d == 0 {
        assert(s * d == 0) by (nonlinear_arith)
            requires
                d == 0,
        ;
        lemma_small_mod(0, p as nat);
    } else if (s * d) % m == 0 {
        lemma_prime_divides(m, s, d);
        if d > 0 {
            lemma_small_mod(d as nat, p as nat);
        } else {
            assert(d == -1);
            lemma_mod_add_multiples_vanish(-1, m);
            lemma_small_mod((m - 1) as nat, m as nat);
        }
        assert(false);
    }
}

/// Shares of a vector with one mark pick the bit at the marked place.
proof fn lemma_dot_picks(a_0: Seq<bool>, a_1: Seq<bool>, b: Seq<bool>, f: int, k: nat)
    requires
        0 <= f < b.len(),
        k <= b.len(),
        a_0.len() == b.len(),
        a_1.len() == b.len(),
        forall|i: int| 0 <= i < b.len() ==> (#[trigger] a_0[i] != a_1[i]) == (i == f),
    ensures
        (dot(a_0, b, k) != dot(a_1, b, k)) == (f < k && b[f]),
    decreases k,
{
    if k > 0 {
        lemma_dot_picks(a_0, a_1, b, f, (k - 1) as nat);
        assert((a_0[k - 1] != a_1[k - 1]) == (k - 1 == f));
    }
}

/// The comparison is correct: with correctly dealt field shares and marks, the two selected bits
/// differ exactly if the shared number is smaller than the public one. The numbers have to
/// differ, and the field has to be large enough for their bits.
pub proof fn lemma_comparison_correct(
    shares_0: Seq<bool>,
    shares_1: Seq<bool>,
    public: Seq<bool>,
    masks: Seq<bool>,
    scalars: Seq<PrimeElement>,
    shift: nat,
    dealt_0: Seq<PrimeElement>,
    dealt_1: Seq<PrimeElement>,
    marks_0: Seq<bool>,
    marks_1: Seq<bool>,
    p: u16,
)
    requires
        is_prime(p as int),
        2 * public.len() <= p + 1,
        shares_0.len() == public.len(),
        shares_1.len() == public.len(),
        masks.len() == public.len(),
        scalars.len() == public.len(),
        dealt_0.len() == public.len(),
        dealt_1.len() == public.len(),
        marks_0.len() == public.len(),
        marks_1.len() == public.len(),
        shift < public.len(),
        difference(shares_0, shares_1) != public,
        forall|i: int| 0 <= i < public.len() ==> 0 < (#[trigger] scalars[i]).value < p,
        forall|i: int|
            0 <= i < public.len() ==> (#[trigger] dealt_0[i].value + dealt_1[i].value) % p as int
                == bit_int(
                masked_shares(true, shares_0, public, masks)[i] != masked_shares(
                    false,
                    shares_1,
                    public,
                    masks,
                )[i],
            ),
        forall|i: int|
            0 <= i < public.len() ==> (#[trigger] marks_0[i] != marks_1[i]) == ((test_values(
                true,
                dealt_0,
                masks,
                scalars,
                shift,
                p,
            )[i].value + test_values(false, dealt_1, masks, scalars, shift, p)[i].value) % p as int
                == 0),
    ensures
        (dot(rotated_back(marks_0, shift), public, public.len()) != dot(
            rotated_back(marks_1, shift),
            public,
            public.len(),
        )) == (num(difference(shares_0, shares_1)) < num(public)),
{
    let n = public.len() as int;
    let private = difference(shares_0, shares_1);
    let diff = difference(private, public);
    assert(exists|i: int| 0 <= i < n && diff[i]) by {
        if forall|i: int| 0 <= i < n ==> !diff[i] {
            assert forall|i: int| 0 <= i < n implies private[i] == public[i] by {
                assert(!diff[i]);
            }
            assert(private =~= public);
        }
    }
    let w = choose|i: int| 0 <= i < n && diff[i];
    let f = lemma_first_exists(diff, w);
    lemma_first_difference_decides(private, public, f);
    let (m0, m1) = (
        masked_shares(true, shares_0, public, masks),
        masked_shares(false, shares_1, public, masks),
    );
    assert forall|i: int| 0 <= i < n implies (#[trigger] dealt_0[i].value + dealt_1[i].value)
        % p as int == bit_int(diff[i] != masks[i]) by {
        assert((m0[i] != m1[i]) == (diff[i] != masks[i]));
    }
    let (r0, r1) = (rotated_back(marks_0, shift), rotated_back(marks_1, shift));
    assert forall|i: int| 0 <= i < n implies (#[trigger] r0[i] != r1[i]) == (i == f) by {
        let j = if shift <= i {
            i - shift
        } else {
            i + (n - shift)
        };
        assert(r0[i] == marks_0[j] && r1[i] == marks_1[j]);
        assert((j + shift) % n == i) by {
            if shift <= i {
                lemma_small_mod(i as nat, n as nat);
            } else {
                lemma_mod_add_multiples_vanish(i, n);
                lemma_small_mod(i as nat, n as nat);
            }
        }
        assert((marks_0[j] != marks_1[j]) == ((test_values(
            true,
            dealt_0,
            masks,
            scalars,
            shift,
            p,
        )[j].value + test_values(false, dealt_1, masks, scalars, shift, p)[j].value) % p as int
            == 0));
        assert(0 < scalars[i].value < p);
        lemma_test_value_vanishes(dealt_0, dealt_1, masks, scalars, diff, i as nat, p);
        assert(is_first(diff, i) == (i == f)) by {
            if is_first(diff, i) && i != f {
                if i < f {
                    assert(!diff[i]);
                } else {
                    assert(!diff[f]);
                }
            }
        }
    }
    lemma_dot_picks(r0, r1, public, f, public.len());
}

/// The low bits of an element stand for its residue.
pub proof fn lemma_low_bits_num<T: IntRing2k>(x: T, n: nat)
    requires
        n <= T::bits(),
    ensures
        num(low_bits(x, n)) == x.val() % pow2(n) as int,
{
    x.law_val();
    lemma_num_of_bits(x.val(), n);
    assert(low_bits(x, n) =~= Seq::new(n, |i: int| crate::ring::bit_of(x.val(), (n - 1 - i) as nat)));
}

proof fn lemma_num_of_bits(x: int, n: nat)
    requires
        0 <= x,
    ensures
        num(Seq::new(n, |i: int| crate::ring::bit_of(x, (n - 1 - i) as nat))) == x % pow2(n) as int,
    decreases n,
{
    let s = Seq::new(n, |i: int| crate::ring::bit_of(x, (n - 1 - i) as nat));
    lemma_pow2_pos(n);
    if n == 0 {
        lemma2_to64();
    } else {
        let k = (n - 1) as nat;
        let h = x / 2;
        let t = Seq::new(k, |i: int| crate::ring::bit_of(h, (k - 1 - i) as nat));
        assert(s.drop_last() =~= t) by {
            assert forall|i: int| 0 <= i < k implies s[i] == t[i] by {
                lemma_bit_of_half(x, (k - 1 - i) as nat);
            }
        }
        lemma_num_of_bits(h, k);
        lemma2_to64();
        assert(x / 1 == x);
        assert(s.last() == (x % 2 == 1));
        // x mod 2^n = 2 * ((x / 2) mod 2^(n-1)) + x mod 2
        lemma_pow2_unfold(n);
        lemma_pow2_pos(k);
        lemma_mod_breakdown(x, 2, pow2(k) as int);
    }
}

} // verus!
