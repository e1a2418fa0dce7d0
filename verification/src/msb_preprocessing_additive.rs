//! Extraction of the most significant bit of an additively shared value with preprocessed
//! randomness.
//!
//! The value is masked and opened up to its most significant bit. A comparison tells whether
//! the subtraction of the mask borrows; with it the low part of the value is known as shares,
//! and what is left of the value is its most significant bit. That bit is opened under a random
//! bit, and the shares of the random bit become shares of the result.

use crate::bitlt::{
    difference, dot, form_test_values, lemma_low_bits_num, low_bits, mask_shares, masked_shares, num, public_bits,
    rotated_back, select_public_bit, test_values,
};
use crate::msb_dealer_helpers::{
    all_in_field, dealt_bits, dealt_primes, lemma_dealt_bit_adds_up, lemma_dealt_prime_adds_up,
    sum_primes, xor_bits,
};
use crate::msb_offline_randomness::{offline_valid, OfflineRandomSharesAdditive3pc, OfflineView};
use crate::player::Role;
use crate::primefield::{is_prime, PrimeElement};
use crate::ring::{bit_int, IntRing2k};
use crate::ring_lemmas::{
    bit, lemma_absorb, lemma_absorb_sub, lemma_reduce, lemma_shift, lemma_small, lemma_sum3,
};
use vstd::arithmetic::div_mod::*;
use vstd::arithmetic::mul::*;
use vstd::arithmetic::power2::*;
use vstd::prelude::*;

verus! {

/// Half the modulus: the weight of the most significant bit.
pub open spec fn top<T: IntRing2k>() -> int {
    pow2((T::bits() - 1) as nat) as int
}

proof fn lemma_top<T: IntRing2k>()
    ensures
        T::modulus() == 2 * top::<T>(),
        1 <= top::<T>() < T::modulus(),
{
    T::law_modulus();
    lemma_pow2_unfold(T::bits());
    lemma_pow2_pos((T::bits() - 1) as nat);
}

/// First step of comparing a shared number with a public one: the message to the dealer.
pub fn bitlt_3pc_mask<T: IntRing2k>(
    own_role: Role,
    shares: &[bool],
    public_value: T,
    masks: &[bool],
) -> (r: Vec<bool>)
    requires
        shares@.len() <= T::bits(),
        masks@.len() == shares@.len() + 1,
    ensures
        r@ == masked_shares(
            own_role.index == 0,
            shares@.push(false),
            low_bits(public_value, shares@.len()).push(true),
            masks@,
        ),
{
    let public: Vec<bool> = public_bits(public_value, shares.len(), true);
    let mut scaled: Vec<bool> = vstd::slice::slice_to_vec(shares);
    scaled.push(false);
    mask_shares(own_role.index == 0, scaled.as_slice(), public.as_slice(), masks)
}

/// Second step: the test values that go to the dealer.
pub fn bitlt_3pc_test(
    own_role: Role,
    dealt: &[PrimeElement],
    masks: &[bool],
    scalars: &[PrimeElement],
    shift: usize,
    prime_modulus: u16,
) -> (r: Vec<PrimeElement>)
    requires
        prime_modulus >= 2,
        dealt@.len() == masks@.len() == scalars@.len(),
        dealt@.len() < usize::MAX / 2,
        shift < dealt@.len(),
        all_in_field(dealt@, prime_modulus),
        all_in_field(scalars@, prime_modulus),
    ensures
        r@ == test_values(
            own_role.index == 0,
            dealt@,
            masks@,
            scalars@,
            shift as nat,
            prime_modulus,
        ),
        all_in_field(r@, prime_modulus),
{
    form_test_values(own_role.index == 0, dealt, masks, scalars, shift, prime_modulus)
}

/// The share of the result that a compute role ends with.
pub open spec fn comparison_share<T: IntRing2k>(
    first: bool,
    marks: Seq<bool>,
    public_value: T,
    shift: nat,
) -> bool {
    first != dot(
        rotated_back(marks, shift),
        low_bits(public_value, (marks.len() - 1) as nat).push(true),
        marks.len(),
    )
}

/// Last step: the share of whether the public number is smaller than the shared one.
pub fn bitlt_3pc_finish<T: IntRing2k>(
    own_role: Role,
    marks: &[bool],
    public_value: T,
    shift: usize,
) -> (r: bool)
    requires
        1 <= marks@.len() <= T::bits() + 1,
        shift < marks@.len(),
    ensures
        own_role.index <= 1 ==> r == comparison_share(
            own_role.index == 0,
            marks@,
            public_value,
            shift as nat,
        ),
        own_role.index > 1 ==> !r,
        own_role.index <= 1 ==> r == ((own_role.index == 0) != dot(
            rotated_back(marks@, shift as nat),
            low_bits(public_value, (marks@.len() - 1) as nat).push(true),
            marks@.len(),
        )),
{
    if own_role.index > 1 {
        return false;
    }
    let public: Vec<bool> = public_bits(public_value, marks.len() - 1, true);
    let picked: bool = select_public_bit(marks, public.as_slice(), shift);
    (own_role.index == 0) != picked
}

/// The comparison is correct: with correctly dealt field shares and marks, the two result shares
/// differ exactly if the public number is smaller than the shared one.
pub proof fn lemma_bitlt_3pc_correct<T: IntRing2k>(
    shares_0: Seq<bool>,
    shares_1: Seq<bool>,
    public_value: T,
    masks: Seq<bool>,
    scalars: Seq<PrimeElement>,
    shift: nat,
    dealt_0: Seq<PrimeElement>,
    dealt_1: Seq<PrimeElement>,
    marks_0: Seq<bool>,
    marks_1: Seq<bool>,
    p: u16,
)
    requires
        comparison_run(
            shares_0.push(false),
            shares_1.push(false),
            low_bits(public_value, shares_0.len()).push(true),
            masks,
            scalars,
            shift,
            dealt_0,
            dealt_1,
            marks_0,
            marks_1,
            p,
        ),
        shares_0.len() <= T::bits(),
    ensures
        (comparison_share(true, marks_0, public_value, shift) != comparison_share(
            false,
            marks_1,
            public_value,
            shift,
        )) == (num(low_bits(public_value, shares_0.len())) < num(difference(shares_0, shares_1))),
{
    let n = shares_0.len();
    let low = low_bits(public_value, n);
    let public = low.push(true);
    let private = difference(shares_0.push(false), shares_1.push(false));
    assert(private[n as int] != public[n as int]);
    crate::bitlt::lemma_comparison_correct(
        shares_0.push(false),
        shares_1.push(false),
        public,
        masks,
        scalars,
        shift,
        dealt_0,
        dealt_1,
        marks_0,
        marks_1,
        p,
    );
    assert(public.drop_last() =~= low);
    assert(private.drop_last() =~= difference(shares_0, shares_1));
}

/// A run of the comparison in which the dealer deals correctly: its field shares add up to the
/// masked difference, and its marks to the zero tests of the test values.
pub open spec fn comparison_run(
    shares_0: Seq<bool>,
    shares_1: Seq<bool>,
    public: Seq<bool>,
    masks: Seq<bool>,
    scalars: Seq<PrimeElement>,
    shift: nat,
    dealt_0: Seq<PrimeElement>,
    dealt_1: Seq<PrimeElement>,
    marks_0: Seq<bool>,
    marks_1: Seq<bool>,
    p: u16,
) -> bool {
    let n = public.len();
    &&& is_prime(p as int)
    &&& 2 * n <= p + 1
    &&& shift < n
    &&& shares_0.len() == n
    &&& shares_1.len() == n
    &&& masks.len() == n
    &&& scalars.len() == n
    &&& dealt_0.len() == n
    &&& dealt_1.len() == n
    &&& marks_0.len() == n
    &&& marks_1.len() == n
    &&& forall|i: int| 0 <= i < n ==> 0 < (#[trigger] scalars[i]).value < p
    &&& forall|i: int|
        0 <= i < n ==> (#[trigger] dealt_0[i].value + dealt_1[i].value) % p as int == bit_int(
            masked_shares(true, shares_0, public, masks)[i] != masked_shares(
                false,
                shares_1,
                public,
                masks,
            )[i],
        )
    &&& forall|i: int|
        0 <= i < n ==> (#[trigger] marks_0[i] != marks_1[i]) == ((test_values(
            true,
            dealt_0,
            masks,
            scalars,
            shift,
            p,
        )[i].value + test_values(false, dealt_1, masks, scalars, shift, p)[i].value) % p as int
            == 0)
}

/// A dealer that splits the masked difference with `bin_to_primefield16` and the zero tests with
/// `primefield16_to_bin_one_hot` deals correctly, whatever it draws.
pub proof fn lemma_dealer_deals_correctly(
    shares_0: Seq<bool>,
    shares_1: Seq<bool>,
    public: Seq<bool>,
    masks: Seq<bool>,
    scalars: Seq<PrimeElement>,
    shift: nat,
    rand_primes: Seq<PrimeElement>,
    rand_bits: Seq<bool>,
    p: u16,
)
    requires
        is_prime(p as int),
        2 * public.len() <= p + 1,
        shift < public.len(),
        shares_0.len() == public.len(),
        shares_1.len() == public.len(),
        masks.len() == public.len(),
        scalars.len() == public.len(),
        rand_primes.len() == public.len(),
        rand_bits.len() == public.len(),
        all_in_field(rand_primes, p),
        forall|i: int| 0 <= i < public.len() ==> 0 < (#[trigger] scalars[i]).value < p,
    ensures
        ({
            let bits = xor_bits(
                masked_shares(false, shares_1, public, masks),
                masked_shares(true, shares_0, public, masks),
            );
            let dealt = dealt_primes(bits, rand_primes, p);
            let tests = sum_primes(
                test_values(false, rand_primes, masks, scalars, shift, p),
                test_values(true, dealt, masks, scalars, shift, p),
                p,
            );
            comparison_run(
                shares_0,
                shares_1,
                public,
                masks,
                scalars,
                shift,
                dealt,
                rand_primes,
                dealt_bits(tests, rand_bits),
                rand_bits,
                p,
            )
        }),
{
    let bits = xor_bits(
        masked_shares(false, shares_1, public, masks),
        masked_shares(true, shares_0, public, masks),
    );
    let dealt = dealt_primes(bits, rand_primes, p);
    assert forall|i: int| 0 <= i < public.len() implies (#[trigger] dealt[i].value
        + rand_primes[i].value) % p as int == bit_int(bits[i]) by {
        lemma_dealt_prime_adds_up(bits[i], rand_primes[i], p);
    }
    let (t0, t1) = (
        test_values(true, dealt, masks, scalars, shift, p),
        test_values(false, rand_primes, masks, scalars, shift, p),
    );
    let tests = sum_primes(t1, t0, p);
    let marks = dealt_bits(tests, rand_bits);
    assert forall|i: int| 0 <= i < public.len() implies (#[trigger] marks[i] != rand_bits[i]) == ((
    t0[i].value + t1[i].value) % p as int == 0) by {
        lemma_dealt_bit_adds_up(tests[i], rand_bits[i]);
        lemma_mod_bound(t0[i].value + t1[i].value, p as int);
    }
}

/// First step of the extraction: the share of the masked value, which is opened.
pub fn mask_value<T: IntRing2k>(x: T, offline: &OfflineRandomSharesAdditive3pc<T>) -> (r: T)
    ensures
        r == T::of_int(x.val() + offline.r.val()),
{
    x.ring_add(offline.r)
}

/// An element without its most significant bit.
pub fn low_part<T: IntRing2k>(c: T) -> (r: T)
    ensures
        r == T::of_int(c.val() % top::<T>()),
        r.val() == c.val() % top::<T>(),
        r.val() == c.val() % pow2((T::bits() - 1) as nat) as int,
{
    let k: usize = T::width();
    proof {
        T::law_modulus();
        lemma_top::<T>();
        c.law_val();
        lemma_top_bit(c);
        lemma_small::<T>(c.val() % top::<T>());
        lemma_small::<T>(top::<T>());
        lemma_mod_bound(c.val(), top::<T>());
    }
    if c.bit_at(k - 1) {
        c.ring_sub(T::power_of_two(k - 1))
    } else {
        c
    }
}

/// The most significant bit tells whether an element is in the upper half.
proof fn lemma_top_bit<T: IntRing2k>(c: T)
    ensures
        bit(c, (T::bits() - 1) as nat) == (c.val() >= top::<T>()),
        c.val() == bit_int(bit(c, (T::bits() - 1) as nat)) * top::<T>() + c.val() % top::<T>(),
{
    lemma_top::<T>();
    c.law_val();
    T::law_modulus();
    let (v, h) = (c.val(), top::<T>());
    if v >= h {
        lemma_fundamental_div_mod_converse(v, h, 1, v - h);
    } else {
        lemma_fundamental_div_mod_converse(v, h, 0, v);
    }
}

/// The share of the most significant bit, moved to the top and masked with the random bit. It
/// takes the low part `c_prime` of the opened masked value and the share of whether that is
/// smaller than the low part of the mask.
pub fn masked_msb_share<T: IntRing2k>(
    own_role: Role,
    x: T,
    offline: &OfflineRandomSharesAdditive3pc<T>,
    c_prime: T,
    borrow_share: bool,
) -> (r: T)
    requires
        offline.r_bits@.len() == T::bits(),
    ensures
        r == masked_msb(own_role.index == 0, x, offline@, c_prime, borrow_share),
        r == T::of_int(
            x.val() - (bit_int(borrow_share) * pow2((T::bits() - 1) as nat) + bit_int(own_role.index == 0) * c_prime.val() - (
            offline.r.val() - bit_int(offline.r_bits@[0]) * pow2((T::bits() - 1) as nat))) + offline.b_bit.val() * pow2(
                (T::bits() - 1) as nat,
            ),
        ),
{
    proof {
        T::law_modulus();
    }
    masked_msb_of_parts(
        own_role.index == 0,
        x,
        offline.r,
        offline.r_bits[0],
        offline.b_bit,
        c_prime,
        borrow_share,
    )
}

/// The share of the most significant bit, moved to the top and masked, from the parts of the
/// randomness that it takes: the share of the mask, of its most significant bit and of the
/// random bit.
pub fn masked_msb_of_parts<T: IntRing2k>(
    first: bool,
    x: T,
    r: T,
    r_top: bool,
    b_bit: T,
    c_prime: T,
    borrow_share: bool,
) -> (e: T)
    ensures
        e == masked_msb(
            first,
            x,
            (OfflineView { r, r_bits: seq![r_top], b_bit }),
            c_prime,
            borrow_share,
        ),
        e == T::of_int(
            x.val() - (bit_int(borrow_share) * pow2((T::bits() - 1) as nat) + bit_int(first) * c_prime.val() - (
            r.val() - bit_int(r_top) * pow2((T::bits() - 1) as nat))) + b_bit.val() * pow2(
                (T::bits() - 1) as nat,
            ),
        ),
{
    let k: usize = T::width();
    proof {
        T::law_modulus();
        lemma_top::<T>();
        lemma_small::<T>(top::<T>());
        lemma_small::<T>(1);
        lemma_small::<T>(0);
    }
    let high: T = T::power_of_two(k - 1);
    let r_msb: T = if r_top {
        high
    } else {
        T::from_bit(false)
    };
    let r_prime: T = r.ring_sub(r_msb);
    let mut x_prime: T = if borrow_share {
        high
    } else {
        T::from_bit(false)
    };
    let ghost h = top::<T>();
    let ghost rb = bit_int(r_top);
    let ghost u = bit_int(borrow_share);
    proof {
        assert(rb * h == if r_top { h } else { 0 });
        assert(u * h == if borrow_share { h } else { 0 });
    }
    if first {
        x_prime = x_prime.ring_add(c_prime);
    }
    let ghost c0 = bit_int(first) * c_prime.val();
    proof {
        c_prime.law_val();
        assert(c0 == if first { c_prime.val() } else { 0 });
        x_prime.law_val();
        assert(x_prime == T::of_int(u * h + c0));
    }
    let x_low: T = x_prime.ring_sub(r_prime);
    proof {
        lemma_absorb::<T>(u * h + c0, -r_prime.val());
        lemma_absorb_sub::<T>(r.val() - rb * h, u * h + c0);
        assert(x_low == T::of_int(u * h + c0 - (r.val() - rb * h)));
    }
    let d: T = x.ring_sub(x_low);
    proof {
        lemma_absorb_sub::<T>(u * h + c0 - (r.val() - rb * h), x.val());
    }
    let b_high: T = b_bit.ring_mul(high);
    let e: T = d.ring_add(b_high);
    proof {
        let y = x.val() - (u * h + c0 - (r.val() - rb * h));
        lemma_absorb::<T>(y, b_high.val());
        lemma_absorb::<T>(b_bit.val() * h, y);
    }
    e
}

/// The share that [`masked_msb_share`] computes.
pub open spec fn masked_msb<T: IntRing2k>(
    first: bool,
    x: T,
    offline: OfflineView<T>,
    c_prime: T,
    borrow_share: bool,
) -> T {
    T::of_int(
        x.val() - (bit_int(borrow_share) * top::<T>() + bit_int(first) * c_prime.val() - (
        offline.r.val() - bit_int(offline.r_bits[0]) * top::<T>())) + offline.b_bit.val() * top::<
            T,
        >(),
    )
}

/// Last step: the share of the most significant bit, from the opened masked bit `e`.
pub fn finish_msb<T: IntRing2k>(
    own_role: Role,
    offline: &OfflineRandomSharesAdditive3pc<T>,
    e: T,
) -> (r: T)
    ensures
        r == msb_share(own_role.index == 0, offline@, e),
        r == if bit(e, (T::bits() - 1) as nat) {
            T::of_int(bit_int(own_role.index == 0) - offline.b_bit.val())
        } else {
            offline.b_bit
        },
{
    finish_msb_of_parts(own_role.index == 0, offline.b_bit, e)
}

/// The share of the most significant bit, from the share of the random bit and the opened masked
/// bit `e`.
pub fn finish_msb_of_parts<T: IntRing2k>(first: bool, b_bit: T, e: T) -> (r: T)
    ensures
        forall|offline: OfflineView<T>|
            offline.b_bit == b_bit ==> r == #[trigger] msb_share(first, offline, e),
        r == if bit(e, (T::bits() - 1) as nat) {
            T::of_int(bit_int(first) - b_bit.val())
        } else {
            b_bit
        },
{
    let k: usize = T::width();
    proof {
        T::law_modulus();
        lemma_small::<T>(0);
        lemma_small::<T>(1);
    }
    if e.bit_at(k - 1) {
        T::from_bit(first).ring_sub(b_bit)
    } else {
        b_bit
    }
}

/// The share that [`finish_msb`] computes.
pub open spec fn msb_share<T: IntRing2k>(
    first: bool,
    offline: OfflineView<T>,
    e: T,
) -> T {
    if bit(e, (T::bits() - 1) as nat) {
        T::of_int(bit_int(first) - offline.b_bit.val())
    } else {
        offline.b_bit
    }
}

/// What three shares add up to.
pub open spec fn total<T: IntRing2k>(a: T, b: T, c: T) -> T {
    T::of_int(a.val() + b.val() + c.val())
}

/// The integers behind the three shares of the masked bit add up to the masked bit at the top,
/// up to a multiple of the modulus `2 * h`.
proof fn lemma_masked_bit_sum(
    x: (int, int, int),
    r: (int, int, int),
    b: (int, int, int),
    u: (int, int, int),
    g: (int, int, int),
    x_parts: (int, int, int),
    r_parts: (int, int, int),
    b_parts: (int, int),
    u_parts: (int, int),
    qg: int,
    c: int,
    h: int,
)
    requires
        x.0 + x.1 + x.2 == x_parts.0 * h + x_parts.1 + x_parts.2 * (2 * h),
        r.0 + r.1 + r.2 == r_parts.0 * h + r_parts.1 + r_parts.2 * (2 * h),
        b.0 + b.1 + b.2 == b_parts.0 + b_parts.1 * (2 * h),
        u.0 + u.1 + u.2 == u_parts.0 + 2 * u_parts.1,
        g.0 + g.1 + g.2 == r_parts.0 + 2 * qg,
        x_parts.1 == c - r_parts.1 + u_parts.0 * h,
    ensures
        (x.0 - (u.0 * h + c - (r.0 - g.0 * h)) + b.0 * h) + (x.1 - (u.1 * h + 0 - (r.1 - g.1 * h))
            + b.1 * h) + (x.2 - (u.2 * h + 0 - (r.2 - g.2 * h)) + b.2 * h) == (x_parts.0
            + b_parts.0) * h + (x_parts.2 + r_parts.2 - u_parts.1 - qg + b_parts.1 * h) * (2 * h),
{
    let m = 2 * h;
    let (u0, u1, u2) = u;
    let (g0, g1, g2) = g;
    let (b0, b1, b2) = b;
    let (us, qu) = u_parts;
    let (bs, qb) = b_parts;
    let (mr, rl, qr) = r_parts;
    let (mx, xl, qx) = x_parts;
    assert(u0 * h + u1 * h + u2 * h == us * h + qu * m) by (nonlinear_arith)
        requires
            u0 + u1 + u2 == us + 2 * qu,
            m == 2 * h,
    ;
    assert(g0 * h + g1 * h + g2 * h == mr * h + qg * m) by (nonlinear_arith)
        requires
            g0 + g1 + g2 == mr + 2 * qg,
            m == 2 * h,
    ;
    assert(b0 * h + b1 * h + b2 * h == bs * h + (qb * h) * m) by (nonlinear_arith)
        requires
            b0 + b1 + b2 == bs + qb * m,
    ;
    assert((mx + bs) * h == mx * h + bs * h) by (nonlinear_arith);
    let qbh = qb * h;
    assert((qx + qr - qu - qg + qbh) * m == qx * m + qr * m - qu * m - qg * m + qbh * m)
        by (nonlinear_arith);
}

/// The extraction is correct: the results of the three parties add up to the most significant
/// bit of the shared value. `c` is the opened masked value, `e` the opened masked bit, and the
/// borrow shares tell whether the low part of `c` is smaller than the low part of the mask.
pub proof fn lemma_extract_msb_correct<T: IntRing2k>(
    x0: T,
    x1: T,
    x2: T,
    o0: OfflineView<T>,
    o1: OfflineView<T>,
    o2: OfflineView<T>,
    u0: bool,
    u1: bool,
    u2: bool,
    c: T,
    c_prime: T,
    e: T,
)
    requires
        offline_valid(o0, o1, o2),
        c == total(
            T::of_int(x0.val() + o0.r.val()),
            T::of_int(x1.val() + o1.r.val()),
            T::of_int(x2.val() + o2.r.val()),
        ),
        c_prime.val() == c.val() % top::<T>(),
        ((u0 != u1) != u2) == (c_prime.val() < total(o0.r, o1.r, o2.r).val() % top::<T>()),
        e == total(
            masked_msb(true, x0, o0, c_prime, u0),
            masked_msb(false, x1, o1, c_prime, u1),
            masked_msb(false, x2, o2, c_prime, u2),
        ),
    ensures
        total(msb_share(true, o0, e), msb_share(false, o1, e), msb_share(false, o2, e)) == T::of_int(
            bit_int(bit(total(x0, x1, x2), (T::bits() - 1) as nat)),
        ),
{
    let (m, h) = (T::modulus(), top::<T>());
    lemma_top::<T>();
    T::law_modulus();
    let (x, r) = (total(x0, x1, x2), total(o0.r, o1.r, o2.r));
    let b = total(o0.b_bit, o1.b_bit, o2.b_bit);
    x.law_val();
    r.law_val();
    b.law_val();
    lemma_top_bit(x);
    lemma_top_bit(r);
    let mx = bit_int(bit(x, (T::bits() - 1) as nat));
    let mr = bit_int(bit(r, (T::bits() - 1) as nat));
    // sums of shares, up to multiples of the modulus
    let sx = x0.val() + x1.val() + x2.val();
    let sr = o0.r.val() + o1.r.val() + o2.r.val();
    let sb = o0.b_bit.val() + o1.b_bit.val() + o2.b_bit.val();
    let qx = lemma_reduce::<T>(sx);
    let qr = lemma_reduce::<T>(sr);
    let qb = lemma_reduce::<T>(sb);
    // the opened masked value
    lemma_sum3::<T>(x0.val() + o0.r.val(), x1.val() + o1.r.val(), x2.val() + o2.r.val());
    let qc = lemma_reduce::<T>(sx + sr);
    assert(c.val() == sx + sr - qc * m);
    let (xl, rl) = (x.val() % h, r.val() % h);
    lemma_mod_bound(x.val(), h);
    lemma_mod_bound(r.val(), h);
    let u = (u0 != u1) != u2;
    // the low part of x is c' - rl, plus the borrow
    assert(xl == c_prime.val() - rl + bit_int(u) * h) by {
        let k = 2 * (qx + qr - qc) + mx + mr;
        assert(c.val() == xl + rl + k * h) by (nonlinear_arith)
            requires
                c.val() == sx + sr - qc * m,
                x.val() == sx - qx * m,
                r.val() == sr - qr * m,
                x.val() == mx * h + xl,
                r.val() == mr * h + rl,
                m == 2 * h,
                k == 2 * (qx + qr - qc) + mx + mr,
        ;
        lemma_mod_multiples_vanish(k, xl + rl, h);
        lemma_mul_is_commutative(k, h);
        assert(c_prime.val() == (xl + rl) % h);
        if xl + rl < h {
            lemma_small_mod((xl + rl) as nat, h as nat);
        } else {
            lemma_fundamental_div_mod_converse(xl + rl, h, 1, xl + rl - h);
        }
    }
    // the shares of the bits of r and of the borrow, as integers
    let ub = bit_int(u0) + bit_int(u1) + bit_int(u2);
    let rb = bit_int(o0.r_bits[0]) + bit_int(o1.r_bits[0]) + bit_int(o2.r_bits[0]);
    assert(((o0.r_bits[0] != o1.r_bits[0]) != o2.r_bits[0]) == low_bits(r, T::bits())[0]);
    let qu: int = if ub >= 2 { 1 } else { 0 };
    let qrb: int = if rb >= 2 { 1 } else { 0 };
    assert(ub == bit_int(u) + 2 * qu);
    assert(rb == mr + 2 * qrb);
    // the opened masked bit is (mx + b) * h
    let e0 = x0.val() - (bit_int(u0) * h + bit_int(true) * c_prime.val() - (o0.r.val() - bit_int(
        o0.r_bits[0],
    ) * h)) + o0.b_bit.val() * h;
    let e1 = x1.val() - (bit_int(u1) * h + bit_int(false) * c_prime.val() - (o1.r.val() - bit_int(
        o1.r_bits[0],
    ) * h)) + o1.b_bit.val() * h;
    let e2 = x2.val() - (bit_int(u2) * h + bit_int(false) * c_prime.val() - (o2.r.val() - bit_int(
        o2.r_bits[0],
    ) * h)) + o2.b_bit.val() * h;
    lemma_sum3::<T>(e0, e1, e2);
    let z = (mx + b.val()) * h;
    let q = qx + qr - qu - qrb + qb * h;
    lemma_masked_bit_sum(
        (x0.val(), x1.val(), x2.val()),
        (o0.r.val(), o1.r.val(), o2.r.val()),
        (o0.b_bit.val(), o1.b_bit.val(), o2.b_bit.val()),
        (bit_int(u0), bit_int(u1), bit_int(u2)),
        (bit_int(o0.r_bits[0]), bit_int(o1.r_bits[0]), bit_int(o2.r_bits[0])),
        (mx, xl, qx),
        (mr, rl, qr),
        (b.val(), qb),
        (bit_int(u), qu),
        qrb,
        c_prime.val(),
        h,
    );
    assert(e0 + e1 + e2 == z + q * m);
    lemma_shift::<T>(z, q);
    assert(e == T::of_int(z));
    let eb = mx != b.val();
    assert(e.val() == bit_int(eb) * h) by {
        T::law_of_int(z);
        if mx == 1 && b.val() == 1 {
            assert(z == m) by (nonlinear_arith)
                requires
                    z == (mx + b.val()) * h,
                    mx == 1,
                    b.val() == 1,
                    m == 2 * h,
            ;
            lemma_mod_self_0(m);
        } else {
            assert(z == bit_int(eb) * h) by (nonlinear_arith)
                requires
                    z == (mx + b.val()) * h,
                    mx + b.val() == bit_int(eb),
            ;
            lemma_small_mod(z as nat, m as nat);
        }
    }
    lemma_top_bit(e);
    assert(bit(e, (T::bits() - 1) as nat) == eb);
    if eb {
        lemma_sum3::<T>(1 - o0.b_bit.val(), 0 - o1.b_bit.val(), 0 - o2.b_bit.val());
        lemma_absorb_sub::<T>(sb, 1);
        assert(T::of_int(1 - sb) == T::of_int(1 - b.val()));
    } else {
        assert(T::of_int(sb) == b);
    }
}

/// The comparison of the low part of the opened value with the bits of the mask below the most
/// significant one decides the borrow.
pub proof fn lemma_borrow_is_comparison<T: IntRing2k>(
    o0: OfflineView<T>,
    o1: OfflineView<T>,
    o2: OfflineView<T>,
    c_prime: T,
)
    requires
        offline_valid(o0, o1, o2),
        forall|i: int| 0 <= i < o2.r_bits.len() ==> !o2.r_bits[i],
        c_prime.val() < top::<T>(),
    ensures
        ({
            let k = T::bits() as int;
            let mask_bits = difference(o0.r_bits.subrange(1, k), o1.r_bits.subrange(1, k));
            &&& num(low_bits(c_prime, (k - 1) as nat)) == c_prime.val()
            &&& num(mask_bits) == total(o0.r, o1.r, o2.r).val() % top::<T>()
        }),
{
    let k = T::bits() as int;
    T::law_modulus();
    lemma_top::<T>();
    c_prime.law_val();
    lemma_low_bits_num(c_prime, (k - 1) as nat);
    lemma_small_mod(c_prime.val() as nat, top::<T>() as nat);
    let r = total(o0.r, o1.r, o2.r);
    lemma_low_bits_num(r, (k - 1) as nat);
    let mask_bits = difference(o0.r_bits.subrange(1, k), o1.r_bits.subrange(1, k));
    assert forall|i: int| 0 <= i < k - 1 implies mask_bits[i] == low_bits(r, (k - 1) as nat)[i] by {
        assert(((o0.r_bits[i + 1] != o1.r_bits[i + 1]) != o2.r_bits[i + 1]) == low_bits(
            r,
            k as nat,
        )[i + 1]);
    }
    assert(mask_bits =~= low_bits(r, (k - 1) as nat));
}

} // verus!
