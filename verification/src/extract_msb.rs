//! Extraction of the most significant bits of shared values, and lifting of 16-bit shares to 32
//! bits.

use crate::adders::{
    carry_into, doubled, lemma_lnum_bound, lemma_ripple_adds, lemma_two_carries, lnum,
    majority_bits, sum_bits, xor3_bits,
};
use crate::binary::{a2b_pre, split_parts};
use crate::bit_slice::{lane, sliced, transpose_pack_u64, unpack_shares};
use crate::message::ProtocolError;
use crate::player::Role;
use crate::ring::{bit_int, bit_of, IntRing2k};
use crate::ring_lemmas::{bit, lemma_reduce, lemma_shift, lemma_small, lemma_sum3};
use crate::shares::{consistent, sum_value, Share};
use vstd::arithmetic::div_mod::*;
use vstd::arithmetic::mul::*;
use vstd::arithmetic::power2::*;
use vstd::prelude::*;

verus! {

/// Brings the two summands of a split batch into bit-sliced form for the adder.
pub fn extract_msb_planes<T: IntRing2k>(x1: &[Share<T>], x2: &[Share<T>]) -> (r: (
    Vec<Vec<Share<u64>>>,
    Vec<Vec<Share<u64>>>,
))
    ensures
        sliced(x1@, r.0@),
        sliced(x2@, r.1@),
{
    (transpose_pack_u64(x1), transpose_pack_u64(x2))
}

/// The bit shares of `n` elements, from the word shares that the adder ends with.
pub fn extract_msb_batch(words: &[Share<u64>], n: usize) -> (r: Vec<Share<bool>>)
    requires
        n <= 64 * words@.len(),
    ensures
        r@ == Seq::new(n as nat, |i: int| lane(words@, i)),
        forall|i: int|
            0 <= i < n ==> (#[trigger] r@[i]).a == bit(words@[i / 64].a, (i % 64) as nat)
                && r@[i].b == bit(words@[i / 64].b, (i % 64) as nat),
{
    unpack_shares(words, n)
}

/// The bit share of a single element, from the word share that the adder ends with.
pub fn single_extract_msb(words: &[Share<u64>]) -> (r: Share<bool>)
    requires
        words@.len() >= 1,
    ensures
        r == lane(words@, 0),
        r.a == bit(words@[0].a, 0),
        r.b == bit(words@[0].b, 0),
{
    Share { a: words[0].a.bit_at(0), b: words[0].b.bit_at(0) }
}

/// The bits of an element, least significant bit first.
pub open spec fn bits_of<T: IntRing2k>(x: T) -> Seq<bool> {
    Seq::new(T::bits(), |i: int| bit(x, i as nat))
}

/// A number is made of its bits.
pub proof fn lemma_lnum_of_bits(x: int, n: nat)
    requires
        0 <= x < pow2(n),
    ensures
        lnum(Seq::new(n, |i: int| bit_of(x, i as nat)), n) == x,
    decreases n,
{
    let s = Seq::new(n, |i: int| bit_of(x, i as nat));
    lemma2_to64();
    if n > 0 {
        let k = (n - 1) as nat;
        let w = pow2(k) as int;
        lemma_pow2_unfold(n);
        lemma_pow2_pos(k);
        let (q, r) = (x / w, x % w);
        lemma_fundamental_div_mod(x, w);
        lemma_mod_bound(x, w);
        assert(q == 0 || q == 1) by (nonlinear_arith)
            requires
                x == w * q + r,
                0 <= x < 2 * w,
                0 <= r < w,
                w > 0,
        ;
        let t = Seq::new(k, |i: int| bit_of(r, i as nat));
        assert forall|i: int| 0 <= i < k implies s[i] == t[i] by {
            lemma_low_bit(x, r, q, k, i as nat);
        }
        lemma_lnum_of_bits(r, k);
        crate::adders::lemma_lnum_ext(s, t, k);
        assert(bit_int(s[n - 1]) == q);
        assert(q * w == w * q) by (nonlinear_arith);
    }
}

/// Adding a multiple of `2^k` does not change the bits below place `k`.
proof fn lemma_low_bit(x: int, r: int, q: int, k: nat, i: nat)
    requires
        0 <= r,
        0 <= q,
        i < k,
        x == pow2(k) * q + r,
    ensures
        bit_of(x, i) == bit_of(r, i),
{
    let (w, v) = (pow2(i) as int, pow2((k - i) as nat) as int);
    lemma_pow2_adds(i, (k - i) as nat);
    lemma_pow2_pos(i);
    lemma_pow2_unfold((k - i) as nat);
    let h = pow2((k - i - 1) as nat) as int;
    assert(x == w * (v * q) + r) by (nonlinear_arith)
        requires
            x == pow2(k) * q + r,
            pow2(k) == w * v,
    ;
    lemma_div_multiples_vanish_fancy_sum(v * q, r, w);
    assert(x / w == v * q + r / w);
    assert(v * q == 2 * (h * q)) by (nonlinear_arith)
        requires
            v == 2 * h,
    ;
}

proof fn lemma_div_multiples_vanish_fancy_sum(a: int, r: int, w: int)
    requires
        w > 0,
    ensures
        (w * a + r) / w == a + r / w,
{
    lemma_hoist_over_denominator(r, a, w as nat);
    lemma_mul_is_commutative(w, a);
}

/// The bits of a number made of bits are those bits.
pub proof fn lemma_bits_of_lnum(s: Seq<bool>, n: nat, i: nat)
    requires
        n <= s.len(),
        i < n,
    ensures
        bit_of(lnum(s, n), i) == s[i as int],
    decreases n,
{
    let k = (n - 1) as nat;
    lemma_lnum_bound(s, n);
    lemma_lnum_bound(s, k);
    lemma_pow2_pos(k);
    let (q, r, w) = (bit_int(s[n - 1]), lnum(s, k), pow2(k) as int);
    let x = lnum(s, n);
    assert(x == w * q + r) by (nonlinear_arith)
        requires
            x == r + q * w,
    ;
    if i == k {
        lemma_fundamental_div_mod_converse(x, w, q, r);
    } else {
        lemma_low_bit(x, r, q, k, i);
        lemma_bits_of_lnum(s, k, i);
    }
}

/// The most significant bit of a sum is the exclusive or of the most significant bits and the
/// carry that the lower bits produce.
pub proof fn lemma_msb_of_sum<T: IntRing2k>(x1: T, x2: T)
    ensures
        ({
            let k = (T::bits() - 1) as nat;
            let (a, b) = (bits_of(x1), bits_of(x2));
            bit(T::of_int(x1.val() + x2.val()), k) == ((a[k as int] != b[k as int]) != carry_into(
                a,
                b,
                0,
                k,
            ))
        }),
{
    let n = T::bits();
    let (a, b) = (bits_of(x1), bits_of(x2));
    T::law_modulus();
    x1.law_val();
    x2.law_val();
    lemma_lnum_of_bits(x1.val(), n);
    lemma_lnum_of_bits(x2.val(), n);
    assert(a =~= Seq::new(n, |i: int| bit_of(x1.val(), i as nat)));
    assert(b =~= Seq::new(n, |i: int| bit_of(x2.val(), i as nat)));
    lemma_ripple_adds(a, b, n);
    let s = sum_bits(a, b, n);
    lemma_lnum_bound(s, n);
    let c = bit_int(carry_into(a, b, 0, n));
    lemma_shift::<T>(lnum(s, n), c);
    lemma_small::<T>(lnum(s, n));
    lemma_bits_of_lnum(s, n, (n - 1) as nat);
}

/// Multiplies a 16-bit share by `2^K` in the 32-bit ring.
pub fn mul_lift_2k<const K: u64>(val: &Share<u16>) -> (r: Share<u32>)
    requires
        K < 32,
    ensures
        r == lifted_by(*val, K as nat),
        r.a == (val.a * pow2(K as nat)) % 0x1_0000_0000,
        r.b == (val.b * pow2(K as nat)) % 0x1_0000_0000,
{
    let w: u32 = u32::power_of_two(K as usize);
    proof {
        lemma_pow2_pos(K as nat);
        lemma_pow2_strictly_increases(K as nat, 32);
        lemma2_to64();
        lemma_small::<u32>(pow2(K as nat) as int);
    }
    Share { a: (val.a as u32).ring_mul(w), b: (val.b as u32).ring_mul(w) }
}

/// A 16-bit share times `2^k` in the 32-bit ring.
pub open spec fn lifted_by(val: Share<u16>, k: nat) -> Share<u32> {
    Share {
        a: u32::of_int(val.a.val() * pow2(k) as int),
        b: u32::of_int(val.b.val() * pow2(k) as int),
    }
}

/// Multiplies 16-bit shares by `2^K` in the 32-bit ring.
pub fn mul_lift_2k_many<const K: u64>(vals: &[Share<u16>]) -> (r: Vec<Share<u32>>)
    requires
        K < 32,
    ensures
        r@ == Seq::new(vals@.len(), |i: int| lifted_by(vals@[i], K as nat)),
        r@.len() == vals@.len(),
        forall|i: int|
            0 <= i < r@.len() ==> (#[trigger] r@[i]).a == (vals@[i].a * pow2(K as nat))
                % 0x1_0000_0000 && r@[i].b == (vals@[i].b * pow2(K as nat)) % 0x1_0000_0000,
{
    let mut out: Vec<Share<u32>> = Vec::new();
    let mut i: usize = 0;
    while i < vals.len()
        invariant
            K < 32,
            i <= vals@.len(),
            out@.len() == i,
            forall|j: int| 0 <= j < i ==> #[trigger] out@[j] == lifted_by(vals@[j], K as nat),
        decreases vals@.len() - i,
    {
        out.push(mul_lift_2k::<K>(&vals[i]));
        i += 1;
    }
    assert(out@ =~= Seq::new(vals@.len(), |i: int| lifted_by(vals@[i], K as nat)));
    out
}

/// Each word of a plane is split into the sharings of its parts.
pub open spec fn split_plane(
    role: int,
    x: Seq<Share<u64>>,
    x1: Seq<Share<u64>>,
    x2: Seq<Share<u64>>,
    x3: Seq<Share<u64>>,
) -> bool {
    &&& x1.len() == x.len() && x2.len() == x.len() && x3.len() == x.len()
    &&& forall|j: int|
        0 <= j < x.len() ==> (#[trigger] x1[j], x2[j], x3[j]) == split_parts(role, x[j])
}

/// Each word of all planes is split into the sharings of its parts.
pub open spec fn split_planes(
    role: int,
    x: Seq<Vec<Share<u64>>>,
    x1: Seq<Vec<Share<u64>>>,
    x2: Seq<Vec<Share<u64>>>,
    x3: Seq<Vec<Share<u64>>>,
) -> bool {
    &&& x1.len() == x.len() && x2.len() == x.len() && x3.len() == x.len()
    &&& forall|q: int|
        0 <= q < x.len() ==> split_plane(role, (#[trigger] x[q])@, x1[q]@, x2[q]@, x3[q]@)
}

/// Splits every word of bit-sliced shares into the sharings of its parts, as the adder for three
/// numbers takes them.
pub fn lift_planes(own_role: Role, x: &[Vec<Share<u64>>]) -> (r: Result<
    (Vec<Vec<Share<u64>>>, Vec<Vec<Share<u64>>>, Vec<Vec<Share<u64>>>),
    ProtocolError,
>)
    ensures
        own_role.index >= 3 ==> r == Err::<
            (Vec<Vec<Share<u64>>>, Vec<Vec<Share<u64>>>, Vec<Vec<Share<u64>>>),
            ProtocolError,
        >(ProtocolError::UnsupportedRole),
        own_role.index < 3 ==> {
            let (x1, x2, x3) = r->Ok_0;
            r is Ok && split_planes(own_role.index as int, x@, x1@, x2@, x3@)
        },
{
    if own_role.index >= 3 {
        return Err(ProtocolError::UnsupportedRole);
    }
    let mut x1: Vec<Vec<Share<u64>>> = Vec::new();
    let mut x2: Vec<Vec<Share<u64>>> = Vec::new();
    let mut x3: Vec<Vec<Share<u64>>> = Vec::new();
    let mut p: usize = 0;
    while p < x.len()
        invariant
            own_role.index < 3,
            p <= x@.len(),
            x1@.len() == p,
            x2@.len() == p,
            x3@.len() == p,
            forall|q: int|
                0 <= q < p ==> split_plane(
                    own_role.index as int,
                    (#[trigger] x@[q])@,
                    x1@[q]@,
                    x2@[q]@,
                    x3@[q]@,
                ),
        decreases x@.len() - p,
    {
        let mut y1: Vec<Share<u64>> = Vec::new();
        let mut y2: Vec<Share<u64>> = Vec::new();
        let mut y3: Vec<Share<u64>> = Vec::new();
        let mut k: usize = 0;
        while k < x[p].len()
            invariant
                own_role.index < 3,
                p < x@.len(),
                k <= x@[p as int]@.len(),
                y1@.len() == k,
                y2@.len() == k,
                y3@.len() == k,
                forall|j: int|
                    0 <= j < k ==> (#[trigger] y1@[j], y2@[j], y3@[j]) == split_parts(
                        own_role.index as int,
                        x@[p as int]@[j],
                    ),
            decreases x@[p as int]@.len() - k,
        {
            match a2b_pre(own_role, x[p][k]) {
                Ok((a, b, c)) => {
                    y1.push(a);
                    y2.push(b);
                    y3.push(c);
                },
                Err(e) => {
                    return Err(e);
                },
            }
            k += 1;
        }
        x1.push(y1);
        x2.push(y2);
        x3.push(y3);
        p += 1;
    }
    Ok((x1, x2, x3))
}

/// The bits by which the sums of the parts exceed 16 bits, as one batch for the bit injection:
/// the lower carries of all elements, then the upper ones.
pub fn lift_carry_bits(lower: &[Share<u64>], upper: &[Share<u64>], len: usize) -> (r: Vec<
    Share<bool>,
>)
    requires
        len <= 64 * lower@.len(),
        len <= 64 * upper@.len(),
    ensures
        r@ == Seq::new(len as nat, |i: int| lane(lower@, i)) + Seq::new(
            len as nat,
            |i: int| lane(upper@, i),
        ),
{
    let mut out: Vec<Share<bool>> = unpack_shares(lower, len);
    let rest: Vec<Share<bool>> = unpack_shares(upper, len);
    let mut i: usize = 0;
    while i < rest.len()
        invariant
            rest@.len() == len,
            i <= len,
            rest@ == Seq::new(len as nat, |j: int| lane(upper@, j)),
            out@ == Seq::new(len as nat, |j: int| lane(lower@, j)) + Seq::new(
                i as nat,
                |j: int| lane(upper@, j),
            ),
        decreases len - i,
    {
        out.push(rest[i]);
        assert(out@ =~= Seq::new(len as nat, |j: int| lane(lower@, j)) + Seq::new(
            (i + 1) as nat,
            |j: int| lane(upper@, j),
        ));
        i += 1;
    }
    out
}

/// The 32-bit share of a lifted value: the parts, less the injected carries at their places.
pub open spec fn lifted(x: Share<u16>, lower: Share<u16>, upper: Share<u16>) -> Share<u32> {
    Share { a: x.a as u32, b: x.b as u32 }.minus_spec(lifted_by(lower, 16)).minus_spec(
        lifted_by(upper, 17),
    )
}

/// Last step of lifting: takes the injected carries, the lower ones of all elements and then the
/// upper ones.
pub fn lift(shares: &[Share<u16>], carries: &[Share<u16>]) -> (r: Result<
    Vec<Share<u32>>,
    ProtocolError,
>)
    ensures
        carries@.len() != 2 * shares@.len() ==> r == Err::<Vec<Share<u32>>, ProtocolError>(
            ProtocolError::LengthMismatch,
        ),
        carries@.len() == 2 * shares@.len() ==> r is Ok && r->Ok_0@ == Seq::new(
            shares@.len(),
            |i: int| lifted(shares@[i], carries@[i], carries@[shares@.len() + i]),
        ),
        r is Ok ==> r->Ok_0@.len() == shares@.len() && forall|i: int|
            0 <= i < shares@.len() ==> (#[trigger] r->Ok_0@[i]).a == (shares@[i].a - 0x1_0000
                * carries@[i].a - 0x2_0000 * carries@[shares@.len() + i].a) % 0x1_0000_0000
                && r->Ok_0@[i].b == (shares@[i].b - 0x1_0000 * carries@[i].b - 0x2_0000
                * carries@[shares@.len() + i].b) % 0x1_0000_0000,
{
    let len: usize = shares.len();
    let total: usize = carries.len();
    if total < len || total - len != len {
        return Err(ProtocolError::LengthMismatch);
    }
    let mut out: Vec<Share<u32>> = Vec::new();
    let mut i: usize = 0;
    while i < len
        invariant
            len == shares@.len(),
            total == carries@.len(),
            total == 2 * len,
            i <= len,
            out@.len() == i,
            forall|j: int|
                0 <= j < i ==> #[trigger] out@[j] == lifted(
                    shares@[j],
                    carries@[j],
                    carries@[len + j],
                ),
        decreases len - i,
    {
        let wide: Share<u32> = Share { a: shares[i].a as u32, b: shares[i].b as u32 };
        let lower: Share<u32> = mul_lift_2k::<16>(&carries[i]);
        let upper: Share<u32> = mul_lift_2k::<17>(&carries[len + i]);
        out.push(wide.minus(lower).minus(upper));
        i += 1;
    }
    assert(out@ =~= Seq::new(
        shares@.len(),
        |i: int| lifted(shares@[i], carries@[i], carries@[shares@.len() + i]),
    ));
    proof {
        assert forall|i: int| 0 <= i < shares@.len() implies (#[trigger] out@[i]).a == (shares@[i].a
            - 0x1_0000 * carries@[i].a - 0x2_0000 * carries@[shares@.len() + i].a) % 0x1_0000_0000
            && out@[i].b == (shares@[i].b - 0x1_0000 * carries@[i].b - 0x2_0000
            * carries@[shares@.len() + i].b) % 0x1_0000_0000 by {
            let (x, l, u) = (shares@[i], carries@[i], carries@[shares@.len() + i]);
            lemma_lifted_part(x.a, l.a, u.a);
            lemma_lifted_part(x.b, l.b, u.b);
        }
    }
    Ok(out)
}

/// Lifting is correct: if the injected bits are the carries of adding the three parts, the lifted
/// shares are consistent 32-bit shares of the 16-bit value.
pub proof fn lemma_lift_correct(
    x: (Share<u16>, Share<u16>, Share<u16>),
    lower: (Share<u16>, Share<u16>, Share<u16>),
    upper: (Share<u16>, Share<u16>, Share<u16>),
)
    requires
        consistent(x.0, x.1, x.2),
        consistent(lower.0, lower.1, lower.2),
        consistent(upper.0, upper.1, upper.2),
        ({
            let (x1, x2, x3) = (bits_of(x.0.a), bits_of(x.1.a), bits_of(x.2.a));
            let s = xor3_bits(x1, x2, x3);
            let c = majority_bits(x1, x2, x3);
            let carry = carry_into(s, doubled(c), 1, 16);
            &&& sum_value(lower.0, lower.1, lower.2) == bit_int(c.last() != carry)
            &&& sum_value(upper.0, upper.1, upper.2) == bit_int(c.last() && carry)
        }),
    ensures
        ({
            let (r0, r1, r2) = (
                lifted(x.0, lower.0, upper.0),
                lifted(x.1, lower.1, upper.1),
                lifted(x.2, lower.2, upper.2),
            );
            &&& consistent(r0, r1, r2)
            &&& sum_value(r0, r1, r2) == sum_value(x.0, x.1, x.2)
        }),
{
    let (x1, x2, x3) = (bits_of(x.0.a), bits_of(x.1.a), bits_of(x.2.a));
    let s = xor3_bits(x1, x2, x3);
    let c = majority_bits(x1, x2, x3);
    let v = doubled(c);
    let carry = carry_into(s, v, 1, 16);
    let (lo, up) = (bit_int(c.last() != carry), bit_int(c.last() && carry));
    lemma2_to64();
    lemma_two_carries(x1, x2, x3);
    lemma_lnum_of_bits(x.0.a as int, 16);
    lemma_lnum_of_bits(x.1.a as int, 16);
    lemma_lnum_of_bits(x.2.a as int, 16);
    assert(x1 =~= Seq::new(16, |i: int| bit_of(x.0.a as int, i as nat)));
    assert(x2 =~= Seq::new(16, |i: int| bit_of(x.1.a as int, i as nat)));
    assert(x3 =~= Seq::new(16, |i: int| bit_of(x.2.a as int, i as nat)));
    let low = lnum(sum_bits(s, v, 16), 16);
    lemma_lnum_bound(sum_bits(s, v, 16), 16);
    let total = x.0.a + x.1.a + x.2.a;
    assert(total == low + lo * 0x1_0000 + up * 0x2_0000);
    // the shared value is the low part
    lemma_shift::<u16>(low, lo + 2 * up);
    lemma_small::<u16>(low);
    assert(sum_value(x.0, x.1, x.2) == low);
    // sums of the shares of the carries, up to multiples of the 16-bit modulus
    let (sl, su) = (
        lower.0.a + lower.1.a + lower.2.a,
        upper.0.a + upper.1.a + upper.2.a,
    );
    let ql = lemma_reduce::<u16>(sl);
    let qu = lemma_reduce::<u16>(su);
    lemma_lifted_sum(x, lower, upper, low, lo, up, ql, qu);
}

/// Taking the shares of the carries off at their places takes the carries off the sum.
proof fn lemma_lifted_sum(
    x: (Share<u16>, Share<u16>, Share<u16>),
    lower: (Share<u16>, Share<u16>, Share<u16>),
    upper: (Share<u16>, Share<u16>, Share<u16>),
    low: int,
    lo: int,
    up: int,
    ql: int,
    qu: int,
)
    requires
        consistent(x.0, x.1, x.2),
        consistent(lower.0, lower.1, lower.2),
        consistent(upper.0, upper.1, upper.2),
        0 <= low < 0x1_0000,
        x.0.a + x.1.a + x.2.a == low + lo * 0x1_0000 + up * 0x2_0000,
        lower.0.a + lower.1.a + lower.2.a == lo + ql * 0x1_0000,
        upper.0.a + upper.1.a + upper.2.a == up + qu * 0x1_0000,
    ensures
        ({
            let (r0, r1, r2) = (
                lifted(x.0, lower.0, upper.0),
                lifted(x.1, lower.1, upper.1),
                lifted(x.2, lower.2, upper.2),
            );
            &&& consistent(r0, r1, r2)
            &&& sum_value(r0, r1, r2) == low
        }),
{
    lemma_lifted_part(x.0.a, lower.0.a, upper.0.a);
    lemma_lifted_part(x.1.a, lower.1.a, upper.1.a);
    lemma_lifted_part(x.2.a, lower.2.a, upper.2.a);
    let (p0, p1, p2) = (
        x.0.a - lower.0.a * 0x1_0000 - upper.0.a * 0x2_0000,
        x.1.a - lower.1.a * 0x1_0000 - upper.1.a * 0x2_0000,
        x.2.a - lower.2.a * 0x1_0000 - upper.2.a * 0x2_0000,
    );
    lemma_sum3::<u32>(p0, p1, p2);
    assert(p0 + p1 + p2 == low + (-(ql + 2 * qu)) * 0x1_0000_0000);
    lemma_shift::<u32>(low, -(ql + 2 * qu));
    lemma_small::<u32>(low);
}

proof fn lemma_lifted_part(x: u16, l: u16, u: u16)
    ensures
        lifted(Share { a: x, b: x }, Share { a: l, b: l }, Share { a: u, b: u }).a == u32::of_int(
            x - l * 0x1_0000 - u * 0x2_0000,
        ),
{
    lemma2_to64();
    let (p, q) = (l * 0x1_0000, u * 0x2_0000);
    crate::ring_lemmas::lemma_absorb_sub::<u32>(p, x as int);
    crate::ring_lemmas::lemma_absorb::<u32>(x - p, -u32::of_int(q).val());
    crate::ring_lemmas::lemma_absorb_sub::<u32>(q, x - p);
}

} // verus!
