//! The extraction of the top bit is right in every lane when five parties run it side by side.
//!
//! A lane is one bit of one word. The laws follow the shared bits of a lane through the rounds.
//! They take the products of a round as correct, which is the law of the bitwise and.

use crate::adders::{
    carry_into, doubled, lemma_carry_from_one, lemma_csa_adds, lemma_lnum_bound, lemma_lnum_ext,
    lemma_ripple_adds, lemma_shift_doubles, lnum, majority, majority_bits, sum_bits, xor3_bits,
};
use crate::bit_slice::{padded, words_for};
use crate::extract_msb::{lemma_bits_of_lnum, lemma_lnum_of_bits};
use crate::matrix::rectangular;
use crate::ops::{lemma_msb_is_sign, signed16};
use crate::planes::xor_seq;
use crate::ring::{bit_int, bit_of, IntRing2k};
use crate::ring_lemmas::{bit, group_bits, zero};
use crate::rss5::{consistent5, lemma_xor5_value, value5, Share5};
use crate::rss5_adder::{
    bits_of_place, fa_operands, fa_value, fa_values, holds_planes, is_carry, is_sum, shaped,
    MsbExtraction,
};
use crate::shares::XorShare;
use vstd::arithmetic::div_mod::*;
use vstd::arithmetic::power2::*;
use vstd::prelude::*;

verus! {

/// The planes of five parties.
pub type Planes5 = Seq<Seq<Vec<Share5<u64>>>>;

/// Word `w` of plane `k` of every party.
pub open spec fn plane_word(x: Planes5, k: int, w: int) -> Seq<Share5<u64>> {
    Seq::new(5, |p: int| x[p][k]@[w])
}

/// The shared bit of plane `k` in lane `i` of word `w`.
pub open spec fn plane_lane(x: Planes5, k: int, w: int, i: nat) -> bool {
    bit(value5(plane_word(x, k, w)), i)
}

/// The planes of the five parties have `n` planes each, and word `w` of every one fits.
pub open spec fn planes_fit(x: Planes5, n: nat, w: int) -> bool {
    &&& x.len() == 5
    &&& forall|p: int| 0 <= p < 5 ==> (#[trigger] x[p]).len() == n
    &&& forall|k: int| 0 <= k < n ==> consistent5(#[trigger] plane_word(x, k, w))
}

/// The shared bits of all planes in one lane.
pub open spec fn lane_of(x: Planes5, n: nat, w: int, i: nat) -> Seq<bool> {
    Seq::new(n, |k: int| plane_lane(x, k, w, i))
}

/// The products of a round are right in word `w`.
pub open spec fn products_right(
    lhs: Planes5,
    rhs: Planes5,
    products: Planes5,
    n: nat,
    w: int,
) -> bool {
    &&& planes_fit(products, n, w)
    &&& forall|m: int|
        0 <= m < n ==> value5(#[trigger] plane_word(products, m, w)) == value5(
            plane_word(lhs, m, w),
        ).band(value5(plane_word(rhs, m, w)))
}

/// Value `j` of every party.
pub open spec fn value_planes(values: Seq<Seq<Vec<Vec<Share5<u64>>>>>, j: int) -> Planes5 {
    Seq::new(5, |p: int| values[p][j]@)
}

/// The sum of the first `n` numbers.
pub open spec fn total(lanes: Seq<Seq<bool>>, n: nat) -> int
    decreases n,
{
    if n == 0 {
        0
    } else {
        total(lanes, (n - 1) as nat) + lnum(lanes[n - 1], 16)
    }
}

/// The numbers of all values in one lane.
pub open spec fn lanes_of(
    values: Seq<Seq<Vec<Vec<Share5<u64>>>>>,
    n: nat,
    w: int,
    i: nat,
) -> Seq<Seq<bool>> {
    Seq::new(n, |j: int| lane_of(value_planes(values, j), 16, w, i))
}

/// The exclusive or of words that fit fits, and its bit is the exclusive or.
pub proof fn lemma_xor_word(x: Seq<Share5<u64>>, y: Seq<Share5<u64>>, z: Seq<Share5<u64>>, i: nat)
    requires
        consistent5(x),
        consistent5(y),
        z.len() == 5,
        forall|p: int| 0 <= p < 5 ==> #[trigger] z[p] == x[p].xor_of(y[p]),
        i < 64,
    ensures
        consistent5(z),
        bit(value5(z), i) == (bit(value5(x), i) != bit(value5(y), i)),
{
    broadcast use group_bits;

    lemma_xor5_value(x, y);
    assert(z =~= Seq::new(5, |p: int| x[p].xor_spec(y[p])));
}

/// Zero shares share zero.
proof fn lemma_nil_word(z: Seq<Share5<u64>>, i: nat)
    requires
        z.len() == 5,
        forall|p: int| 0 <= p < 5 ==> #[trigger] z[p] == Share5::<u64>::zero_spec(),
        i < 64,
    ensures
        consistent5(z),
        !bit(value5(z), i),
{
    broadcast use group_bits;

    let parts = Seq::new(10, |t: int| zero::<u64>());
    assert forall|p: int| 0 <= p < 5 implies crate::rss5::holds_parts(p, #[trigger] z[p], parts) by {
        assert forall|t: int| 0 <= t < 10 && !crate::rss5::in_set(t, p) implies crate::rss5::part(
            p,
            z[p],
            t,
        ) == #[trigger] parts[t] by {
            crate::rss5::lemma_slots(p, t as nat);
        }
    }
    crate::rss5::lemma_common_parts(z, parts);
    crate::rss5::lemma_xor_all_bit(parts, 10, i);
    lemma_parity_none(crate::rss5::bits_at(parts, i), 10);
}

proof fn lemma_parity_none(a: Seq<bool>, n: nat)
    requires
        forall|t: int| 0 <= t < n ==> !(#[trigger] a[t]),
    ensures
        !crate::rss5::parity(a, n),
    decreases n,
{
    if n > 0 {
        lemma_parity_none(a, (n - 1) as nat);
    }
}

/// A full adder keeps the sum up to a multiple of `2^16`, which is returned.
pub proof fn lemma_full_adder(x: Seq<bool>, y: Seq<bool>, z: Seq<bool>) -> (q: int)
    requires
        x.len() == 16,
        y.len() == 16,
        z.len() == 16,
    ensures
        lnum(x, 16) + lnum(y, 16) + lnum(z, 16) == lnum(xor3_bits(x, y, z), 16) + lnum(
            doubled(majority_bits(x, y, z)),
            16,
        ) + q * 0x1_0000,
{
    let c = majority_bits(x, y, z);
    lemma_csa_adds(x, y, z, 16);
    lemma_shift_doubles(c.drop_last(), 15);
    lemma_lnum_ext(c.drop_last(), c, 15);
    lemma2_to64();
    assert(lnum(c, 16) == lnum(c, 15) + bit_int(c[15]) * pow2(15));
    bit_int(c[15])
}

/// The numbers after a layer of full adders.
pub open spec fn layer_lanes(lanes: Seq<Seq<bool>>, groups: nat, next: Seq<Seq<bool>>) -> bool {
    &&& next.len() == lanes.len() - groups
    &&& forall|j: int|
        0 <= j < next.len() ==> #[trigger] next[j] == (if j >= 2 * groups {
            lanes[j + groups]
        } else if j % 2 == 0 {
            xor3_bits(lanes[3 * (j / 2)], lanes[3 * (j / 2) + 1], lanes[3 * (j / 2) + 2])
        } else {
            doubled(
                majority_bits(lanes[3 * (j / 2)], lanes[3 * (j / 2) + 1], lanes[3 * (j / 2) + 2]),
            )
        })
}

/// A layer keeps the sum of the numbers up to a multiple of `2^16`, which is returned.
pub proof fn lemma_layer_keeps_sum(lanes: Seq<Seq<bool>>, groups: nat, next: Seq<Seq<bool>>) -> (q:
    int)
    requires
        3 * groups <= lanes.len(),
        forall|j: int| 0 <= j < lanes.len() ==> (#[trigger] lanes[j]).len() == 16,
        layer_lanes(lanes, groups, next),
    ensures
        total(lanes, lanes.len()) == total(next, next.len()) + q * 0x1_0000,
{
    let q = lemma_groups_keep_sum(lanes, groups, next, groups);
    lemma_rest_keeps_sum(lanes, groups, next, next.len());
    q
}

proof fn lemma_groups_keep_sum(lanes: Seq<Seq<bool>>, groups: nat, next: Seq<Seq<bool>>, g: nat) -> (q:
    int)
    requires
        g <= groups,
        3 * groups <= lanes.len(),
        forall|j: int| 0 <= j < lanes.len() ==> (#[trigger] lanes[j]).len() == 16,
        layer_lanes(lanes, groups, next),
    ensures
        total(lanes, 3 * g) == total(next, 2 * g) + q * 0x1_0000,
    decreases g,
{
    if g == 0 {
        0
    } else {
        let h = (g - 1) as nat;
        let q = lemma_groups_keep_sum(lanes, groups, next, h);
        let k = h as int;
        let (x, y, z) = (lanes[3 * k], lanes[3 * k + 1], lanes[3 * k + 2]);
        let r = lemma_full_adder(x, y, z);
        reveal_with_fuel(total, 4);
        assert(total(lanes, 3 * g) == total(lanes, 3 * h) + lnum(x, 16) + lnum(y, 16) + lnum(
            z,
            16,
        ));
        assert((2 * k) / 2 == k && (2 * k + 1) / 2 == k);
        assert(next[2 * k] == xor3_bits(x, y, z));
        assert(next[2 * k + 1] == doubled(majority_bits(x, y, z)));
        assert(total(next, 2 * g) == total(next, 2 * h) + lnum(next[2 * k], 16) + lnum(
            next[2 * k + 1],
            16,
        ));
        q + r
    }
}

proof fn lemma_rest_keeps_sum(lanes: Seq<Seq<bool>>, groups: nat, next: Seq<Seq<bool>>, n: nat)
    requires
        3 * groups <= lanes.len(),
        layer_lanes(lanes, groups, next),
        2 * groups <= n <= next.len(),
    ensures
        total(lanes, n + groups) - total(lanes, 3 * groups) == total(next, n) - total(
            next,
            2 * groups,
        ),
    decreases n,
{
    if n > 2 * groups {
        lemma_rest_keeps_sum(lanes, groups, next, (n - 1) as nat);
        assert(next[n - 1] == lanes[n - 1 + groups]);
    }
}

/// The values of the five parties: `n` values of sixteen planes each, and word `w` of every plane
/// fits.
pub open spec fn values_fit(values: Seq<Seq<Vec<Vec<Share5<u64>>>>>, n: nat, w: int) -> bool {
    &&& values.len() == 5
    &&& forall|p: int| 0 <= p < 5 ==> (#[trigger] values[p]).len() == n
    &&& forall|j: int| 0 <= j < n ==> planes_fit(#[trigger] value_planes(values, j), 16, w)
}

/// One plane of the sum of a group.
proof fn lemma_sum_plane(
    x: Planes5,
    y: Planes5,
    z: Planes5,
    s: Planes5,
    words: nat,
    w: int,
    i: nat,
    k: int,
)
    requires
        0 <= k < 16,
        0 <= w < words,
        i < 64,
        planes_fit(x, 16, w),
        planes_fit(y, 16, w),
        planes_fit(z, 16, w),
        s.len() == 5,
        forall|p: int| 0 <= p < 5 ==> rectangular(#[trigger] x[p], words),
        forall|p: int| 0 <= p < 5 ==> is_sum(x[p], y[p], z[p], #[trigger] s[p]),
    ensures
        consistent5(plane_word(s, k, w)),
        plane_lane(s, k, w, i) == ((plane_lane(x, k, w, i) != plane_lane(y, k, w, i))
            != plane_lane(z, k, w, i)),
{
    let (xw, yw, zw, sw) = (
        plane_word(x, k, w),
        plane_word(y, k, w),
        plane_word(z, k, w),
        plane_word(s, k, w),
    );
    let xy = Seq::new(5, |p: int| xw[p].xor_of(yw[p]));
    lemma_xor_word(xw, yw, xy, i);
    assert forall|p: int| 0 <= p < 5 implies #[trigger] sw[p] == xy[p].xor_of(zw[p]) by {
        assert(is_sum(x[p], y[p], z[p], s[p]));
        assert(rectangular(x[p], words));
        assert(x[p].len() == 16);
        assert(x[p][k]@.len() == words);
        assert(s[p][k]@ == xor_seq(xor_seq(x[p][k]@, y[p][k]@), z[p][k]@));
    }
    lemma_xor_word(xy, zw, sw, i);
}

/// One plane of the carry of a group.
proof fn lemma_carry_plane(
    x: Planes5,
    y: Planes5,
    z: Planes5,
    lhs: Planes5,
    rhs: Planes5,
    products: Planes5,
    c: Planes5,
    n: nat,
    base: int,
    words: nat,
    w: int,
    i: nat,
    k: int,
)
    requires
        0 <= k < 16,
        0 <= w < words,
        i < 64,
        0 <= base,
        base + 15 <= n,
        planes_fit(x, 16, w),
        planes_fit(y, 16, w),
        planes_fit(z, 16, w),
        forall|p: int| 0 <= p < 5 ==> rectangular(#[trigger] x[p], words),
        forall|p: int| 0 <= p < 5 ==> rectangular(#[trigger] y[p], words),
        forall|p: int| 0 <= p < 5 ==> rectangular(#[trigger] products[p], words),
        products_right(lhs, rhs, products, n, w),
        forall|p: int, m: int|
            0 <= p < 5 && 0 <= m < 15 ==> (#[trigger] lhs[p][base + m])@ == xor_seq(
                x[p][m]@,
                z[p][m]@,
            ),
        forall|p: int, m: int|
            0 <= p < 5 && 0 <= m < 15 ==> (#[trigger] rhs[p][base + m])@ == xor_seq(
                y[p][m]@,
                z[p][m]@,
            ),
        c.len() == 5,
        forall|p: int| 0 <= p < 5 ==> is_carry(z[p], products[p], base, words, #[trigger] c[p]),
    ensures
        consistent5(plane_word(c, k, w)),
        plane_lane(c, k, w, i) == (k > 0 && majority(
            plane_lane(x, k - 1, w, i),
            plane_lane(y, k - 1, w, i),
            plane_lane(z, k - 1, w, i),
        )),
{
    broadcast use group_bits;

    let cw = plane_word(c, k, w);
    if k == 0 {
        assert forall|p: int| 0 <= p < 5 implies #[trigger] cw[p] == Share5::<u64>::zero_spec() by {
            assert(is_carry(z[p], products[p], base, words, c[p]));
            assert(c[p][0]@[w] == Share5::<u64>::nil_of());
        }
        lemma_nil_word(cw, i);
    } else {
        let m = k - 1;
        let (xw, yw, zw) = (plane_word(x, m, w), plane_word(y, m, w), plane_word(z, m, w));
        let (lw, rw, pw) = (
            plane_word(lhs, base + m, w),
            plane_word(rhs, base + m, w),
            plane_word(products, base + m, w),
        );
        assert forall|p: int| 0 <= p < 5 implies #[trigger] lw[p] == xw[p].xor_of(zw[p]) by {
            assert(lhs[p][base + m]@ == xor_seq(x[p][m]@, z[p][m]@));
            assert(rectangular(x[p], words) && x[p].len() == 16);
            assert(x[p][m]@.len() == words);
        }
        assert forall|p: int| 0 <= p < 5 implies #[trigger] rw[p] == yw[p].xor_of(zw[p]) by {
            assert(rhs[p][base + m]@ == xor_seq(y[p][m]@, z[p][m]@));
            assert(rectangular(y[p], words) && y[p].len() == 16);
            assert(y[p][m]@.len() == words);
        }
        lemma_xor_word(xw, zw, lw, i);
        lemma_xor_word(yw, zw, rw, i);
        assert(value5(pw) == value5(lw).band(value5(rw)));
        assert forall|p: int| 0 <= p < 5 implies #[trigger] cw[p] == pw[p].xor_of(zw[p]) by {
            assert(is_carry(z[p], products[p], base, words, c[p]));
            assert(c[p][k]@ == xor_seq(products[p][base + k - 1]@, z[p][k - 1]@));
            assert(rectangular(products[p], words) && products[p].len() == n);
            assert(products[p][base + m]@.len() == words);
        }
        lemma_xor_word(pw, zw, cw, i);
    }
}

/// One value after a layer.
proof fn lemma_layer_value(
    values: Seq<Seq<Vec<Vec<Share5<u64>>>>>,
    n: nat,
    lhs: Planes5,
    rhs: Planes5,
    products: Planes5,
    next: Seq<Seq<Vec<Vec<Share5<u64>>>>>,
    words: nat,
    w: int,
    i: nat,
    j: int,
)
    requires
        0 <= w < words,
        i < 64,
        n >= 3,
        values_fit(values, n, w),
        forall|p: int| 0 <= p < 5 ==> shaped(#[trigger] values[p], words),
        forall|p: int| 0 <= p < 5 ==> fa_operands(#[trigger] values[p], n / 3, lhs[p], rhs[p]),
        forall|p: int| 0 <= p < 5 ==> rectangular(#[trigger] products[p], words),
        products_right(lhs, rhs, products, 15 * (n / 3), w),
        next.len() == 5,
        forall|p: int|
            0 <= p < 5 ==> fa_values(values[p], n / 3, products[p], words, #[trigger] next[p]),
        0 <= j < n - n / 3,
    ensures
        planes_fit(value_planes(next, j), 16, w),
        lane_of(value_planes(next, j), 16, w, i) == ({
            let lanes = lanes_of(values, n, w, i);
            let groups = n / 3;
            if j >= 2 * groups {
                lanes[j + groups]
            } else if j % 2 == 0 {
                xor3_bits(lanes[3 * (j / 2)], lanes[3 * (j / 2) + 1], lanes[3 * (j / 2) + 2])
            } else {
                doubled(
                    majority_bits(
                        lanes[3 * (j / 2)],
                        lanes[3 * (j / 2) + 1],
                        lanes[3 * (j / 2) + 2],
                    ),
                )
            }
        }),
{
    let groups = n / 3;
    let lanes = lanes_of(values, n, w, i);
    let out = value_planes(next, j);
    let made = lane_of(out, 16, w, i);
    assert forall|p: int| 0 <= p < 5 implies fa_value(
        values[p],
        groups,
        products[p],
        words,
        j,
        #[trigger] next[p][j],
    ) by {
        assert(fa_values(values[p], groups, products[p], words, next[p]));
    }
    if j >= 2 * groups {
        let src = value_planes(values, j + groups);
        assert forall|p: int| 0 <= p < 5 implies #[trigger] out[p] == src[p] by {
            assert(fa_value(values[p], groups, products[p], words, j, next[p][j]));
        }
        assert(out =~= src);
        assert(planes_fit(src, 16, w));
    } else {
        let g = j / 2;
        let (x, y, z) = (
            value_planes(values, 3 * g),
            value_planes(values, 3 * g + 1),
            value_planes(values, 3 * g + 2),
        );
        assert(planes_fit(x, 16, w) && planes_fit(y, 16, w) && planes_fit(z, 16, w));
        assert forall|p: int| 0 <= p < 5 implies rectangular(#[trigger] x[p], words) by {
            assert(shaped(values[p], words));
            assert(values[p][3 * g]@.len() == 16);
        }
        assert forall|p: int| 0 <= p < 5 implies rectangular(#[trigger] y[p], words) by {
            assert(shaped(values[p], words));
            assert(values[p][3 * g + 1]@.len() == 16);
        }
        if j % 2 == 0 {
            assert forall|p: int| 0 <= p < 5 implies is_sum(x[p], y[p], z[p], #[trigger] out[p]) by {
                assert(fa_value(values[p], groups, products[p], words, j, next[p][j]));
            }
            assert forall|k: int| 0 <= k < 16 implies consistent5(#[trigger] plane_word(out, k, w))
                && made[k] == xor3_bits(lanes[3 * g], lanes[3 * g + 1], lanes[3 * g + 2])[k] by {
                lemma_sum_plane(x, y, z, out, words, w, i, k);
            }
            assert forall|p: int| 0 <= p < 5 implies (#[trigger] out[p]).len() == 16 by {
                assert(is_sum(x[p], y[p], z[p], out[p]));
            }
            assert(made =~= xor3_bits(lanes[3 * g], lanes[3 * g + 1], lanes[3 * g + 2]));
        } else {
            let base = 15 * g;
            assert forall|p: int| 0 <= p < 5 implies is_carry(
                z[p],
                products[p],
                base,
                words,
                #[trigger] out[p],
            ) by {
                assert(fa_value(values[p], groups, products[p], words, j, next[p][j]));
            }
            assert forall|p: int, m: int| 0 <= p < 5 && 0 <= m < 15 implies (#[trigger] lhs[p][base
                + m])@ == xor_seq(x[p][m]@, z[p][m]@) by {
                assert(fa_operands(values[p], groups, lhs[p], rhs[p]));
                assert((base + m) / 15 == g && (base + m) % 15 == m);
            }
            assert forall|p: int, m: int| 0 <= p < 5 && 0 <= m < 15 implies (#[trigger] rhs[p][base
                + m])@ == xor_seq(y[p][m]@, z[p][m]@) by {
                assert(fa_operands(values[p], groups, lhs[p], rhs[p]));
                assert((base + m) / 15 == g && (base + m) % 15 == m);
            }
            let maj = majority_bits(lanes[3 * g], lanes[3 * g + 1], lanes[3 * g + 2]);
            assert forall|k: int| 0 <= k < 16 implies consistent5(#[trigger] plane_word(out, k, w))
                && made[k] == doubled(maj)[k] by {
                lemma_carry_plane(
                    x,
                    y,
                    z,
                    lhs,
                    rhs,
                    products,
                    out,
                    15 * groups,
                    base,
                    words,
                    w,
                    i,
                    k,
                );
            }
            assert forall|p: int| 0 <= p < 5 implies (#[trigger] out[p]).len() == 16 by {
                assert(is_carry(z[p], products[p], base, words, out[p]));
            }
            assert(made =~= doubled(maj));
        }
    }
}

/// A layer of full adders does what it should in every lane.
pub proof fn lemma_layer_lanes(
    values: Seq<Seq<Vec<Vec<Share5<u64>>>>>,
    n: nat,
    lhs: Planes5,
    rhs: Planes5,
    products: Planes5,
    next: Seq<Seq<Vec<Vec<Share5<u64>>>>>,
    words: nat,
    w: int,
    i: nat,
)
    requires
        0 <= w < words,
        i < 64,
        n >= 3,
        values_fit(values, n, w),
        forall|p: int| 0 <= p < 5 ==> shaped(#[trigger] values[p], words),
        forall|p: int| 0 <= p < 5 ==> fa_operands(#[trigger] values[p], n / 3, lhs[p], rhs[p]),
        forall|p: int| 0 <= p < 5 ==> rectangular(#[trigger] products[p], words),
        products_right(lhs, rhs, products, 15 * (n / 3), w),
        next.len() == 5,
        forall|p: int|
            0 <= p < 5 ==> fa_values(values[p], n / 3, products[p], words, #[trigger] next[p]),
    ensures
        values_fit(next, (n - n / 3) as nat, w),
        layer_lanes(
            lanes_of(values, n, w, i),
            n / 3,
            lanes_of(next, (n - n / 3) as nat, w, i),
        ),
        (total(lanes_of(values, n, w, i), n) - total(
            lanes_of(next, (n - n / 3) as nat, w, i),
            (n - n / 3) as nat,
        )) % 0x1_0000 == 0,
{
    let m = (n - n / 3) as nat;
    let (lanes, after) = (lanes_of(values, n, w, i), lanes_of(next, m, w, i));
    assert forall|p: int| 0 <= p < 5 implies (#[trigger] next[p]).len() == m by {
        assert(fa_values(values[p], n / 3, products[p], words, next[p]));
        assert(values[p].len() == n);
    }
    assert forall|j: int| 0 <= j < m implies planes_fit(#[trigger] value_planes(next, j), 16, w) by {
        lemma_layer_value(values, n, lhs, rhs, products, next, words, w, i, j);
    }
    assert forall|j: int| 0 <= j < m implies #[trigger] after[j] == (if j >= 2 * (n / 3) {
        lanes[j + n / 3]
    } else if j % 2 == 0 {
        xor3_bits(lanes[3 * (j / 2)], lanes[3 * (j / 2) + 1], lanes[3 * (j / 2) + 2])
    } else {
        doubled(majority_bits(lanes[3 * (j / 2)], lanes[3 * (j / 2) + 1], lanes[3 * (j / 2) + 2]))
    }) by {
        lemma_layer_value(values, n, lhs, rhs, products, next, words, w, i, j);
    }
    let q = lemma_layer_keeps_sum(lanes, n / 3, after);
    lemma_mod_multiples_basic(q, 0x1_0000);
}

/// The values that the five parties still have to reduce.
pub open spec fn all_values(ms: Seq<MsbExtraction<Share5<u64>>>) -> Seq<
    Seq<Vec<Vec<Share5<u64>>>>,
> {
    Seq::new(5, |p: int| ms[p].values@)
}

/// The first summands of the carry chains.
pub open spec fn all_u(ms: Seq<MsbExtraction<Share5<u64>>>) -> Planes5 {
    Seq::new(5, |p: int| ms[p].chain->0.u@)
}

/// The second summands of the carry chains.
pub open spec fn all_v(ms: Seq<MsbExtraction<Share5<u64>>>) -> Planes5 {
    Seq::new(5, |p: int| ms[p].chain->0.v@)
}

/// Word `w` of the carries.
pub open spec fn all_carry(ms: Seq<MsbExtraction<Share5<u64>>>, w: int) -> Seq<Share5<u64>> {
    Seq::new(5, |p: int| ms[p].chain->0.carry@[w])
}

/// The five parties are at the same round, all with `words` words.
pub open spec fn abreast(ms: Seq<MsbExtraction<Share5<u64>>>, words: nat) -> bool {
    &&& ms.len() == 5
    &&& forall|p: int|
        0 <= p < 5 ==> {
            &&& (#[trigger] ms[p]).wf()
            &&& ms[p].words == words
            &&& ms[p].chain is Some == ms[0].chain is Some
            &&& ms[p].chain is Some ==> ms[p].chain->0.at == ms[0].chain->0.at
        }
}

/// The five parties are on the way to the top bit of `target` in lane `i` of word `w`: what they
/// still have to add adds up to it modulo `2^16`.
pub open spec fn on_track(
    ms: Seq<MsbExtraction<Share5<u64>>>,
    words: nat,
    w: int,
    i: nat,
    target: int,
) -> bool {
    &&& abreast(ms, words)
    &&& if ms[0].chain is None {
        let n = ms[0].values@.len();
        &&& values_fit(all_values(ms), n, w)
        &&& total(lanes_of(all_values(ms), n, w, i), n) % 0x1_0000 == target
    } else {
        let (u, v) = (lane_of(all_u(ms), 16, w, i), lane_of(all_v(ms), 16, w, i));
        &&& planes_fit(all_u(ms), 16, w)
        &&& planes_fit(all_v(ms), 16, w)
        &&& consistent5(all_carry(ms, w))
        &&& !v[0]
        &&& (lnum(u, 16) + lnum(v, 16)) % 0x1_0000 == target
        &&& bit(value5(all_carry(ms, w)), i) == carry_into(u, v, 1, ms[0].chain->0.at as nat)
    }
}

/// A round keeps the parties on track if its products are right.
pub proof fn lemma_track_step(
    ms: Seq<MsbExtraction<Share5<u64>>>,
    lhs: Planes5,
    rhs: Planes5,
    products: Planes5,
    after: Seq<MsbExtraction<Share5<u64>>>,
    words: nat,
    w: int,
    i: nat,
    target: int,
)
    requires
        0 <= w < words,
        i < 64,
        on_track(ms, words, w, i, target),
        !ms[0].done(),
        forall|p: int| 0 <= p < 5 ==> (#[trigger] ms[p]).asks(lhs[p], rhs[p]),
        forall|p: int| 0 <= p < 5 ==> rectangular(#[trigger] products[p], words),
        products_right(lhs, rhs, products, ms[0].round_planes(), w),
        after.len() == 5,
        forall|p: int|
            0 <= p < 5 ==> (#[trigger] after[p]).wf() && after[p].words == words && ms[p].advances(
                products[p],
                after[p],
            ),
    ensures
        on_track(after, words, w, i, target),
{
    if ms[0].chain is None {
        lemma_track_layer(ms, lhs, rhs, products, after, words, w, i, target);
    } else {
        lemma_track_chain(ms, lhs, rhs, products, after, words, w, i, target);
    }
}

proof fn lemma_track_layer(
    ms: Seq<MsbExtraction<Share5<u64>>>,
    lhs: Planes5,
    rhs: Planes5,
    products: Planes5,
    after: Seq<MsbExtraction<Share5<u64>>>,
    words: nat,
    w: int,
    i: nat,
    target: int,
)
    requires
        0 <= w < words,
        i < 64,
        on_track(ms, words, w, i, target),
        ms[0].chain is None,
        forall|p: int| 0 <= p < 5 ==> (#[trigger] ms[p]).asks(lhs[p], rhs[p]),
        forall|p: int| 0 <= p < 5 ==> rectangular(#[trigger] products[p], words),
        products_right(lhs, rhs, products, ms[0].round_planes(), w),
        after.len() == 5,
        forall|p: int|
            0 <= p < 5 ==> (#[trigger] after[p]).wf() && after[p].words == words && ms[p].advances(
                products[p],
                after[p],
            ),
    ensures
        on_track(after, words, w, i, target),
{
    let values = all_values(ms);
    let n = ms[0].values@.len();
    let m = (n - n / 3) as nat;
    let last = m == 2;
    let next = Seq::new(
        5,
        |p: int|
            if last {
                seq![after[p].chain->0.u, after[p].chain->0.v]
            } else {
                after[p].values@
            },
    );
    assert forall|p: int| 0 <= p < 5 implies (#[trigger] values[p]).len() == n && shaped(
        values[p],
        words,
    ) && fa_operands(values[p], n / 3, lhs[p], rhs[p]) by {
        assert(ms[p].wf() && ms[p].asks(lhs[p], rhs[p]));
    }
    assert forall|p: int| 0 <= p < 5 implies fa_values(
        values[p],
        n / 3,
        products[p],
        words,
        #[trigger] next[p],
    ) by {
        assert(values[p].len() == n);
        assert(after[p].wf() && ms[p].advances(products[p], after[p]));
    }
    lemma_layer_lanes(values, n, lhs, rhs, products, next, words, w, i);
    let (before, lanes) = (lanes_of(values, n, w, i), lanes_of(next, m, w, i));
    lemma_same_residue(total(before, n), total(lanes, m));
    assert forall|p: int| 0 <= p < 5 implies {
        &&& (#[trigger] after[p]).wf()
        &&& after[p].words == words
        &&& after[p].chain is Some == last
        &&& last ==> after[p].chain->0.at == 1
    } by {
        assert(values[p].len() == n);
        assert(ms[p].advances(products[p], after[p]));
    }
    assert(after[0].chain is Some == last);
    if last {
        let (u, v) = (all_u(after), all_v(after));
        assert(value_planes(next, 0) =~= u);
        assert(value_planes(next, 1) =~= v);
        reveal_with_fuel(total, 3);
        assert(total(lanes, 2) == lnum(lanes[0], 16) + lnum(lanes[1], 16));
        assert(n == 3 && lanes[1] == doubled(majority_bits(before[0], before[1], before[2])));
        let cw = all_carry(after, w);
        assert forall|p: int| 0 <= p < 5 implies #[trigger] cw[p] == Share5::<u64>::zero_spec() by {
            assert(values[p].len() == n);
            assert(ms[p].advances(products[p], after[p]));
            assert(after[p].chain->0.carry@[w] == Share5::<u64>::nil_of());
        }
        lemma_nil_word(cw, i);
        assert(planes_fit(value_planes(next, 0), 16, w) && planes_fit(
            value_planes(next, 1),
            16,
            w,
        ));
    } else {
        assert(all_values(after) =~= next);
        assert(after[0].values@.len() == m) by {
            assert(next[0].len() == m);
        }
    }
}

proof fn lemma_same_residue(a: int, b: int)
    requires
        (a - b) % 0x1_0000 == 0,
    ensures
        a % 0x1_0000 == b % 0x1_0000,
{
}

proof fn lemma_track_chain(
    ms: Seq<MsbExtraction<Share5<u64>>>,
    lhs: Planes5,
    rhs: Planes5,
    products: Planes5,
    after: Seq<MsbExtraction<Share5<u64>>>,
    words: nat,
    w: int,
    i: nat,
    target: int,
)
    requires
        0 <= w < words,
        i < 64,
        on_track(ms, words, w, i, target),
        ms[0].chain is Some,
        !ms[0].done(),
        forall|p: int| 0 <= p < 5 ==> (#[trigger] ms[p]).asks(lhs[p], rhs[p]),
        forall|p: int| 0 <= p < 5 ==> rectangular(#[trigger] products[p], words),
        products_right(lhs, rhs, products, 1, w),
        after.len() == 5,
        forall|p: int|
            0 <= p < 5 ==> (#[trigger] after[p]).wf() && after[p].words == words && ms[p].advances(
                products[p],
                after[p],
            ),
    ensures
        on_track(after, words, w, i, target),
{
    broadcast use group_bits;

    let at = ms[0].chain->0.at as int;
    let (u, v) = (all_u(ms), all_v(ms));
    let (uw, vw, cw) = (plane_word(u, at, w), plane_word(v, at, w), all_carry(ms, w));
    let (lw, rw, pw) = (
        plane_word(lhs, 0, w),
        plane_word(rhs, 0, w),
        plane_word(products, 0, w),
    );
    let nw = all_carry(after, w);
    assert forall|p: int| 0 <= p < 5 implies {
        &&& #[trigger] lw[p] == uw[p].xor_of(cw[p])
        &&& rw[p] == vw[p].xor_of(cw[p])
        &&& nw[p] == cw[p].xor_of(pw[p])
        &&& after[p].chain is Some
        &&& after[p].chain->0.at == at + 1
        &&& after[p].chain->0.u == ms[p].chain->0.u
        &&& after[p].chain->0.v == ms[p].chain->0.v
    } by {
        assert(ms[p].wf() && ms[p].asks(lhs[p], rhs[p]));
        assert(after[p].wf() && ms[p].advances(products[p], after[p]));
        let chain = ms[p].chain->0;
        assert(chain.at == at);
        assert(chain.u@[at]@.len() == words && chain.v@[at]@.len() == words);
        assert(rectangular(products[p], words) && products[p].len() == 1);
        assert(products[p][0]@.len() == words);
    }
    assert forall|p: int| 0 <= p < 5 implies #[trigger] rw[p] == vw[p].xor_of(cw[p]) by {
        assert(lw[p] == uw[p].xor_of(cw[p]));
    }
    assert forall|p: int| 0 <= p < 5 implies #[trigger] nw[p] == cw[p].xor_of(pw[p]) by {
        assert(lw[p] == uw[p].xor_of(cw[p]));
    }
    lemma_xor_word(uw, cw, lw, i);
    lemma_xor_word(vw, cw, rw, i);
    assert(value5(pw) == value5(lw).band(value5(rw)));
    assert(consistent5(pw));
    lemma_xor_word(cw, pw, nw, i);
    assert forall|p: int| 0 <= p < 5 implies {
        &&& (#[trigger] after[p]).wf()
        &&& after[p].words == words
        &&& after[p].chain is Some
        &&& after[p].chain->0.at == at + 1
    } by {
        assert(lw[p] == uw[p].xor_of(cw[p]));
    }
    assert(all_u(after) =~= u) by {
        assert forall|p: int| 0 <= p < 5 implies all_u(after)[p] == u[p] by {
            assert(lw[p] == uw[p].xor_of(cw[p]));
        }
    }
    assert(all_v(after) =~= v) by {
        assert forall|p: int| 0 <= p < 5 implies all_v(after)[p] == v[p] by {
            assert(lw[p] == uw[p].xor_of(cw[p]));
        }
    }
}

/// Once all rounds are over, the parties share the top bit of the sum.
pub proof fn lemma_track_result(
    ms: Seq<MsbExtraction<Share5<u64>>>,
    r: Seq<Share5<u64>>,
    words: nat,
    w: int,
    i: nat,
    target: int,
)
    requires
        0 <= w < words,
        i < 64,
        on_track(ms, words, w, i, target),
        ms[0].done(),
        r.len() == 5,
        forall|p: int|
            0 <= p < 5 ==> (#[trigger] r[p]) == xor_seq(
                xor_seq(ms[p].chain->0.u@[15]@, ms[p].chain->0.v@[15]@),
                ms[p].chain->0.carry@,
            )[w],
    ensures
        consistent5(r),
        bit(value5(r), i) == bit_of(target, 15),
{
    let (us, vs) = (all_u(ms), all_v(ms));
    let (u, v) = (lane_of(us, 16, w, i), lane_of(vs, 16, w, i));
    let (uw, vw, cw) = (plane_word(us, 15, w), plane_word(vs, 15, w), all_carry(ms, w));
    let uv = Seq::new(5, |p: int| uw[p].xor_of(vw[p]));
    assert forall|p: int| 0 <= p < 5 implies #[trigger] r[p] == uv[p].xor_of(cw[p]) by {
        assert(ms[p].wf() && ms[p].words == words);
        let chain = ms[p].chain->0;
        assert(chain.u@[15]@.len() == words && chain.v@[15]@.len() == words);
    }
    lemma_xor_word(uw, vw, uv, i);
    lemma_xor_word(uv, cw, r, i);
    lemma_carry_from_one(u, v, 15);
    let s = sum_bits(u, v, 16);
    assert(bit(value5(r), i) == s[15]);
    lemma_ripple_adds(u, v, 16);
    lemma_lnum_bound(s, 16);
    lemma_bits_of_lnum(s, 16, 15);
    lemma2_to64();
    let top = bit_int(carry_into(u, v, 0, 16));
    assert(lnum(u, 16) + lnum(v, 16) == lnum(s, 16) + top * 0x1_0000);
    assert(target == lnum(s, 16));
}

/// The planes of value `j` share the bit planes of the addends.
pub open spec fn shares_planes(x: Planes5, vals: Seq<u16>, words: Seq<u64>) -> bool {
    let width = words_for(vals.len()) as int;
    &&& holds_planes(words, vals)
    &&& forall|k: int, w: int|
        0 <= k < 16 && 0 <= w < width ==> value5(#[trigger] plane_word(x, k, w)) == words[k * width
            + w]
}

/// In the lane of an entry, the planes of a shared addend hold the bits of the addend.
pub proof fn lemma_addend_lane(x: Planes5, vals: Seq<u16>, words: Seq<u64>, e: int)
    requires
        shares_planes(x, vals, words),
        0 <= e < vals.len(),
    ensures
        lnum(lane_of(x, 16, e / 64, (e % 64) as nat), 16) == vals[e],
{
    let width = words_for(vals.len()) as int;
    let (w, i) = (e / 64, (e % 64) as nat);
    assert(0 <= w < width);
    let bits = Seq::new(16, |k: int| bit_of(vals[e] as int, k as nat));
    let lane = lane_of(x, 16, w, i);
    assert forall|k: int| 0 <= k < 16 implies lane[k] == bits[k] by {
        let m = k * width + w;
        assert(0 <= m < 16 * width) by (nonlinear_arith)
            requires
                m == k * width + w,
                0 <= k < 16,
                0 <= w < width,
        ;
        lemma_fundamental_div_mod_converse(m, width, k, w);
        assert(value5(plane_word(x, k, w)) == words[m]);
        assert(bit(words[m], i) == padded(bits_of_place(vals, k as nat), 64 * w + i));
    }
    assert(lane =~= bits);
    lemma2_to64();
    lemma_lnum_of_bits(vals[e] as int, 16);
}

/// Three shared addends put the parties on the way to the sign of their sum: the top bit of the sum
/// tells whether the signed value is below zero.
pub proof fn lemma_addends_on_track(
    ms: Seq<MsbExtraction<Share5<u64>>>,
    addends: Seq<Seq<u16>>,
    words: Seq<Seq<u64>>,
    e: int,
)
    requires
        addends.len() == 3,
        words.len() == 3,
        forall|j: int| 0 <= j < 3 ==> 0 <= e < (#[trigger] addends[j]).len() == addends[0].len(),
        abreast(ms, words_for(addends[0].len())),
        ms[0].chain is None,
        ms[0].values@.len() == 3,
        values_fit(all_values(ms), 3, e / 64),
        forall|j: int|
            0 <= j < 3 ==> shares_planes(
                #[trigger] value_planes(all_values(ms), j),
                addends[j],
                words[j],
            ),
    ensures
        ({
            let sum = u16::of_int(
                addends[0][e].val() + addends[1][e].val() + addends[2][e].val(),
            );
            &&& on_track(
                ms,
                words_for(addends[0].len()),
                e / 64,
                (e % 64) as nat,
                sum as int,
            )
            &&& bit_of(sum as int, 15) == (signed16(sum as int) < 0)
        }),
{
    let values = all_values(ms);
    let (w, i) = (e / 64, (e % 64) as nat);
    let lanes = lanes_of(values, 3, w, i);
    assert forall|j: int| 0 <= j < 3 implies lnum(#[trigger] lanes[j], 16) == addends[j][e] by {
        assert(addends[j].len() == addends[0].len());
        lemma_addend_lane(value_planes(values, j), addends[j], words[j], e);
    }
    reveal_with_fuel(total, 4);
    let (a, b, c) = (addends[0][e], addends[1][e], addends[2][e]);
    assert(total(lanes, 3) == lnum(lanes[0], 16) + lnum(lanes[1], 16) + lnum(lanes[2], 16));
    u16::law_of_int(a + b + c);
    lemma_msb_is_sign(u16::of_int(a + b + c));
}

} // verus!
