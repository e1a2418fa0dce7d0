//! The adders compute the right bits when three parties run them side by side.
//!
//! A lane is one bit of one word: the bits of one element of a batch lie in the same lane of all
//! planes. The laws follow the shared value of a lane through a round. They take the result of
//! a round as correct, which is the law of the bitwise and.

use crate::adders::{csa_operands, csa_result, majority, majority_bits, xor3_bits};
use crate::planes::xor_seq;
use crate::prefix_adder::{combined_runs, next_g, next_p, PrefixAdder};
use crate::ring::IntRing2k;
use crate::ring_lemmas::{bit, group_bits};
use crate::shares::{consistent, lemma_xor_value, xor_value, Share, XorShare};
use vstd::prelude::*;

verus! {

/// The planes of three parties.
pub type Planes3<T> = (Seq<Vec<Share<T>>>, Seq<Vec<Share<T>>>, Seq<Vec<Share<T>>>);

/// The shared bit of lane `i` of a word.
pub open spec fn lane_bit<T: IntRing2k>(a: Share<T>, b: Share<T>, c: Share<T>, i: nat) -> bool {
    bit(xor_value(a, b, c), i)
}

/// Plane `j` of every party has word `w`, and its shares fit together.
pub open spec fn fits<T: IntRing2k>(x: Planes3<T>, j: int, w: int) -> bool {
    &&& 0 <= w < x.0[j]@.len()
    &&& x.1[j]@.len() == x.0[j]@.len()
    &&& x.2[j]@.len() == x.0[j]@.len()
    &&& consistent(x.0[j]@[w], x.1[j]@[w], x.2[j]@[w])
}

/// The shared bit of plane `j` in lane `i` of word `w`.
pub open spec fn plane_bit<T: IntRing2k>(x: Planes3<T>, j: int, w: int, i: nat) -> bool {
    lane_bit(x.0[j]@[w], x.1[j]@[w], x.2[j]@[w], i)
}

/// The shared bits of all planes in one lane.
pub open spec fn lane_bits<T: IntRing2k>(x: Planes3<T>, w: int, i: nat) -> Seq<bool> {
    Seq::new(x.0.len(), |j: int| plane_bit(x, j, w, i))
}

/// The planes of the three parties have `n` planes each, and word `w` of every one fits.
pub open spec fn fit_at<T: IntRing2k>(x: Planes3<T>, n: nat, w: int) -> bool {
    &&& x.0.len() == n && x.1.len() == n && x.2.len() == n
    &&& forall|j: int| 0 <= j < n ==> #[trigger] fits(x, j, w)
}

/// The exclusive or of shares that fit together fits together, and its bit is the exclusive or.
pub proof fn lemma_xor_lane<T: IntRing2k>(
    x: (Share<T>, Share<T>, Share<T>),
    y: (Share<T>, Share<T>, Share<T>),
    i: nat,
)
    requires
        consistent(x.0, x.1, x.2),
        consistent(y.0, y.1, y.2),
        i < T::bits(),
    ensures
        consistent(x.0.xor_of(y.0), x.1.xor_of(y.1), x.2.xor_of(y.2)),
        lane_bit(x.0.xor_of(y.0), x.1.xor_of(y.1), x.2.xor_of(y.2), i) == (lane_bit(
            x.0,
            x.1,
            x.2,
            i,
        ) != lane_bit(y.0, y.1, y.2, i)),
{
    broadcast use group_bits;

    lemma_xor_value(x, y);
}

/// The results of a round are right in a lane: they fit together, and each is the conjunction of
/// the operands.
pub open spec fn round_correct<T: IntRing2k>(
    lhs: Planes3<T>,
    rhs: Planes3<T>,
    products: Planes3<T>,
    n: nat,
    w: int,
    i: nat,
) -> bool {
    &&& fit_at(products, n, w)
    &&& forall|j: int|
        0 <= j < n ==> #[trigger] plane_bit(products, j, w, i) == (plane_bit(lhs, j, w, i)
            && plane_bit(rhs, j, w, i))
}

/// A carry-save adder computes the bitwise sum and the bitwise majority of the three numbers in
/// every lane.
pub proof fn lemma_csa_lane<T: IntRing2k>(
    x: Planes3<T>,
    y: Planes3<T>,
    z: Planes3<T>,
    lhs: Planes3<T>,
    rhs: Planes3<T>,
    products: Planes3<T>,
    s: Planes3<T>,
    c: Planes3<T>,
    n: nat,
    w: int,
    i: nat,
)
    requires
        i < T::bits(),
        fit_at(x, n, w),
        fit_at(y, n, w),
        fit_at(z, n, w),
        csa_operands(x.0, y.0, z.0, lhs.0, rhs.0),
        csa_operands(x.1, y.1, z.1, lhs.1, rhs.1),
        csa_operands(x.2, y.2, z.2, lhs.2, rhs.2),
        round_correct(lhs, rhs, products, n, w, i),
        csa_result(x.0, y.0, z.0, products.0, s.0, c.0),
        csa_result(x.1, y.1, z.1, products.1, s.1, c.1),
        csa_result(x.2, y.2, z.2, products.2, s.2, c.2),
    ensures
        fit_at(s, n, w),
        fit_at(c, n, w),
        lane_bits(s, w, i) == xor3_bits(lane_bits(x, w, i), lane_bits(y, w, i), lane_bits(z, w, i)),
        lane_bits(c, w, i) == majority_bits(
            lane_bits(x, w, i),
            lane_bits(y, w, i),
            lane_bits(z, w, i),
        ),
{
    assert forall|j: int| 0 <= j < n implies #[trigger] fits(s, j, w) by {
        lemma_csa_place(x, y, z, lhs, rhs, products, s, c, n, w, i, j);
    }
    assert forall|j: int| 0 <= j < n implies #[trigger] fits(c, j, w) by {
        lemma_csa_place(x, y, z, lhs, rhs, products, s, c, n, w, i, j);
    }
    let (xs, ys, zs) = (lane_bits(x, w, i), lane_bits(y, w, i), lane_bits(z, w, i));
    assert forall|j: int| 0 <= j < n implies lane_bits(s, w, i)[j] == xor3_bits(xs, ys, zs)[j]
        && lane_bits(c, w, i)[j] == majority_bits(xs, ys, zs)[j] by {
        lemma_csa_place(x, y, z, lhs, rhs, products, s, c, n, w, i, j);
    }
    assert(lane_bits(s, w, i) =~= xor3_bits(xs, ys, zs));
    assert(lane_bits(c, w, i) =~= majority_bits(xs, ys, zs));
}

proof fn lemma_csa_place<T: IntRing2k>(
    x: Planes3<T>,
    y: Planes3<T>,
    z: Planes3<T>,
    lhs: Planes3<T>,
    rhs: Planes3<T>,
    products: Planes3<T>,
    s: Planes3<T>,
    c: Planes3<T>,
    n: nat,
    w: int,
    i: nat,
    j: int,
)
    requires
        i < T::bits(),
        0 <= j < n,
        fit_at(x, n, w),
        fit_at(y, n, w),
        fit_at(z, n, w),
        csa_operands(x.0, y.0, z.0, lhs.0, rhs.0),
        csa_operands(x.1, y.1, z.1, lhs.1, rhs.1),
        csa_operands(x.2, y.2, z.2, lhs.2, rhs.2),
        round_correct(lhs, rhs, products, n, w, i),
        csa_result(x.0, y.0, z.0, products.0, s.0, c.0),
        csa_result(x.1, y.1, z.1, products.1, s.1, c.1),
        csa_result(x.2, y.2, z.2, products.2, s.2, c.2),
    ensures
        fits(s, j, w),
        fits(c, j, w),
        plane_bit(s, j, w, i) == ((plane_bit(x, j, w, i) != plane_bit(y, j, w, i)) != plane_bit(
            z,
            j,
            w,
            i,
        )),
        plane_bit(c, j, w, i) == majority(
            plane_bit(x, j, w, i),
            plane_bit(y, j, w, i),
            plane_bit(z, j, w, i),
        ),
{
    let xw = (x.0[j]@[w], x.1[j]@[w], x.2[j]@[w]);
    let yw = (y.0[j]@[w], y.1[j]@[w], y.2[j]@[w]);
    let zw = (z.0[j]@[w], z.1[j]@[w], z.2[j]@[w]);
    let pw = (products.0[j]@[w], products.1[j]@[w], products.2[j]@[w]);
    assert(fits(x, j, w) && fits(y, j, w) && fits(z, j, w) && fits(products, j, w));
    let xy = (xw.0.xor_of(yw.0), xw.1.xor_of(yw.1), xw.2.xor_of(yw.2));
    lemma_xor_lane(xw, yw, i);
    lemma_xor_lane(xy, zw, i);
    lemma_xor_lane(xw, zw, i);
    lemma_xor_lane(yw, zw, i);
    lemma_xor_lane(pw, zw, i);
    assert(s.0[j]@.len() == x.0[j]@.len() && s.1[j]@.len() == x.1[j]@.len() && s.2[j]@.len()
        == x.2[j]@.len());
    assert(c.0[j]@.len() == x.0[j]@.len() && c.1[j]@.len() == x.1[j]@.len() && c.2[j]@.len()
        == x.2[j]@.len());
    assert(lhs.0[j]@[w] == xw.0.xor_of(zw.0) && lhs.1[j]@[w] == xw.1.xor_of(zw.1) && lhs.2[j]@[w]
        == xw.2.xor_of(zw.2));
    assert(rhs.0[j]@[w] == yw.0.xor_of(zw.0) && rhs.1[j]@[w] == yw.1.xor_of(zw.1) && rhs.2[j]@[w]
        == yw.2.xor_of(zw.2));
    assert(plane_bit(products, j, w, i) == (plane_bit(lhs, j, w, i) && plane_bit(rhs, j, w, i)));
}

/// A round of a carry chain moves the carry one place up in every lane: if the carry into the
/// current place is right, so is the carry into the next one.
pub proof fn lemma_chain_lane<T: IntRing2k>(
    u: (Share<T>, Share<T>, Share<T>),
    v: (Share<T>, Share<T>, Share<T>),
    carry: (Share<T>, Share<T>, Share<T>),
    product: (Share<T>, Share<T>, Share<T>),
    i: nat,
)
    requires
        i < T::bits(),
        consistent(u.0, u.1, u.2),
        consistent(v.0, v.1, v.2),
        consistent(carry.0, carry.1, carry.2),
        consistent(product.0, product.1, product.2),
        lane_bit(product.0, product.1, product.2, i) == (lane_bit(
            u.0.xor_of(carry.0),
            u.1.xor_of(carry.1),
            u.2.xor_of(carry.2),
            i,
        ) && lane_bit(
            v.0.xor_of(carry.0),
            v.1.xor_of(carry.1),
            v.2.xor_of(carry.2),
            i,
        )),
    ensures
        consistent(
            carry.0.xor_of(product.0),
            carry.1.xor_of(product.1),
            carry.2.xor_of(product.2),
        ),
        lane_bit(
            carry.0.xor_of(product.0),
            carry.1.xor_of(product.1),
            carry.2.xor_of(product.2),
            i,
        ) == majority(
            lane_bit(u.0, u.1, u.2, i),
            lane_bit(v.0, v.1, v.2, i),
            lane_bit(carry.0, carry.1, carry.2, i),
        ),
{
    lemma_xor_lane(u, carry, i);
    lemma_xor_lane(v, carry, i);
    lemma_xor_lane(carry, product, i);
}

/// A round of the prefix adder combines the runs in every lane.
pub proof fn lemma_prefix_lane<T: IntRing2k>(
    before: (PrefixAdder<Share<T>>, PrefixAdder<Share<T>>, PrefixAdder<Share<T>>),
    products: Planes3<T>,
    after: (PrefixAdder<Share<T>>, PrefixAdder<Share<T>>, PrefixAdder<Share<T>>),
    runs: nat,
    w: int,
    i: nat,
)
    requires
        i < T::bits(),
        runs >= 2,
        fit_at((before.0.g@, before.1.g@, before.2.g@), runs, w),
        fit_at((before.0.p@, before.1.p@, before.2.p@), (runs - 1) as nat, w),
        combined_runs(before.0, products.0, after.0),
        combined_runs(before.1, products.1, after.1),
        combined_runs(before.2, products.2, after.2),
        fit_at(products, (2 * (runs / 2) - 1) as nat, w),
        forall|j: int|
            0 <= j < runs / 2 - 1 ==> #[trigger] plane_bit(products, j, w, i) == (plane_bit(
                (before.0.p@, before.1.p@, before.2.p@),
                2 * j + 1,
                w,
                i,
            ) && plane_bit((before.0.p@, before.1.p@, before.2.p@), 2 * j + 2, w, i)),
        forall|j: int|
            runs / 2 - 1 <= j < 2 * (runs / 2) - 1 ==> #[trigger] plane_bit(products, j, w, i) == (
            plane_bit(
                (before.0.g@, before.1.g@, before.2.g@),
                2 * (j - (runs / 2 - 1)),
                w,
                i,
            ) && plane_bit(
                (before.0.p@, before.1.p@, before.2.p@),
                2 * (j - (runs / 2 - 1)),
                w,
                i,
            )),
    ensures
        ({
            let g = (before.0.g@, before.1.g@, before.2.g@);
            let p = (before.0.p@, before.1.p@, before.2.p@);
            let g2 = (after.0.g@, after.1.g@, after.2.g@);
            let p2 = (after.0.p@, after.1.p@, after.2.p@);
            let left = runs / 2 + runs % 2;
            &&& fit_at(g2, left, w)
            &&& fit_at(p2, (left - 1) as nat, w)
            &&& lane_bits(g2, w, i) == next_g(lane_bits(g, w, i), lane_bits(p, w, i))
            &&& lane_bits(p2, w, i) == next_p(lane_bits(g, w, i), lane_bits(p, w, i))
        }),
{
    let g = (before.0.g@, before.1.g@, before.2.g@);
    let p = (before.0.p@, before.1.p@, before.2.p@);
    let g2 = (after.0.g@, after.1.g@, after.2.g@);
    let p2 = (after.0.p@, after.1.p@, after.2.p@);
    let half = runs as int / 2;
    let left = half + runs as int % 2;
    assert forall|j: int| 0 <= j < left implies #[trigger] fits(g2, j, w) && plane_bit(g2, j, w, i)
        == next_g(lane_bits(g, w, i), lane_bits(p, w, i))[j] by {
        if j < half {
            let k = half - 1 + j;
            assert(fits(products, k, w) && fits(g, 2 * j + 1, w) && fits(g, 2 * j, w));
            assert(fits(p, 2 * j, w));
            lemma_xor_lane(
                (products.0[k]@[w], products.1[k]@[w], products.2[k]@[w]),
                (g.0[2 * j + 1]@[w], g.1[2 * j + 1]@[w], g.2[2 * j + 1]@[w]),
                i,
            );
            assert(g2.0[j]@ == xor_seq(products.0[k]@, g.0[2 * j + 1]@));
            assert(g2.1[j]@ == xor_seq(products.1[k]@, g.1[2 * j + 1]@));
            assert(g2.2[j]@ == xor_seq(products.2[k]@, g.2[2 * j + 1]@));
            assert(plane_bit(products, k, w, i) == (plane_bit(g, 2 * j, w, i) && plane_bit(
                p,
                2 * j,
                w,
                i,
            )));
        } else {
            assert(fits(g, runs - 1, w));
        }
    }
    assert(lane_bits(g2, w, i) =~= next_g(lane_bits(g, w, i), lane_bits(p, w, i))) by {
        assert forall|j: int| 0 <= j < left implies lane_bits(g2, w, i)[j] == next_g(
            lane_bits(g, w, i),
            lane_bits(p, w, i),
        )[j] by {
            assert(fits(g2, j, w));
        }
    }
    assert forall|j: int| 0 <= j < left - 1 implies #[trigger] fits(p2, j, w) && plane_bit(
        p2,
        j,
        w,
        i,
    ) == next_p(lane_bits(g, w, i), lane_bits(p, w, i))[j] by {
        if j < half - 1 {
            assert(fits(products, j, w));
            assert(p2.0[j]@ == products.0[j]@);
            assert(p2.1[j]@ == products.1[j]@);
            assert(p2.2[j]@ == products.2[j]@);
            assert(plane_bit(products, j, w, i) == (plane_bit(p, 2 * j + 1, w, i) && plane_bit(
                p,
                2 * j + 2,
                w,
                i,
            )));
        } else {
            assert(fits(p, runs - 2, w));
        }
    }
    assert(lane_bits(p2, w, i) =~= next_p(lane_bits(g, w, i), lane_bits(p, w, i))) by {
        assert forall|j: int| 0 <= j < left - 1 implies lane_bits(p2, w, i)[j] == next_p(
            lane_bits(g, w, i),
            lane_bits(p, w, i),
        )[j] by {
            assert(fits(p2, j, w));
        }
    }
}

} // verus!
