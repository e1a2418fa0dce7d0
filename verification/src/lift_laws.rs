//! Lifting keeps the values when three parties run it side by side.
//!
//! The laws follow one lane, which holds the bits of one element of a batch: from the parts of the
//! 16-bit shares over the two carries of their sum to the 32-bit shares.

use crate::adder_laws::{
    fit_at, fits, lane_bit, lane_bits, lemma_chain_lane, lemma_xor_lane, plane_bit, Planes3,
};
use crate::adders::{
    carries_started, carry_into, chain_moves, doubled, majority_bits, xor3_bits, CarryChain,
    TwoCarriesAdder,
};
use crate::binary::{lemma_split_parts, split_parts};
use crate::bit_slice::{lane, sliced};
use crate::extract_msb::{bits_of, lemma_lift_correct, lifted, split_plane, split_planes};
use crate::msb_laws::{lemma_sliced_lanes, lemma_sliced_word};
use crate::planes::xor_seq;
use crate::ring::{bit_int, IntRing2k};
use crate::ring_lemmas::{bit, group_bits, zero};
use crate::shares::{consistent, sum_value, xor_value, Share, XorShare};
use vstd::prelude::*;

verus! {

/// The three numbers that the adder takes are the parts of the element in every lane.
pub proof fn lemma_parts_in_lanes(
    x: (Seq<Share<u16>>, Seq<Share<u16>>, Seq<Share<u16>>),
    planes: Planes3<u64>,
    x1: Planes3<u64>,
    x2: Planes3<u64>,
    x3: Planes3<u64>,
    e: int,
)
    requires
        x.1.len() == x.0.len(),
        x.2.len() == x.0.len(),
        0 <= e < x.0.len(),
        forall|k: int| 0 <= k < x.0.len() ==> consistent(#[trigger] x.0[k], x.1[k], x.2[k]),
        sliced(x.0, planes.0),
        sliced(x.1, planes.1),
        sliced(x.2, planes.2),
        split_planes(0, planes.0, x1.0, x2.0, x3.0),
        split_planes(1, planes.1, x1.1, x2.1, x3.1),
        split_planes(2, planes.2, x1.2, x2.2, x3.2),
    ensures
        fit_at(x1, 16, e / 64),
        fit_at(x2, 16, e / 64),
        fit_at(x3, 16, e / 64),
        lane_bits(x1, e / 64, (e % 64) as nat) == bits_of(x.0[e].a),
        lane_bits(x2, e / 64, (e % 64) as nat) == bits_of(x.1[e].a),
        lane_bits(x3, e / 64, (e % 64) as nat) == bits_of(x.2[e].a),
{
    let (w, i) = (e / 64, (e % 64) as nat);
    lemma_sliced_lanes(x, planes, e);
    assert forall|p: int| 0 <= p < 16 implies #[trigger] fits(x1, p, w) && fits(x2, p, w) && fits(
        x3,
        p,
        w,
    ) && plane_bit(x1, p, w, i) == bit(x.0[e].a, p as nat) && plane_bit(x2, p, w, i) == bit(
        x.1[e].a,
        p as nat,
    ) && plane_bit(x3, p, w, i) == bit(x.2[e].a, p as nat) by {
        assert(fits(planes, p, w));
        let (s0, s1, s2) = (planes.0[p]@[w], planes.1[p]@[w], planes.2[p]@[w]);
        assert(split_plane(0, planes.0[p]@, x1.0[p]@, x2.0[p]@, x3.0[p]@));
        assert(split_plane(1, planes.1[p]@, x1.1[p]@, x2.1[p]@, x3.1[p]@));
        assert(split_plane(2, planes.2[p]@, x1.2[p]@, x2.2[p]@, x3.2[p]@));
        assert((x1.0[p]@[w], x2.0[p]@[w], x3.0[p]@[w]) == split_parts(0, s0));
        assert((x1.1[p]@[w], x2.1[p]@[w], x3.1[p]@[w]) == split_parts(1, s1));
        assert((x1.2[p]@[w], x2.2[p]@[w], x3.2[p]@[w]) == split_parts(2, s2));
        lemma_split_parts(s0, s1, s2);
        lemma_sliced_word(x.0, planes.0, p, w);
        lemma_sliced_word(x.1, planes.1, p, w);
        lemma_sliced_word(x.2, planes.2, p, w);
        assert(64 * w + i == e);
        assert(bit(s0.a, i) == bit(x.0[e].a, p as nat));
        assert(bit(s1.a, i) == bit(x.1[e].a, p as nat));
        assert(bit(s2.a, i) == bit(x.2[e].a, p as nat));
    }
    assert forall|p: int| 0 <= p < 16 implies #[trigger] fits(x2, p, w) && fits(x3, p, w) by {
        assert(fits(x1, p, w));
    }
    assert forall|p: int| 0 <= p < 16 implies #[trigger] fits(x3, p, w) by {
        assert(fits(x1, p, w));
    }
    assert forall|p: int| 0 <= p < 16 implies lane_bits(x1, w, i)[p] == bits_of(x.0[e].a)[p]
        && lane_bits(x2, w, i)[p] == bits_of(x.1[e].a)[p] && lane_bits(x3, w, i)[p] == bits_of(
        x.2[e].a,
    )[p] by {
        assert(fits(x1, p, w));
    }
    assert(lane_bits(x1, w, i) =~= bits_of(x.0[e].a));
    assert(lane_bits(x2, w, i) =~= bits_of(x.1[e].a));
    assert(lane_bits(x3, w, i) =~= bits_of(x.2[e].a));
}

/// The carry chains of three parties.
pub type Chains3<T> = (CarryChain<Share<T>>, CarryChain<Share<T>>, CarryChain<Share<T>>);

/// The first summands of three chains.
pub open spec fn u_planes<T>(c: Chains3<T>) -> Planes3<T> {
    (c.0.u@, c.1.u@, c.2.u@)
}

/// The second summands of three chains.
pub open spec fn v_planes<T>(c: Chains3<T>) -> Planes3<T> {
    (c.0.v@, c.1.v@, c.2.v@)
}

/// In a lane the chains add `u` and `v` from place `from` on: they are at the same place, and hold
/// the carry into it.
pub open spec fn chain_on_track<T: IntRing2k>(
    c: Chains3<T>,
    u: Seq<bool>,
    v: Seq<bool>,
    from: nat,
    w: int,
    i: nat,
) -> bool {
    &&& c.1.at == c.0.at && c.2.at == c.0.at && from <= c.0.at
    &&& fit_at(u_planes(c), u.len(), w)
    &&& fit_at(v_planes(c), u.len(), w)
    &&& lane_bits(u_planes(c), w, i) == u
    &&& lane_bits(v_planes(c), w, i) == v
    &&& 0 <= w < c.0.carry@.len() && c.1.carry@.len() == c.0.carry@.len() && c.2.carry@.len()
        == c.0.carry@.len()
    &&& consistent(c.0.carry@[w], c.1.carry@[w], c.2.carry@[w])
    &&& lane_bit(c.0.carry@[w], c.1.carry@[w], c.2.carry@[w], i) == carry_into(
        u,
        v,
        from,
        c.0.at as nat,
    )
}

/// A round keeps the chains on the track of the sum: the carry moves one place up.
pub proof fn lemma_chain_round<T: IntRing2k>(
    before: Chains3<T>,
    product: (Share<T>, Share<T>, Share<T>),
    products: (Seq<Share<T>>, Seq<Share<T>>, Seq<Share<T>>),
    after: Chains3<T>,
    u: Seq<bool>,
    v: Seq<bool>,
    from: nat,
    w: int,
    i: nat,
)
    requires
        i < T::bits(),
        chain_on_track(before, u, v, from, w, i),
        before.0.at < u.len(),
        product == (products.0[w], products.1[w], products.2[w]),
        consistent(product.0, product.1, product.2),
        ({
            let k = before.0.at as int;
            let carry = (before.0.carry@[w], before.1.carry@[w], before.2.carry@[w]);
            lane_bit(product.0, product.1, product.2, i) == (lane_bit(
                before.0.u@[k]@[w].xor_of(carry.0),
                before.1.u@[k]@[w].xor_of(carry.1),
                before.2.u@[k]@[w].xor_of(carry.2),
                i,
            ) && lane_bit(
                before.0.v@[k]@[w].xor_of(carry.0),
                before.1.v@[k]@[w].xor_of(carry.1),
                before.2.v@[k]@[w].xor_of(carry.2),
                i,
            ))
        }),
        chain_moves(before.0, products.0, after.0),
        chain_moves(before.1, products.1, after.1),
        chain_moves(before.2, products.2, after.2),
    ensures
        chain_on_track(after, u, v, from, w, i),
{
    let k = before.0.at as int;
    assert(fits(u_planes(before), k, w) && fits(v_planes(before), k, w));
    assert(u[k] == plane_bit(u_planes(before), k, w, i));
    assert(v[k] == plane_bit(v_planes(before), k, w, i));
    lemma_chain_lane(
        (before.0.u@[k]@[w], before.1.u@[k]@[w], before.2.u@[k]@[w]),
        (before.0.v@[k]@[w], before.1.v@[k]@[w], before.2.v@[k]@[w]),
        (before.0.carry@[w], before.1.carry@[w], before.2.carry@[w]),
        product,
        i,
    );
}

/// The adders of three parties.
pub type Carries3<T> = (
    TwoCarriesAdder<Share<T>>,
    TwoCarriesAdder<Share<T>>,
    TwoCarriesAdder<Share<T>>,
);

proof fn lemma_nil_lane<T: IntRing2k>(i: nat)
    requires
        i < T::bits(),
    ensures
        ({
            let z = <Share<T> as XorShare>::nil_of();
            consistent(z, z, z) && !lane_bit(z, z, z, i)
        }),
{
    broadcast use group_bits;

    let z = zero::<T>();
    assert(!bit(zero::<T>(), i));
    assert(!bit(z.bxor(z).bxor(z), i));
}

/// The chains start on the track of the bitwise sum plus twice the bitwise majority, and the top
/// planes hold the top bit of the majority.
pub proof fn lemma_carries_start<T: IntRing2k>(
    s: Planes3<T>,
    c: Planes3<T>,
    words: nat,
    a: Carries3<T>,
    n: nat,
    w: int,
    i: nat,
)
    requires
        i < T::bits(),
        n >= 1,
        0 <= w < words,
        fit_at(s, n, w),
        fit_at(c, n, w),
        carries_started(s.0, c.0, words, a.0),
        carries_started(s.1, c.1, words, a.1),
        carries_started(s.2, c.2, words, a.2),
    ensures
        chain_on_track(
            (a.0.chain, a.1.chain, a.2.chain),
            lane_bits(s, w, i),
            doubled(lane_bits(c, w, i)),
            1,
            w,
            i,
        ),
        consistent(a.0.top@[w], a.1.top@[w], a.2.top@[w]),
        lane_bit(a.0.top@[w], a.1.top@[w], a.2.top@[w], i) == lane_bits(c, w, i).last(),
{
    let chains = (a.0.chain, a.1.chain, a.2.chain);
    let (u, v) = (lane_bits(s, w, i), doubled(lane_bits(c, w, i)));
    lemma_nil_lane::<T>(i);
    assert(fits(c, n - 1, w));
    assert forall|j: int| 0 <= j < n implies #[trigger] fits(v_planes(chains), j, w) && plane_bit(
        v_planes(chains),
        j,
        w,
        i,
    ) == v[j] by {
        if j > 0 {
            assert(fits(c, j - 1, w));
            assert(a.0.chain.v@[j]@ == c.0[j - 1]@);
            assert(a.1.chain.v@[j]@ == c.1[j - 1]@);
            assert(a.2.chain.v@[j]@ == c.2[j - 1]@);
            assert(v[j] == lane_bits(c, w, i)[j - 1]);
        }
    }
    assert(lane_bits(v_planes(chains), w, i) =~= v) by {
        assert forall|j: int| 0 <= j < n implies lane_bits(v_planes(chains), w, i)[j] == v[j] by {
            assert(fits(v_planes(chains), j, w));
        }
    }
    assert(u_planes(chains) == s);
}

/// When the chains have passed the last place, the two results fit together in every lane: the
/// lower one is the exclusive or of the top bit of the majority and the carry, the upper one their
/// conjunction.
pub proof fn lemma_carries_end<T: IntRing2k>(
    a: Carries3<T>,
    products: (Seq<Share<T>>, Seq<Share<T>>, Seq<Share<T>>),
    lower: (Seq<Share<T>>, Seq<Share<T>>, Seq<Share<T>>),
    u: Seq<bool>,
    v: Seq<bool>,
    top: bool,
    w: int,
    i: nat,
)
    requires
        i < T::bits(),
        chain_on_track((a.0.chain, a.1.chain, a.2.chain), u, v, 1, w, i),
        a.0.chain.at == u.len(),
        a.0.top@.len() == a.0.chain.carry@.len(),
        a.1.top@.len() == a.0.chain.carry@.len(),
        a.2.top@.len() == a.0.chain.carry@.len(),
        consistent(a.0.top@[w], a.1.top@[w], a.2.top@[w]),
        lane_bit(a.0.top@[w], a.1.top@[w], a.2.top@[w], i) == top,
        consistent(products.0[w], products.1[w], products.2[w]),
        lane_bit(products.0[w], products.1[w], products.2[w], i) == (top && lane_bit(
            a.0.chain.carry@[w],
            a.1.chain.carry@[w],
            a.2.chain.carry@[w],
            i,
        )),
        lower.0 == xor_seq(a.0.top@, a.0.chain.carry@),
        lower.1 == xor_seq(a.1.top@, a.1.chain.carry@),
        lower.2 == xor_seq(a.2.top@, a.2.chain.carry@),
    ensures
        consistent(lower.0[w], lower.1[w], lower.2[w]),
        lane_bit(lower.0[w], lower.1[w], lower.2[w], i) == (top != carry_into(u, v, 1, u.len())),
        lane_bit(products.0[w], products.1[w], products.2[w], i) == (top && carry_into(
            u,
            v,
            1,
            u.len(),
        )),
{
    lemma_xor_lane(
        (a.0.top@[w], a.1.top@[w], a.2.top@[w]),
        (a.0.chain.carry@[w], a.1.chain.carry@[w], a.2.chain.carry@[w]),
        i,
    );
}

/// Lifting is correct for an element: if the words that the adder ends with hold the two carries of
/// the sum of its parts in its lane, and the injected shares stand for the bits of that lane, the
/// lifted shares fit together and stand for the 16-bit value.
pub proof fn lemma_lifted_element(
    x: (Share<u16>, Share<u16>, Share<u16>),
    lower: (Seq<Share<u64>>, Seq<Share<u64>>, Seq<Share<u64>>),
    upper: (Seq<Share<u64>>, Seq<Share<u64>>, Seq<Share<u64>>),
    injected_lower: (Share<u16>, Share<u16>, Share<u16>),
    injected_upper: (Share<u16>, Share<u16>, Share<u16>),
    e: int,
)
    requires
        0 <= e,
        consistent(x.0, x.1, x.2),
        ({
            let (w, i) = (e / 64, (e % 64) as nat);
            let (x1, x2, x3) = (bits_of(x.0.a), bits_of(x.1.a), bits_of(x.2.a));
            let c = majority_bits(x1, x2, x3);
            let carry = carry_into(xor3_bits(x1, x2, x3), doubled(c), 1, 16);
            &&& lane_bit(lower.0[w], lower.1[w], lower.2[w], i) == (c.last() != carry)
            &&& lane_bit(upper.0[w], upper.1[w], upper.2[w], i) == (c.last() && carry)
        }),
        consistent(injected_lower.0, injected_lower.1, injected_lower.2),
        consistent(injected_upper.0, injected_upper.1, injected_upper.2),
        sum_value(injected_lower.0, injected_lower.1, injected_lower.2) == bit_int(
            xor_value(lane(lower.0, e), lane(lower.1, e), lane(lower.2, e)),
        ),
        sum_value(injected_upper.0, injected_upper.1, injected_upper.2) == bit_int(
            xor_value(lane(upper.0, e), lane(upper.1, e), lane(upper.2, e)),
        ),
    ensures
        ({
            let (r0, r1, r2) = (
                lifted(x.0, injected_lower.0, injected_upper.0),
                lifted(x.1, injected_lower.1, injected_upper.1),
                lifted(x.2, injected_lower.2, injected_upper.2),
            );
            &&& consistent(r0, r1, r2)
            &&& sum_value(r0, r1, r2) == sum_value(x.0, x.1, x.2)
        }),
{
    broadcast use group_bits;

    let (w, i) = (e / 64, (e % 64) as nat);
    assert(bit(xor_value(lower.0[w], lower.1[w], lower.2[w]), i) == ((bit(lower.0[w].a, i) != bit(
        lower.1[w].a,
        i,
    )) != bit(lower.2[w].a, i)));
    assert(bit(xor_value(upper.0[w], upper.1[w], upper.2[w]), i) == ((bit(upper.0[w].a, i) != bit(
        upper.1[w].a,
        i,
    )) != bit(upper.2[w].a, i)));
    lemma_lift_correct(x, injected_lower, injected_upper);
}

} // verus!
