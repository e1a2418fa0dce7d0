//! The most significant bits come out right when three parties run the extraction side by side.
//!
//! A lane is one bit of one word: the bits of one element of a batch lie in the same lane of all
//! planes. The laws follow the shared value of a lane from the split shares to the extracted bit.

use crate::adder_laws::{
    fit_at, fits, lane_bit, lane_bits, lemma_prefix_lane, lemma_xor_lane, plane_bit, round_correct,
    Planes3,
};
use crate::adders::carry_into;
use crate::binary::{and_parts, lemma_and_many_correct, zip_shares};
use crate::bit_slice::{
    first_parts, holds_shares, lane, padded, plane_bits, second_parts, sliced, words_for,
};
use crate::extract_msb::{bits_of, lemma_msb_of_sum};
use crate::planes::{flat, lemma_flat_index, lemma_flat_len, same_shape, xor_seq};
use crate::prefix_adder::{
    asked, combined_runs, lemma_round_keeps_carry, lemma_runs_start, run_carry, started,
    PrefixAdder,
};
use crate::prf::{in_step, Prf, PrfDraw};
use crate::ring::IntRing2k;
use crate::ring_lemmas::{bit, group_bits, lemma_bits_ext};
use crate::shares::{consistent, xor_value, Share, XorShare};
use vstd::prelude::*;

verus! {

/// The results of a round of bitwise ands, plane by plane: each party joins its own parts with
/// those of the previous one and restores the shape.
pub open spec fn planes_round<T: IntRing2k + PrfDraw>(
    prf: (Prf, Prf, Prf),
    lhs: Planes3<T>,
    rhs: Planes3<T>,
    products: Planes3<T>,
    n: nat,
) -> bool {
    let (c0, c1, c2) = (
        and_parts(prf.0, flat(lhs.0, n), flat(rhs.0, n)),
        and_parts(prf.1, flat(lhs.1, n), flat(rhs.1, n)),
        and_parts(prf.2, flat(lhs.2, n), flat(rhs.2, n)),
    );
    &&& same_shape(products.0, lhs.0)
    &&& same_shape(products.1, lhs.1)
    &&& same_shape(products.2, lhs.2)
    &&& flat(products.0, n) == zip_shares(c0, c2)
    &&& flat(products.1, n) == zip_shares(c1, c0)
    &&& flat(products.2, n) == zip_shares(c2, c1)
}

/// A round of bitwise ands of planes is correct: in every lane the results fit together, and each
/// is the conjunction of the operands.
pub proof fn lemma_planes_round_correct<T: IntRing2k + PrfDraw>(
    prf: (Prf, Prf, Prf),
    lhs: Planes3<T>,
    rhs: Planes3<T>,
    products: Planes3<T>,
    n: nat,
    w: int,
    i: nat,
)
    requires
        in_step(prf.0, prf.1, prf.2),
        i < T::bits(),
        fit_at(lhs, n, w),
        fit_at(rhs, n, w),
        same_shape(lhs.1, lhs.0),
        same_shape(lhs.2, lhs.0),
        same_shape(rhs.0, lhs.0),
        same_shape(rhs.1, lhs.0),
        same_shape(rhs.2, lhs.0),
        planes_round(prf, lhs, rhs, products, n),
    ensures
        round_correct(lhs, rhs, products, n, w, i),
{
    let a = (flat(lhs.0, n), flat(lhs.1, n), flat(lhs.2, n));
    let b = (flat(rhs.0, n), flat(rhs.1, n), flat(rhs.2, n));
    lemma_flat_len(lhs.1, lhs.0, n);
    lemma_flat_len(lhs.2, lhs.0, n);
    lemma_flat_len(rhs.0, lhs.0, n);
    lemma_flat_len(rhs.1, lhs.0, n);
    lemma_flat_len(rhs.2, lhs.0, n);
    assert forall|j: int| 0 <= j < n implies #[trigger] fits(products, j, w) && plane_bit(
        products,
        j,
        w,
        i,
    ) == (plane_bit(lhs, j, w, i) && plane_bit(rhs, j, w, i)) by {
        broadcast use group_bits;

        assert(fits(lhs, j, w) && fits(rhs, j, w));
        let at = flat(lhs.0, j as nat).len() + w;
        lemma_flat_len(lhs.1, lhs.0, j as nat);
        lemma_flat_len(lhs.2, lhs.0, j as nat);
        lemma_flat_len(rhs.0, lhs.0, j as nat);
        lemma_flat_len(rhs.1, lhs.0, j as nat);
        lemma_flat_len(rhs.2, lhs.0, j as nat);
        lemma_flat_len(products.0, lhs.0, j as nat);
        lemma_flat_len(products.1, lhs.1, j as nat);
        lemma_flat_len(products.2, lhs.2, j as nat);
        assert(products.0[j]@.len() == lhs.0[j]@.len());
        assert(products.1[j]@.len() == lhs.1[j]@.len());
        assert(products.2[j]@.len() == lhs.2[j]@.len());
        lemma_flat_index(lhs.0, n, j, w);
        lemma_flat_index(lhs.1, n, j, w);
        lemma_flat_index(lhs.2, n, j, w);
        lemma_flat_index(rhs.0, n, j, w);
        lemma_flat_index(rhs.1, n, j, w);
        lemma_flat_index(rhs.2, n, j, w);
        lemma_flat_index(products.0, n, j, w);
        lemma_flat_index(products.1, n, j, w);
        lemma_flat_index(products.2, n, j, w);
        lemma_and_many_correct(prf, a, b, at);
    }
    assert forall|j: int| 0 <= j < n implies #[trigger] plane_bit(products, j, w, i) == (plane_bit(
        lhs,
        j,
        w,
        i,
    ) && plane_bit(rhs, j, w, i)) by {
        assert(fits(products, j, w));
    }
}

/// The adders of three parties.
pub type Adders3<T> = (
    PrefixAdder<Share<T>>,
    PrefixAdder<Share<T>>,
    PrefixAdder<Share<T>>,
);

/// The planes that generate carries.
pub open spec fn g_planes<T>(a: Adders3<T>) -> Planes3<T> {
    (a.0.g@, a.1.g@, a.2.g@)
}

/// The planes that propagate carries.
pub open spec fn p_planes<T>(a: Adders3<T>) -> Planes3<T> {
    (a.0.p@, a.1.p@, a.2.p@)
}

/// In a lane the adders stand for the sum of two numbers: the carry out of all runs is the carry
/// into the most significant place, and the top planes hold the exclusive or of the bits there.
pub open spec fn on_track<T: IntRing2k>(
    a: Adders3<T>,
    u: Seq<bool>,
    v: Seq<bool>,
    w: int,
    i: nat,
) -> bool {
    let runs = a.0.g@.len();
    &&& runs >= 1
    &&& fit_at(g_planes(a), runs, w)
    &&& fit_at(p_planes(a), (runs - 1) as nat, w)
    &&& 0 <= w < a.0.top@.len() && a.1.top@.len() == a.0.top@.len() && a.2.top@.len()
        == a.0.top@.len()
    &&& consistent(a.0.top@[w], a.1.top@[w], a.2.top@[w])
    &&& lane_bit(a.0.top@[w], a.1.top@[w], a.2.top@[w], i) == (u.last() != v.last())
    &&& run_carry(lane_bits(g_planes(a), w, i), lane_bits(p_planes(a), w, i), (runs - 1) as nat)
        == carry_into(u, v, 0, (u.len() - 1) as nat)
}

/// After the first round the adders stand for the sum of the two numbers in every lane.
pub proof fn lemma_start_on_track<T: IntRing2k>(
    x: Planes3<T>,
    y: Planes3<T>,
    products: Planes3<T>,
    a: Adders3<T>,
    n: nat,
    w: int,
    i: nat,
)
    requires
        i < T::bits(),
        n >= 2,
        fit_at(x, n, w),
        fit_at(y, n, w),
        fit_at(products, (n - 1) as nat, w),
        forall|j: int|
            0 <= j < n - 1 ==> #[trigger] plane_bit(products, j, w, i) == (plane_bit(x, j, w, i)
                && plane_bit(y, j, w, i)),
        started(x.0, y.0, products.0, a.0),
        started(x.1, y.1, products.1, a.1),
        started(x.2, y.2, products.2, a.2),
    ensures
        on_track(a, lane_bits(x, w, i), lane_bits(y, w, i), w, i),
{
    let (u, v) = (lane_bits(x, w, i), lane_bits(y, w, i));
    let (g, p) = (lane_bits(g_planes(a), w, i), lane_bits(p_planes(a), w, i));
    assert(fits(x, n - 1, w) && fits(y, n - 1, w));
    lemma_xor_lane(
        (x.0[n - 1]@[w], x.1[n - 1]@[w], x.2[n - 1]@[w]),
        (y.0[n - 1]@[w], y.1[n - 1]@[w], y.2[n - 1]@[w]),
        i,
    );
    assert forall|j: int| 0 <= j < n - 2 implies #[trigger] fits(p_planes(a), j, w) && p[j] == (u[j
        + 1] != v[j + 1]) by {
        assert(fits(x, j + 1, w) && fits(y, j + 1, w));
        assert(a.0.p@[j]@ == xor_seq(x.0[j + 1]@, y.0[j + 1]@));
        assert(a.1.p@[j]@ == xor_seq(x.1[j + 1]@, y.1[j + 1]@));
        assert(a.2.p@[j]@ == xor_seq(x.2[j + 1]@, y.2[j + 1]@));
        lemma_xor_lane(
            (x.0[j + 1]@[w], x.1[j + 1]@[w], x.2[j + 1]@[w]),
            (y.0[j + 1]@[w], y.1[j + 1]@[w], y.2[j + 1]@[w]),
            i,
        );
    }
    assert forall|j: int| 0 <= j < n - 1 implies g[j] == (u[j] && v[j]) by {
        assert(plane_bit(products, j, w, i) == (plane_bit(x, j, w, i) && plane_bit(y, j, w, i)));
    }
    assert forall|j: int| 0 <= j < p.len() implies #[trigger] p[j] == (u[j + 1] != v[j + 1]) by {
        assert(fits(p_planes(a), j, w));
    }
    lemma_runs_start(u, v, g, p, (n - 2) as nat);
}

/// A round keeps the adders on the track of the sum.
pub proof fn lemma_round_on_track<T: IntRing2k>(
    before: Adders3<T>,
    lhs: Planes3<T>,
    rhs: Planes3<T>,
    products: Planes3<T>,
    after: Adders3<T>,
    u: Seq<bool>,
    v: Seq<bool>,
    w: int,
    i: nat,
)
    requires
        i < T::bits(),
        on_track(before, u, v, w, i),
        before.0.g@.len() >= 2,
        asked(before.0, lhs.0, rhs.0),
        asked(before.1, lhs.1, rhs.1),
        asked(before.2, lhs.2, rhs.2),
        round_correct(lhs, rhs, products, (2 * (before.0.g@.len() / 2) - 1) as nat, w, i),
        combined_runs(before.0, products.0, after.0),
        combined_runs(before.1, products.1, after.1),
        combined_runs(before.2, products.2, after.2),
    ensures
        on_track(after, u, v, w, i),
        after.0.g@.len() < before.0.g@.len(),
{
    let runs = before.0.g@.len();
    let half = runs as int / 2;
    let (g, p) = (g_planes(before), p_planes(before));
    assert forall|j: int| 0 <= j < half - 1 implies #[trigger] plane_bit(products, j, w, i) == (
    plane_bit(p, 2 * j + 1, w, i) && plane_bit(p, 2 * j + 2, w, i)) by {
        assert(lhs.0[j]@ == p.0[2 * j + 1]@ && rhs.0[j]@ == p.0[2 * j + 2]@);
        assert(lhs.1[j]@ == p.1[2 * j + 1]@ && rhs.1[j]@ == p.1[2 * j + 2]@);
        assert(lhs.2[j]@ == p.2[2 * j + 1]@ && rhs.2[j]@ == p.2[2 * j + 2]@);
    }
    assert forall|j: int| half - 1 <= j < 2 * half - 1 implies #[trigger] plane_bit(
        products,
        j,
        w,
        i,
    ) == (plane_bit(g, 2 * (j - (half - 1)), w, i) && plane_bit(p, 2 * (j - (half - 1)), w, i)) by {
        let k = 2 * (j - (half - 1));
        assert(lhs.0[j]@ == g.0[k]@ && rhs.0[j]@ == p.0[k]@);
        assert(lhs.1[j]@ == g.1[k]@ && rhs.1[j]@ == p.1[k]@);
        assert(lhs.2[j]@ == g.2[k]@ && rhs.2[j]@ == p.2[k]@);
    }
    lemma_prefix_lane(before, products, after, runs, w, i);
    lemma_round_keeps_carry(lane_bits(g, w, i), lane_bits(p, w, i));
}

/// When one run is left, the results fit together in every lane and hold the most significant bit
/// of the sum.
pub proof fn lemma_track_end<T: IntRing2k>(
    a: Adders3<T>,
    r: (Seq<Share<T>>, Seq<Share<T>>, Seq<Share<T>>),
    u: Seq<bool>,
    v: Seq<bool>,
    w: int,
    i: nat,
)
    requires
        i < T::bits(),
        on_track(a, u, v, w, i),
        a.0.g@.len() == 1,
        r.0 == xor_seq(a.0.top@, a.0.g@[0]@),
        r.1 == xor_seq(a.1.top@, a.1.g@[0]@),
        r.2 == xor_seq(a.2.top@, a.2.g@[0]@),
    ensures
        consistent(r.0[w], r.1[w], r.2[w]),
        lane_bit(r.0[w], r.1[w], r.2[w], i) == ((u.last() != v.last()) != carry_into(
            u,
            v,
            0,
            (u.len() - 1) as nat,
        )),
{
    assert(fits(g_planes(a), 0, w));
    lemma_xor_lane(
        (a.0.top@[w], a.1.top@[w], a.2.top@[w]),
        (a.0.g@[0]@[w], a.1.g@[0]@[w], a.2.g@[0]@[w]),
        i,
    );
}

/// Bit-sliced shares of a batch fit together in every word, and a lane holds the bits of the value
/// of its element.
pub proof fn lemma_sliced_lanes<T: IntRing2k>(
    x: (Seq<Share<T>>, Seq<Share<T>>, Seq<Share<T>>),
    planes: Planes3<u64>,
    e: int,
)
    requires
        x.1.len() == x.0.len(),
        x.2.len() == x.0.len(),
        0 <= e < x.0.len(),
        forall|k: int| 0 <= k < x.0.len() ==> consistent(#[trigger] x.0[k], x.1[k], x.2[k]),
        sliced(x.0, planes.0),
        sliced(x.1, planes.1),
        sliced(x.2, planes.2),
    ensures
        fit_at(planes, T::bits(), e / 64),
        lane_bits(planes, e / 64, (e % 64) as nat) == bits_of(xor_value(x.0[e], x.1[e], x.2[e])),
{
    let (w, i) = (e / 64, (e % 64) as nat);
    let v = xor_value(x.0[e], x.1[e], x.2[e]);
    assert forall|p: int| 0 <= p < T::bits() implies #[trigger] fits(planes, p, w) && plane_bit(
        planes,
        p,
        w,
        i,
    ) == bit(v, p as nat) by {
        broadcast use group_bits;

        lemma_sliced_word(x.0, planes.0, p, w);
        lemma_sliced_word(x.1, planes.1, p, w);
        lemma_sliced_word(x.2, planes.2, p, w);
        let (s0, s1, s2) = (planes.0[p]@[w], planes.1[p]@[w], planes.2[p]@[w]);
        assert forall|k: nat| k < 64 implies bit(s1.b, k) == bit(s0.a, k) && bit(s2.b, k) == bit(
            s1.a,
            k,
        ) && bit(s0.b, k) == bit(s2.a, k) by {
            let m = 64 * w + k;
            if m < x.0.len() {
                assert(consistent(x.0[m], x.1[m], x.2[m]));
            }
        }
        lemma_bits_ext(s1.b, s0.a);
        lemma_bits_ext(s2.b, s1.a);
        lemma_bits_ext(s0.b, s2.a);
        assert(64 * w + i == e);
    }
    assert(lane_bits(planes, w, i) =~= bits_of(v)) by {
        assert forall|p: int| 0 <= p < T::bits() implies lane_bits(planes, w, i)[p] == bits_of(
            v,
        )[p] by {
            assert(fits(planes, p, w));
        }
    }
}

/// A word of a plane holds one bit of each of its elements, and zeros past the end of the batch.
pub proof fn lemma_sliced_word<T: IntRing2k>(
    x: Seq<Share<T>>,
    planes: Seq<Vec<Share<u64>>>,
    p: int,
    w: int,
)
    requires
        sliced(x, planes),
        0 <= p < T::bits(),
        0 <= w,
        64 * w < x.len(),
    ensures
        planes[p]@.len() == words_for(x.len()),
        w < planes[p]@.len(),
        forall|k: nat|
            k < 64 ==> #[trigger] bit(planes[p]@[w].a, k) == (64 * w + k < x.len() && bit(
                x[64 * w + k].a,
                p as nat,
            )),
        forall|k: nat|
            k < 64 ==> #[trigger] bit(planes[p]@[w].b, k) == (64 * w + k < x.len() && bit(
                x[64 * w + k].b,
                p as nat,
            )),
{
    let words = planes[p]@;
    let bits = plane_bits(x, p as nat);
    assert(holds_shares(words, bits));
    assert(first_parts(words).len() == words.len() && first_parts(bits).len() == x.len());
    assert(second_parts(bits).len() == x.len());
    assert forall|k: nat| k < 64 implies #[trigger] bit(words[w].a, k) == (64 * w + k < x.len()
        && bit(x[64 * w + k].a, p as nat)) by {
        assert(bit(first_parts(words)[w], k) == padded(first_parts(bits), 64 * w + k));
    }
    assert forall|k: nat| k < 64 implies #[trigger] bit(words[w].b, k) == (64 * w + k < x.len()
        && bit(x[64 * w + k].b, p as nat)) by {
        assert(bit(second_parts(words)[w], k) == padded(second_parts(bits), 64 * w + k));
    }
}

/// The extraction is correct: if the adders of the three parties stand for the sum of the two parts
/// of every element and one run is left, the extracted bit shares of an element fit together, and
/// their bit is the most significant bit of the sum of its parts.
pub proof fn lemma_extracted_msb<T: IntRing2k>(
    x1: T,
    x2: T,
    a: Adders3<u64>,
    words: (Seq<Share<u64>>, Seq<Share<u64>>, Seq<Share<u64>>),
    e: int,
)
    requires
        0 <= e,
        on_track(a, bits_of(x1), bits_of(x2), e / 64, (e % 64) as nat),
        a.0.g@.len() == 1,
        words.0 == xor_seq(a.0.top@, a.0.g@[0]@),
        words.1 == xor_seq(a.1.top@, a.1.g@[0]@),
        words.2 == xor_seq(a.2.top@, a.2.g@[0]@),
    ensures
        consistent(lane(words.0, e), lane(words.1, e), lane(words.2, e)),
        xor_value(lane(words.0, e), lane(words.1, e), lane(words.2, e)) == bit(
            T::of_int(x1.val() + x2.val()),
            (T::bits() - 1) as nat,
        ),
{
    broadcast use group_bits;

    let (w, i) = (e / 64, (e % 64) as nat);
    T::law_modulus();
    lemma_track_end(a, words, bits_of(x1), bits_of(x2), w, i);
    lemma_msb_of_sum(x1, x2);
    let (s0, s1, s2) = (words.0[w], words.1[w], words.2[w]);
    assert(bit(xor_value(s0, s1, s2), i) == ((bit(s0.a, i) != bit(s1.a, i)) != bit(s2.a, i)));
}

} // verus!
