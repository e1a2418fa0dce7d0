//! What three parties end with when they run a protocol from its first step to its last.
//!
//! A run records what the parties compute in each step. The laws say that the shares at its end
//! stand for the right values, whatever the shares and the streams at its start.

use crate::adder_laws::{
    fit_at, fits, lane_bit, lemma_csa_lane, lemma_xor_lane, plane_bit, round_correct, Planes3,
};
use crate::adders::{
    carries_started, carry_into, chain_moves, csa_operands, csa_result, doubled, majority_bits,
    xor3_bits, TwoCarriesAdder,
};
use crate::binary::{and_parts, lemma_and_many_correct, zip_shares};
use crate::bit_inject::{
    injected_0, injected_1, injected_2, lemma_bit_inject_correct, sent_x, sent_y, sent_z,
};
use crate::bit_slice::{holds_shares, lane, plane_bits, sliced, words_for};
use crate::extract_msb::{bits_of, lifted, split_plane, split_planes};
use crate::lift_laws::{
    chain_on_track, lemma_carries_end, lemma_carries_start, lemma_chain_round,
    lemma_lifted_element, lemma_parts_in_lanes, u_planes, v_planes, Carries3,
};
use crate::matrix::rectangular;
use crate::msb_laws::{
    lemma_extracted_msb, lemma_planes_round_correct, lemma_round_on_track, lemma_sliced_lanes,
    lemma_start_on_track, on_track, planes_round, Adders3,
};
use crate::ops::{
    lemma_plus_const_value, lemma_signed_lift_correct, plus_const, signed16,
};
use crate::planes::{flat, lemma_flat_len, same_shape, xor_seq};
use crate::prefix_adder::{asked, combined_runs, started};
use crate::prf::{drawn_batch, in_step, lemma_stay_in_step, Prf, PrfDraw};
use crate::ring::{bit_int, IntRing2k};
use crate::ring_lemmas::{bit, group_bits};
use crate::shares::{consistent, sum_value, xor_value, Share};
use crate::two_way_split::{
    chunk_len, lemma_two_way_split_correct, split_at, split_sent, SplitSent,
};
use vstd::prelude::*;

verus! {

/// The streams of three parties.
pub type Prf3 = (Prf, Prf, Prf);

/// The shares of a batch that three parties hold.
pub type Batch3<T> = (Seq<Share<T>>, Seq<Share<T>>, Seq<Share<T>>);

/// The shares of a batch of `n` values fit together.
pub open spec fn batch_fits<T>(x: Batch3<T>, n: nat) -> bool {
    &&& x.0.len() == n && x.1.len() == n && x.2.len() == n
    &&& forall|k: int| 0 <= k < n ==> consistent(#[trigger] x.0[k], x.1[k], x.2[k])
}

/// The streams of the parties are in step.
pub open spec fn all_in_step(p: Prf3) -> bool {
    in_step(p.0, p.1, p.2)
}

/// The streams after `n` values were drawn from each.
pub open spec fn drawn_on<T: PrfDraw>(p: Prf3, n: int) -> Prf3 {
    (p.0.after::<T>(n), p.1.after::<T>(n), p.2.after::<T>(n))
}

/// The rounds of the adder of two numbers. Round 0 multiplies the planes of the numbers, every other
/// one what the adders before it ask for; `adders[r]` are the adders after round `r`.
#[verifier::ext_equal]
pub struct AdderRun {
    pub x1: Planes3<u64>,
    pub x2: Planes3<u64>,
    pub lhs: Seq<Planes3<u64>>,
    pub rhs: Seq<Planes3<u64>>,
    pub products: Seq<Planes3<u64>>,
    pub adders: Seq<Adders3<u64>>,
}

/// The operands of the first round of a party: all planes but the top one.
pub open spec fn lower_planes(x: Seq<Vec<Share<u64>>>, operand: Seq<Vec<Share<u64>>>) -> bool {
    &&& operand.len() == x.len() - 1
    &&& forall|j: int| 0 <= j < operand.len() ==> (#[trigger] operand[j])@ == x[j]@
}

impl AdderRun {
    /// How many planes round `r` multiplies.
    pub open spec fn planes(self, r: int) -> nat {
        self.lhs[r].0.len()
    }

    /// The streams before round `r`.
    pub open spec fn prfs(self, prf: Prf3, r: nat) -> Prf3
        decreases r,
    {
        if r == 0 {
            prf
        } else {
            let before = self.prfs(prf, (r - 1) as nat);
            let (l0, l1, l2) = self.lhs[r - 1];
            (
                before.0.after::<u64>(flat(l0, l0.len()).len() as int),
                before.1.after::<u64>(flat(l1, l1.len()).len() as int),
                before.2.after::<u64>(flat(l2, l2.len()).len() as int),
            )
        }
    }

    /// The first round: the operands are the planes of the numbers, and the adders start with the
    /// products.
    pub open spec fn starts(self) -> bool {
        &&& lower_planes(self.x1.0, self.lhs[0].0)
        &&& lower_planes(self.x1.1, self.lhs[0].1)
        &&& lower_planes(self.x1.2, self.lhs[0].2)
        &&& lower_planes(self.x2.0, self.rhs[0].0)
        &&& lower_planes(self.x2.1, self.rhs[0].1)
        &&& lower_planes(self.x2.2, self.rhs[0].2)
        &&& started(self.x1.0, self.x2.0, self.products[0].0, self.adders[0].0)
        &&& started(self.x1.1, self.x2.1, self.products[0].1, self.adders[0].1)
        &&& started(self.x1.2, self.x2.2, self.products[0].2, self.adders[0].2)
    }

    /// Round `r`: the adders ask for the operands and take the products.
    pub open spec fn goes_on(self, r: int) -> bool {
        let (before, after) = (self.adders[r - 1], self.adders[r]);
        &&& before.0.g@.len() > 1
        &&& asked(before.0, self.lhs[r].0, self.rhs[r].0)
        &&& asked(before.1, self.lhs[r].1, self.rhs[r].1)
        &&& asked(before.2, self.lhs[r].2, self.rhs[r].2)
        &&& combined_runs(before.0, self.products[r].0, after.0)
        &&& combined_runs(before.1, self.products[r].1, after.1)
        &&& combined_runs(before.2, self.products[r].2, after.2)
    }

    /// The parties ran the adder from the first round to the last, and end with the given words.
    pub open spec fn ran(self, prf: Prf3, words: Batch3<u64>) -> bool {
        let rounds = self.adders.len();
        let last = self.adders.last();
        &&& rounds >= 1
        &&& self.lhs.len() == rounds && self.rhs.len() == rounds && self.products.len() == rounds
        &&& self.starts()
        &&& forall|r: int| 0 < r < rounds ==> #[trigger] self.goes_on(r)
        &&& forall|r: int|
            0 <= r < rounds ==> planes_round(
                self.prfs(prf, r as nat),
                #[trigger] self.lhs[r],
                self.rhs[r],
                self.products[r],
                self.planes(r),
            )
        &&& last.0.g@.len() == 1
        &&& words.0 == xor_seq(last.0.top@, last.0.g@[0]@)
        &&& words.1 == xor_seq(last.1.top@, last.1.g@[0]@)
        &&& words.2 == xor_seq(last.2.top@, last.2.g@[0]@)
    }

    /// The streams at the end.
    pub open spec fn end(self, prf: Prf3) -> Prf3 {
        self.prfs(prf, self.adders.len())
    }
}

/// The adders of the three parties have the same number of runs, and planes of `words` words.
spec fn tidy(a: Adders3<u64>, words: nat) -> bool {
    &&& a.0.wf() && a.1.wf() && a.2.wf()
    &&& a.0.top@.len() == words && a.1.top@.len() == words && a.2.top@.len() == words
    &&& a.1.g@.len() == a.0.g@.len() && a.2.g@.len() == a.0.g@.len()
}

/// The planes of three parties have `n` planes of `words` words each.
spec fn shaped3(x: Planes3<u64>, n: nat, words: nat) -> bool {
    &&& x.0.len() == n && x.1.len() == n && x.2.len() == n
    &&& rectangular(x.0, words) && rectangular(x.1, words) && rectangular(x.2, words)
}

/// A round on planes of one shape is correct, and keeps the parties in step.
proof fn lemma_shaped_round(
    prf: Prf3,
    lhs: Planes3<u64>,
    rhs: Planes3<u64>,
    products: Planes3<u64>,
    n: nat,
    words: nat,
    w: int,
    i: nat,
)
    requires
        all_in_step(prf),
        shaped3(lhs, n, words),
        shaped3(rhs, n, words),
        fit_at(lhs, n, w),
        fit_at(rhs, n, w),
        i < 64,
        planes_round(prf, lhs, rhs, products, n),
    ensures
        round_correct(lhs, rhs, products, n, w, i),
        shaped3(products, n, words),
        all_in_step(
            (
                prf.0.after::<u64>(flat(lhs.0, n).len() as int),
                prf.1.after::<u64>(flat(lhs.1, n).len() as int),
                prf.2.after::<u64>(flat(lhs.2, n).len() as int),
            ),
        ),
{
    assert(same_shape(lhs.1, lhs.0) && same_shape(lhs.2, lhs.0) && same_shape(rhs.0, lhs.0)
        && same_shape(rhs.1, lhs.0) && same_shape(rhs.2, lhs.0)) by {
        assert forall|j: int| 0 <= j < n implies (#[trigger] lhs.0[j])@.len() == words by {}
        assert forall|j: int| 0 <= j < n implies (#[trigger] lhs.1[j])@.len()
            == lhs.0[j]@.len() by {}
        assert forall|j: int| 0 <= j < n implies (#[trigger] lhs.2[j])@.len()
            == lhs.0[j]@.len() by {}
        assert forall|j: int| 0 <= j < n implies (#[trigger] rhs.0[j])@.len()
            == lhs.0[j]@.len() by {}
        assert forall|j: int| 0 <= j < n implies (#[trigger] rhs.1[j])@.len()
            == lhs.0[j]@.len() by {}
        assert forall|j: int| 0 <= j < n implies (#[trigger] rhs.2[j])@.len()
            == lhs.0[j]@.len() by {}
    }
    lemma_planes_round_correct(prf, lhs, rhs, products, n, w, i);
    lemma_flat_len(lhs.1, lhs.0, n);
    lemma_flat_len(lhs.2, lhs.0, n);
    lemma_stay_in_step::<u64>(prf.0, prf.1, prf.2, flat(lhs.0, n).len() as int);
    assert forall|j: int| 0 <= j < n implies (#[trigger] products.0[j])@.len() == words by {
        assert(lhs.0[j]@.len() == words);
    }
    assert forall|j: int| 0 <= j < n implies (#[trigger] products.1[j])@.len() == words by {
        assert(lhs.1[j]@.len() == words);
    }
    assert forall|j: int| 0 <= j < n implies (#[trigger] products.2[j])@.len() == words by {
        assert(lhs.2[j]@.len() == words);
    }
}

/// Bit-sliced shares have planes of one shape.
proof fn lemma_sliced_shape<T: IntRing2k>(x: Batch3<T>, planes: Planes3<u64>, n: nat)
    requires
        x.0.len() == n && x.1.len() == n && x.2.len() == n,
        sliced(x.0, planes.0),
        sliced(x.1, planes.1),
        sliced(x.2, planes.2),
    ensures
        shaped3(planes, T::bits(), words_for(n)),
{
    assert forall|p: int| 0 <= p < T::bits() implies (#[trigger] planes.0[p])@.len() == words_for(
        n,
    ) by {
        assert(holds_shares(planes.0[p]@, plane_bits(x.0, p as nat)));
    }
    assert forall|p: int| 0 <= p < T::bits() implies (#[trigger] planes.1[p])@.len() == words_for(
        n,
    ) by {
        assert(holds_shares(planes.1[p]@, plane_bits(x.1, p as nat)));
    }
    assert forall|p: int| 0 <= p < T::bits() implies (#[trigger] planes.2[p])@.len() == words_for(
        n,
    ) by {
        assert(holds_shares(planes.2[p]@, plane_bits(x.2, p as nat)));
    }
}

/// A round on planes of one shape keeps the parties in step.
proof fn lemma_shaped_step(prf: Prf3, lhs: Planes3<u64>, n: nat, words: nat)
    requires
        all_in_step(prf),
        shaped3(lhs, n, words),
    ensures
        all_in_step(
            (
                prf.0.after::<u64>(flat(lhs.0, n).len() as int),
                prf.1.after::<u64>(flat(lhs.1, n).len() as int),
                prf.2.after::<u64>(flat(lhs.2, n).len() as int),
            ),
        ),
{
    assert(same_shape(lhs.1, lhs.0)) by {
        assert forall|j: int| 0 <= j < n implies (#[trigger] lhs.1[j])@.len()
            == lhs.0[j]@.len() by {
            assert(lhs.0[j]@.len() == words);
        }
    }
    assert(same_shape(lhs.2, lhs.0)) by {
        assert forall|j: int| 0 <= j < n implies (#[trigger] lhs.2[j])@.len()
            == lhs.0[j]@.len() by {
            assert(lhs.0[j]@.len() == words);
        }
    }
    lemma_flat_len(lhs.1, lhs.0, n);
    lemma_flat_len(lhs.2, lhs.0, n);
    lemma_stay_in_step::<u64>(prf.0, prf.1, prf.2, flat(lhs.0, n).len() as int);
}

/// The lower planes of planes of one shape.
proof fn lemma_lower_shape(x: Planes3<u64>, operand: Planes3<u64>, n: nat, words: nat)
    requires
        n >= 1,
        shaped3(x, n, words),
        lower_planes(x.0, operand.0),
        lower_planes(x.1, operand.1),
        lower_planes(x.2, operand.2),
    ensures
        shaped3(operand, (n - 1) as nat, words),
{
    assert forall|j: int| 0 <= j < n - 1 implies (#[trigger] operand.0[j])@.len() == words by {
        assert(x.0[j]@.len() == words);
    }
    assert forall|j: int| 0 <= j < n - 1 implies (#[trigger] operand.1[j])@.len() == words by {
        assert(x.1[j]@.len() == words);
    }
    assert forall|j: int| 0 <= j < n - 1 implies (#[trigger] operand.2[j])@.len() == words by {
        assert(x.2[j]@.len() == words);
    }
}

/// The rounds of the adder keep the parties in step, also where there is no element at all.
proof fn lemma_adder_in_step<T: IntRing2k>(
    prf: Prf3,
    run: AdderRun,
    words: Batch3<u64>,
    x1: Batch3<T>,
    x2: Batch3<T>,
    n: nat,
    r: nat,
)
    requires
        all_in_step(prf),
        T::bits() >= 2,
        x1.0.len() == n && x1.1.len() == n && x1.2.len() == n,
        x2.0.len() == n && x2.1.len() == n && x2.2.len() == n,
        sliced(x1.0, run.x1.0) && sliced(x1.1, run.x1.1) && sliced(x1.2, run.x1.2),
        sliced(x2.0, run.x2.0) && sliced(x2.1, run.x2.1) && sliced(x2.2, run.x2.2),
        run.ran(prf, words),
        r < run.adders.len(),
    ensures
        tidy(run.adders[r as int], words_for(n)),
        all_in_step(run.prfs(prf, r + 1)),
    decreases r,
{
    let wf = words_for(n);
    let k = r as int;
    let (lhs, rhs, products) = (run.lhs[k], run.rhs[k], run.products[k]);
    let m = run.planes(k);
    let now = run.prfs(prf, r);
    assert(planes_round(now, lhs, rhs, products, m));
    if r == 0 {
        lemma_sliced_shape(x1, run.x1, n);
        lemma_sliced_shape(x2, run.x2, n);
        lemma_lower_shape(run.x1, lhs, T::bits(), wf);
        let p = run.x1;
        assert(p.0.last()@.len() == wf && p.1.last()@.len() == wf && p.2.last()@.len() == wf);
    } else {
        lemma_adder_in_step(prf, run, words, x1, x2, n, (r - 1) as nat);
        assert(run.goes_on(k));
        lemma_asked_shape(run.adders[k - 1], lhs, rhs, wf);
    }
    lemma_shaped_step(now, lhs, m, wf);
}

/// After round `r` the adders stand for the sum of the two numbers in the lane of element `e`.
proof fn lemma_adder_track<T: IntRing2k>(
    prf: Prf3,
    run: AdderRun,
    words: Batch3<u64>,
    x1: Batch3<T>,
    x2: Batch3<T>,
    n: nat,
    e: int,
    r: nat,
)
    requires
        all_in_step(prf),
        T::bits() >= 2,
        batch_fits(x1, n),
        batch_fits(x2, n),
        0 <= e < n,
        sliced(x1.0, run.x1.0) && sliced(x1.1, run.x1.1) && sliced(x1.2, run.x1.2),
        sliced(x2.0, run.x2.0) && sliced(x2.1, run.x2.1) && sliced(x2.2, run.x2.2),
        run.ran(prf, words),
        r < run.adders.len(),
    ensures
        tidy(run.adders[r as int], words_for(n)),
        on_track(
            run.adders[r as int],
            bits_of(xor_value(x1.0[e], x1.1[e], x1.2[e])),
            bits_of(xor_value(x2.0[e], x2.1[e], x2.2[e])),
            e / 64,
            (e % 64) as nat,
        ),
        all_in_step(run.prfs(prf, r + 1)),
    decreases r,
{
    let (w, i) = (e / 64, (e % 64) as nat);
    let wf = words_for(n);
    let (u, v) = (
        bits_of(xor_value(x1.0[e], x1.1[e], x1.2[e])),
        bits_of(xor_value(x2.0[e], x2.1[e], x2.2[e])),
    );
    let k = r as int;
    let (lhs, rhs, products, after) = (run.lhs[k], run.rhs[k], run.products[k], run.adders[k]);
    let m = run.planes(k);
    let now = run.prfs(prf, r);
    assert(planes_round(now, lhs, rhs, products, m));
    if r == 0 {
        lemma_sliced_lanes(x1, run.x1, e);
        lemma_sliced_lanes(x2, run.x2, e);
        lemma_sliced_shape(x1, run.x1, n);
        lemma_sliced_shape(x2, run.x2, n);
        let (p, q) = (run.x1, run.x2);
        assert forall|j: int| 0 <= j < m implies #[trigger] fits(lhs, j, w) by {
            assert(fits(p, j, w));
            assert(lhs.0[j]@ == p.0[j]@ && lhs.1[j]@ == p.1[j]@ && lhs.2[j]@ == p.2[j]@);
        }
        assert forall|j: int| 0 <= j < m implies #[trigger] fits(rhs, j, w) by {
            assert(fits(q, j, w));
            assert(rhs.0[j]@ == q.0[j]@ && rhs.1[j]@ == q.1[j]@ && rhs.2[j]@ == q.2[j]@);
        }
        assert(shaped3(lhs, m, wf) && shaped3(rhs, m, wf)) by {
            assert forall|j: int| 0 <= j < m implies (#[trigger] lhs.0[j])@.len() == wf by {
                assert(p.0[j]@.len() == wf);
            }
            assert forall|j: int| 0 <= j < m implies (#[trigger] lhs.1[j])@.len() == wf by {
                assert(p.1[j]@.len() == wf);
            }
            assert forall|j: int| 0 <= j < m implies (#[trigger] lhs.2[j])@.len() == wf by {
                assert(p.2[j]@.len() == wf);
            }
            assert forall|j: int| 0 <= j < m implies (#[trigger] rhs.0[j])@.len() == wf by {
                assert(q.0[j]@.len() == wf);
            }
            assert forall|j: int| 0 <= j < m implies (#[trigger] rhs.1[j])@.len() == wf by {
                assert(q.1[j]@.len() == wf);
            }
            assert forall|j: int| 0 <= j < m implies (#[trigger] rhs.2[j])@.len() == wf by {
                assert(q.2[j]@.len() == wf);
            }
        }
        lemma_shaped_round(now, lhs, rhs, products, m, wf, w, i);
        assert forall|j: int| 0 <= j < m implies #[trigger] plane_bit(products, j, w, i) == (
        plane_bit(p, j, w, i) && plane_bit(q, j, w, i)) by {
            assert(lhs.0[j]@ == p.0[j]@ && lhs.1[j]@ == p.1[j]@ && lhs.2[j]@ == p.2[j]@);
            assert(rhs.0[j]@ == q.0[j]@ && rhs.1[j]@ == q.1[j]@ && rhs.2[j]@ == q.2[j]@);
        }
        lemma_start_on_track(p, q, products, after, T::bits(), w, i);
        assert(p.0.last()@.len() == wf && p.1.last()@.len() == wf && p.2.last()@.len() == wf);
    } else {
        lemma_adder_track(prf, run, words, x1, x2, n, e, (r - 1) as nat);
        let before = run.adders[k - 1];
        assert(run.goes_on(k));
        let half = before.0.g@.len() as int / 2;
        assert(m == 2 * half - 1);
        lemma_asked_shape(before, lhs, rhs, wf);
        lemma_asked_fits(before, lhs, rhs, u, v, w, i);
        lemma_shaped_round(now, lhs, rhs, products, m, wf, w, i);
        lemma_round_on_track(before, lhs, rhs, products, after, u, v, w, i);
    }
}

/// What adders ask for has the shape of their planes.
proof fn lemma_asked_shape(
    a: Adders3<u64>,
    lhs: Planes3<u64>,
    rhs: Planes3<u64>,
    words: nat,
)
    requires
        tidy(a, words),
        a.0.g@.len() > 1,
        asked(a.0, lhs.0, rhs.0),
        asked(a.1, lhs.1, rhs.1),
        asked(a.2, lhs.2, rhs.2),
    ensures
        shaped3(lhs, (2 * (a.0.g@.len() / 2) - 1) as nat, words),
        shaped3(rhs, (2 * (a.0.g@.len() / 2) - 1) as nat, words),
{
    lemma_asked_lengths(a.0, lhs.0, rhs.0, words);
    lemma_asked_lengths(a.1, lhs.1, rhs.1, words);
    lemma_asked_lengths(a.2, lhs.2, rhs.2, words);
}

proof fn lemma_asked_lengths(
    a: crate::prefix_adder::PrefixAdder<Share<u64>>,
    lhs: Seq<Vec<Share<u64>>>,
    rhs: Seq<Vec<Share<u64>>>,
    words: nat,
)
    requires
        a.wf(),
        a.top@.len() == words,
        a.g@.len() > 1,
        asked(a, lhs, rhs),
    ensures
        rectangular(lhs, words),
        rectangular(rhs, words),
{
    let half = a.g@.len() as int / 2;
    assert forall|j: int| 0 <= j < lhs.len() implies (#[trigger] lhs[j])@.len() == words by {
        if j < half - 1 {
            assert(lhs[j]@ == a.p@[2 * j + 1]@);
            assert(a.p@[2 * j + 1]@.len() == words);
        } else {
            assert(lhs[j]@ == a.g@[2 * (j - (half - 1))]@);
            assert(a.g@[2 * (j - (half - 1))]@.len() == words);
        }
    }
    assert forall|j: int| 0 <= j < rhs.len() implies (#[trigger] rhs[j])@.len() == words by {
        if j < half - 1 {
            assert(rhs[j]@ == a.p@[2 * j + 2]@);
            assert(a.p@[2 * j + 2]@.len() == words);
        } else {
            assert(rhs[j]@ == a.p@[2 * (j - (half - 1))]@);
            assert(a.p@[2 * (j - (half - 1))]@.len() == words);
        }
    }
}

/// What adders on track ask for fits together.
proof fn lemma_asked_fits(
    a: Adders3<u64>,
    lhs: Planes3<u64>,
    rhs: Planes3<u64>,
    u: Seq<bool>,
    v: Seq<bool>,
    w: int,
    i: nat,
)
    requires
        on_track(a, u, v, w, i),
        a.0.g@.len() > 1,
        asked(a.0, lhs.0, rhs.0),
        asked(a.1, lhs.1, rhs.1),
        asked(a.2, lhs.2, rhs.2),
    ensures
        fit_at(lhs, (2 * (a.0.g@.len() / 2) - 1) as nat, w),
        fit_at(rhs, (2 * (a.0.g@.len() / 2) - 1) as nat, w),
{
    let half = a.0.g@.len() as int / 2;
    let (g, p) = (crate::msb_laws::g_planes(a), crate::msb_laws::p_planes(a));
    assert forall|j: int| 0 <= j < 2 * half - 1 implies #[trigger] fits(lhs, j, w) by {
        if j < half - 1 {
            assert(fits(p, 2 * j + 1, w));
            assert(lhs.0[j]@ == p.0[2 * j + 1]@ && lhs.1[j]@ == p.1[2 * j + 1]@ && lhs.2[j]@
                == p.2[2 * j + 1]@);
        } else {
            let k = 2 * (j - (half - 1));
            assert(fits(g, k, w));
            assert(lhs.0[j]@ == g.0[k]@ && lhs.1[j]@ == g.1[k]@ && lhs.2[j]@ == g.2[k]@);
        }
    }
    assert forall|j: int| 0 <= j < 2 * half - 1 implies #[trigger] fits(rhs, j, w) by {
        let k = if j < half - 1 {
            2 * j + 2
        } else {
            2 * (j - (half - 1))
        };
        assert(fits(p, k, w));
        assert(rhs.0[j]@ == p.0[k]@ && rhs.1[j]@ == p.1[k]@ && rhs.2[j]@ == p.2[k]@);
    }
}

/// An extraction of most significant bits: what the parties send in the split, the two halves that
/// they end it with, the rounds of the adder and the words that it gives.
pub struct MsbRun<T> {
    pub sent: (SplitSent<T>, SplitSent<T>, SplitSent<T>),
    pub x1: Batch3<T>,
    pub x2: Batch3<T>,
    pub adder: AdderRun,
    pub words: Batch3<u64>,
}

/// The streams after a split of `n` values.
pub open spec fn after_split<T: PrfDraw>(p: Prf3, n: int) -> Prf3 {
    (
        Prf {
            my_prf: p.0.my_prf.advanced(chunk_len(n, 1) * T::words()),
            prev_prf: p.0.prev_prf.advanced(chunk_len(n, 0) * T::words()),
        },
        Prf {
            my_prf: p.1.my_prf.advanced(chunk_len(n, 2) * T::words()),
            prev_prf: p.1.prev_prf.advanced(chunk_len(n, 1) * T::words()),
        },
        Prf {
            my_prf: p.2.my_prf.advanced(chunk_len(n, 0) * T::words()),
            prev_prf: p.2.prev_prf.advanced(chunk_len(n, 2) * T::words()),
        },
    )
}

impl<T: IntRing2k + PrfDraw> MsbRun<T> {
    /// The parties ran the extraction on a batch and end with the given bit shares.
    pub open spec fn ran(self, prf: Prf3, x: Batch3<T>, bits: Batch3<bool>) -> bool {
        let n = x.0.len();
        let s = self.sent;
        &&& split_sent(0, prf.0, x.0, s.0)
        &&& split_sent(1, prf.1, x.1, s.1)
        &&& split_sent(2, prf.2, x.2, s.2)
        &&& self.x1.0 == Seq::new(n, |i: int| split_at(0, x.0, s.0, s.2.t@, i).0)
        &&& self.x1.1 == Seq::new(n, |i: int| split_at(1, x.1, s.1, s.0.t@, i).0)
        &&& self.x1.2 == Seq::new(n, |i: int| split_at(2, x.2, s.2, s.1.t@, i).0)
        &&& self.x2.0 == Seq::new(n, |i: int| split_at(0, x.0, s.0, s.2.t@, i).1)
        &&& self.x2.1 == Seq::new(n, |i: int| split_at(1, x.1, s.1, s.0.t@, i).1)
        &&& self.x2.2 == Seq::new(n, |i: int| split_at(2, x.2, s.2, s.1.t@, i).1)
        &&& sliced(self.x1.0, self.adder.x1.0)
        &&& sliced(self.x1.1, self.adder.x1.1)
        &&& sliced(self.x1.2, self.adder.x1.2)
        &&& sliced(self.x2.0, self.adder.x2.0)
        &&& sliced(self.x2.1, self.adder.x2.1)
        &&& sliced(self.x2.2, self.adder.x2.2)
        &&& self.adder.ran(after_split::<T>(prf, n as int), self.words)
        &&& bits.0 == Seq::new(n, |e: int| lane(self.words.0, e))
        &&& bits.1 == Seq::new(n, |e: int| lane(self.words.1, e))
        &&& bits.2 == Seq::new(n, |e: int| lane(self.words.2, e))
    }

    /// The streams at the end.
    pub open spec fn end(self, prf: Prf3, n: int) -> Prf3 {
        self.adder.end(after_split::<T>(prf, n))
    }
}

/// An extraction gives the most significant bits: the bit shares of every element fit together, and
/// their bit is the most significant bit of the value that its shares add up to. The parties stay
/// in step.
pub proof fn lemma_msb_run_correct<T: IntRing2k + PrfDraw>(
    prf: Prf3,
    x: Batch3<T>,
    run: MsbRun<T>,
    bits: Batch3<bool>,
    n: nat,
)
    requires
        all_in_step(prf),
        T::bits() >= 2,
        batch_fits(x, n),
        run.ran(prf, x, bits),
    ensures
        batch_fits(bits, n),
        forall|e: int|
            0 <= e < n ==> xor_value(#[trigger] bits.0[e], bits.1[e], bits.2[e]) == bit(
                sum_value(x.0[e], x.1[e], x.2[e]),
                (T::bits() - 1) as nat,
            ),
        all_in_step(run.end(prf, n as int)),
{
    let start = after_split::<T>(prf, n as int);
    let last = run.adder.adders.len() - 1;
    assert forall|i: int| 0 <= i < n implies consistent(
        #[trigger] run.x1.0[i],
        run.x1.1[i],
        run.x1.2[i],
    ) && consistent(run.x2.0[i], run.x2.1[i], run.x2.2[i]) && T::of_int(
        xor_value(run.x1.0[i], run.x1.1[i], run.x1.2[i]).val() + xor_value(
            run.x2.0[i],
            run.x2.1[i],
            run.x2.2[i],
        ).val(),
    ) == sum_value(x.0[i], x.1[i], x.2[i]) by {
        assert(consistent(x.0[i], x.1[i], x.2[i]));
        lemma_two_way_split_correct(prf, x, run.sent, i);
    }
    assert forall|i: int| 0 <= i < n implies consistent(
        #[trigger] run.x2.0[i],
        run.x2.1[i],
        run.x2.2[i],
    ) by {
        assert(consistent(run.x1.0[i], run.x1.1[i], run.x1.2[i]));
    }
    assert forall|e: int| 0 <= e < n implies consistent(
        #[trigger] bits.0[e],
        bits.1[e],
        bits.2[e],
    ) && xor_value(bits.0[e], bits.1[e], bits.2[e]) == bit(
        sum_value(x.0[e], x.1[e], x.2[e]),
        (T::bits() - 1) as nat,
    ) by {
        lemma_adder_track(start, run.adder, run.words, run.x1, run.x2, n, e, last as nat);
        assert(consistent(run.x1.0[e], run.x1.1[e], run.x1.2[e]));
        lemma_extracted_msb(
            xor_value(run.x1.0[e], run.x1.1[e], run.x1.2[e]),
            xor_value(run.x2.0[e], run.x2.1[e], run.x2.2[e]),
            run.adder.adders[last],
            run.words,
            e,
        );
    }
    lemma_adder_in_step(start, run.adder, run.words, run.x1, run.x2, n, last as nat);
}

/// Three things of the parties in the order of the positions that they take in a session.
pub open spec fn by_position<A>(t: (A, A, A), session_id: int) -> (A, A, A) {
    if session_id % 3 == 0 {
        t
    } else if session_id % 3 == 1 {
        (t.2, t.0, t.1)
    } else {
        (t.1, t.2, t.0)
    }
}

/// The parties ran a bit injection and end with the given shares. Each position draws its masks from
/// its streams and takes what the others sent.
pub open spec fn injection_ran<T: IntRing2k + PrfDraw>(
    prf: Prf3,
    session_id: int,
    bits: Batch3<bool>,
    out: Batch3<T>,
) -> bool {
    let n = bits.0.len();
    let (p0, p1, p2) = by_position(prf, session_id);
    let (b0, b1, b2) = by_position(bits, session_id);
    let (r_01, r_02) = (drawn_batch::<T>(p0.my_prf, n), drawn_batch::<T>(p0.prev_prf, n));
    let (s_01, s_12) = (drawn_batch::<T>(p1.prev_prf, n), drawn_batch::<T>(p1.my_prf, n));
    let (t_02, t_12) = (drawn_batch::<T>(p2.my_prf, n), drawn_batch::<T>(p2.prev_prf, n));
    let y = Seq::new(n, |i: int| sent_y(r_01[i], r_02[i], b0[i].b));
    let x = Seq::new(n, |i: int| sent_x(s_01[i], b1[i].a, b1[i].b));
    let z = Seq::new(n, |i: int| sent_z(x[i], t_12[i], b2[i].a));
    by_position(out, session_id) == (
        Seq::new(n, |i: int| injected_0(r_01[i], r_02[i], y[i], z[i], b0[i].b)),
        Seq::new(n, |i: int| injected_1(s_01[i], s_12[i], x[i], y[i])),
        Seq::new(n, |i: int| injected_2(t_02[i], t_12[i], x[i], z[i], b2[i].a)),
    )
}

/// An injection keeps the bits, whichever position a party takes: the shares at its end fit together
/// and add up to the bits.
pub proof fn lemma_injection_correct<T: IntRing2k + PrfDraw>(
    prf: Prf3,
    session_id: int,
    bits: Batch3<bool>,
    out: Batch3<T>,
    n: nat,
)
    requires
        all_in_step(prf),
        session_id >= 0,
        batch_fits(bits, n),
        injection_ran(prf, session_id, bits, out),
    ensures
        batch_fits(out, n),
        forall|i: int|
            0 <= i < n ==> sum_value(#[trigger] out.0[i], out.1[i], out.2[i]) == T::of_int(
                bit_int(xor_value(bits.0[i], bits.1[i], bits.2[i])),
            ),
        all_in_step(drawn_on::<T>(prf, n as int)),
{
    let (p0, p1, p2) = by_position(prf, session_id);
    let (b0, b1, b2) = by_position(bits, session_id);
    let (o0, o1, o2) = by_position(out, session_id);
    lemma_stay_in_step::<T>(prf.0, prf.1, prf.2, n as int);
    assert(in_step(p0, p1, p2));
    let (r_01, r_02) = (drawn_batch::<T>(p0.my_prf, n), drawn_batch::<T>(p0.prev_prf, n));
    let r_12 = drawn_batch::<T>(p1.my_prf, n);
    assert forall|i: int| 0 <= i < n implies consistent(
        #[trigger] out.0[i],
        out.1[i],
        out.2[i],
    ) && sum_value(out.0[i], out.1[i], out.2[i]) == T::of_int(
        bit_int(xor_value(bits.0[i], bits.1[i], bits.2[i])),
    ) by {
        assert(consistent(bits.0[i], bits.1[i], bits.2[i]));
        lemma_bit_inject_correct(b0[i], b1[i], b2[i], r_01[i], r_02[i], r_12[i]);
        lemma_xor_rotates(b0[i], b1[i], b2[i]);
        assert(consistent(o0[i], o1[i], o2[i]));
    }
}

proof fn lemma_xor_rotates(a: Share<bool>, b: Share<bool>, c: Share<bool>)
    ensures
        xor_value(a, b, c) == xor_value(c, a, b),
        xor_value(a, b, c) == xor_value(b, c, a),
{
}

/// The results of a round of bitwise ands: each party joins its own parts with those of the previous
/// one.
pub open spec fn and_ran(prf: Prf3, a: Batch3<u64>, b: Batch3<u64>, out: Batch3<u64>) -> bool {
    let (c0, c1, c2) = (
        and_parts(prf.0, a.0, b.0),
        and_parts(prf.1, a.1, b.1),
        and_parts(prf.2, a.2, b.2),
    );
    out == (zip_shares(c0, c2), zip_shares(c1, c0), zip_shares(c2, c1))
}

/// A round of bitwise ands is correct in every lane.
pub proof fn lemma_and_lane(
    prf: Prf3,
    a: Batch3<u64>,
    b: Batch3<u64>,
    out: Batch3<u64>,
    words: nat,
    w: int,
    i: nat,
)
    requires
        all_in_step(prf),
        a.0.len() == words && a.1.len() == words && a.2.len() == words,
        b.0.len() == words && b.1.len() == words && b.2.len() == words,
        0 <= w < words,
        i < 64,
        consistent(a.0[w], a.1[w], a.2[w]),
        consistent(b.0[w], b.1[w], b.2[w]),
        and_ran(prf, a, b, out),
    ensures
        out.0.len() == words && out.1.len() == words && out.2.len() == words,
        consistent(out.0[w], out.1[w], out.2[w]),
        lane_bit(out.0[w], out.1[w], out.2[w], i) == (lane_bit(a.0[w], a.1[w], a.2[w], i)
            && lane_bit(b.0[w], b.1[w], b.2[w], i)),
{
    broadcast use group_bits;

    lemma_and_many_correct(prf, a, b, w);
}

/// The shares that chains multiply in a round.
pub open spec fn chain_lhs(a: Carries3<u64>) -> Batch3<u64> {
    (
        xor_seq(a.0.chain.u@[a.0.chain.at as int]@, a.0.chain.carry@),
        xor_seq(a.1.chain.u@[a.1.chain.at as int]@, a.1.chain.carry@),
        xor_seq(a.2.chain.u@[a.2.chain.at as int]@, a.2.chain.carry@),
    )
}

/// The shares that chains multiply the first ones with.
pub open spec fn chain_rhs(a: Carries3<u64>) -> Batch3<u64> {
    (
        xor_seq(a.0.chain.v@[a.0.chain.at as int]@, a.0.chain.carry@),
        xor_seq(a.1.chain.v@[a.1.chain.at as int]@, a.1.chain.carry@),
        xor_seq(a.2.chain.v@[a.2.chain.at as int]@, a.2.chain.carry@),
    )
}

/// A lift of 16-bit shares: the bit-sliced shares and their parts, the round of the carry-save adder,
/// the chains before every round, and the carries in bits and in shares. `adders[r]` stands before
/// round `r` of the chains.
pub struct LiftRun {
    pub planes: Planes3<u64>,
    pub x1: Planes3<u64>,
    pub x2: Planes3<u64>,
    pub x3: Planes3<u64>,
    pub lhs: Planes3<u64>,
    pub rhs: Planes3<u64>,
    pub products: Planes3<u64>,
    pub s: Planes3<u64>,
    pub c: Planes3<u64>,
    pub adders: Seq<Carries3<u64>>,
    pub chain_products: Seq<Batch3<u64>>,
    pub upper: Batch3<u64>,
    pub lower: Batch3<u64>,
    pub bits: Batch3<bool>,
    pub carries: Batch3<u16>,
}

impl LiftRun {
    /// The streams before round `r` of the chains.
    pub open spec fn prfs(self, prf: Prf3, r: nat) -> Prf3
        decreases r,
    {
        if r == 0 {
            let (l0, l1, l2) = self.lhs;
            (
                prf.0.after::<u64>(flat(l0, l0.len()).len() as int),
                prf.1.after::<u64>(flat(l1, l1.len()).len() as int),
                prf.2.after::<u64>(flat(l2, l2.len()).len() as int),
            )
        } else {
            let before = self.prfs(prf, (r - 1) as nat);
            let a = self.adders[r - 1];
            (
                before.0.after::<u64>(a.0.chain.carry@.len() as int),
                before.1.after::<u64>(a.1.chain.carry@.len() as int),
                before.2.after::<u64>(a.2.chain.carry@.len() as int),
            )
        }
    }

    /// The parts of the shares and the round of the carry-save adder.
    pub open spec fn starts(self, prf: Prf3, x: Batch3<u16>) -> bool {
        &&& sliced(x.0, self.planes.0)
        &&& sliced(x.1, self.planes.1)
        &&& sliced(x.2, self.planes.2)
        &&& split_planes(0, self.planes.0, self.x1.0, self.x2.0, self.x3.0)
        &&& split_planes(1, self.planes.1, self.x1.1, self.x2.1, self.x3.1)
        &&& split_planes(2, self.planes.2, self.x1.2, self.x2.2, self.x3.2)
        &&& csa_operands(self.x1.0, self.x2.0, self.x3.0, self.lhs.0, self.rhs.0)
        &&& csa_operands(self.x1.1, self.x2.1, self.x3.1, self.lhs.1, self.rhs.1)
        &&& csa_operands(self.x1.2, self.x2.2, self.x3.2, self.lhs.2, self.rhs.2)
        &&& planes_round(prf, self.lhs, self.rhs, self.products, self.lhs.0.len())
        &&& csa_result(self.x1.0, self.x2.0, self.x3.0, self.products.0, self.s.0, self.c.0)
        &&& csa_result(self.x1.1, self.x2.1, self.x3.1, self.products.1, self.s.1, self.c.1)
        &&& csa_result(self.x1.2, self.x2.2, self.x3.2, self.products.2, self.s.2, self.c.2)
    }

    /// Round `r` of the chains.
    pub open spec fn goes_on(self, prf: Prf3, r: int) -> bool {
        let (before, after) = (self.adders[r], self.adders[r + 1]);
        let products = self.chain_products[r];
        &&& and_ran(self.prfs(prf, r as nat), chain_lhs(before), chain_rhs(before), products)
        &&& chain_moves(before.0.chain, products.0, after.0.chain)
        &&& chain_moves(before.1.chain, products.1, after.1.chain)
        &&& chain_moves(before.2.chain, products.2, after.2.chain)
        &&& after.0.top == before.0.top
        &&& after.1.top == before.1.top
        &&& after.2.top == before.2.top
    }

    /// The last round and the injection of the carries.
    pub open spec fn ends(self, prf: Prf3, session_id: int, n: nat) -> bool {
        let a = self.adders.last();
        let now = self.prfs(prf, (self.adders.len() - 1) as nat);
        &&& and_ran(
            now,
            (a.0.top@, a.1.top@, a.2.top@),
            (a.0.chain.carry@, a.1.chain.carry@, a.2.chain.carry@),
            self.upper,
        )
        &&& self.lower.0 == xor_seq(a.0.top@, a.0.chain.carry@)
        &&& self.lower.1 == xor_seq(a.1.top@, a.1.chain.carry@)
        &&& self.lower.2 == xor_seq(a.2.top@, a.2.chain.carry@)
        &&& self.bits.0 == Seq::new(n, |i: int| lane(self.lower.0, i)) + Seq::new(
            n,
            |i: int| lane(self.upper.0, i),
        )
        &&& self.bits.1 == Seq::new(n, |i: int| lane(self.lower.1, i)) + Seq::new(
            n,
            |i: int| lane(self.upper.1, i),
        )
        &&& self.bits.2 == Seq::new(n, |i: int| lane(self.lower.2, i)) + Seq::new(
            n,
            |i: int| lane(self.upper.2, i),
        )
        &&& injection_ran(
            self.prfs(prf, self.adders.len()),
            session_id,
            self.bits,
            self.carries,
        )
    }

    /// The parties ran the lift on a batch and end with the given 32-bit shares.
    pub open spec fn ran(
        self,
        prf: Prf3,
        session_id: int,
        x: Batch3<u16>,
        out: Batch3<u32>,
    ) -> bool {
        let n = x.0.len();
        let words = words_for(n);
        let first = self.adders[0];
        &&& self.starts(prf, x)
        &&& self.adders.len() == 16
        &&& self.chain_products.len() == 15
        &&& carries_started(self.s.0, self.c.0, words, first.0)
        &&& carries_started(self.s.1, self.c.1, words, first.1)
        &&& carries_started(self.s.2, self.c.2, words, first.2)
        &&& forall|r: int| 0 <= r < 15 ==> #[trigger] self.goes_on(prf, r)
        &&& self.ends(prf, session_id, n)
        &&& out.0 == Seq::new(
            n,
            |i: int| lifted(x.0[i], self.carries.0[i], self.carries.0[n + i]),
        )
        &&& out.1 == Seq::new(
            n,
            |i: int| lifted(x.1[i], self.carries.1[i], self.carries.1[n + i]),
        )
        &&& out.2 == Seq::new(
            n,
            |i: int| lifted(x.2[i], self.carries.2[i], self.carries.2[n + i]),
        )
    }

    /// The streams at the end.
    pub open spec fn end(self, prf: Prf3, n: int) -> Prf3 {
        drawn_on::<u16>(self.prfs(prf, self.adders.len()), 2 * n)
    }
}

/// The bits that the chains add in the lane of an element, the top bit that they keep apart, and
/// what stays the same in all rounds.
spec fn chains_hold(a: Carries3<u64>, x: Batch3<u16>, words: nat, e: int) -> bool {
    let (w, i) = (e / 64, (e % 64) as nat);
    let (b1, b2, b3) = (bits_of(x.0[e].a), bits_of(x.1[e].a), bits_of(x.2[e].a));
    let c = majority_bits(b1, b2, b3);
    &&& chain_on_track(
        (a.0.chain, a.1.chain, a.2.chain),
        xor3_bits(b1, b2, b3),
        doubled(c),
        1,
        w,
        i,
    )
    &&& a.0.chain.carry@.len() == words && a.1.chain.carry@.len() == words
        && a.2.chain.carry@.len() == words
    &&& a.0.top@.len() == words && a.1.top@.len() == words && a.2.top@.len() == words
    &&& shaped3((a.0.chain.u@, a.1.chain.u@, a.2.chain.u@), 16, words)
    &&& shaped3((a.0.chain.v@, a.1.chain.v@, a.2.chain.v@), 16, words)
    &&& consistent(a.0.top@[w], a.1.top@[w], a.2.top@[w])
    &&& lane_bit(a.0.top@[w], a.1.top@[w], a.2.top@[w], i) == c.last()
}

/// The planes of the parts have one shape.
proof fn lemma_parts_shape(run: LiftRun, prf: Prf3, x: Batch3<u16>, n: nat)
    requires
        x.0.len() == n && x.1.len() == n && x.2.len() == n,
        run.starts(prf, x),
    ensures
        shaped3(run.x1, 16, words_for(n)),
        shaped3(run.x2, 16, words_for(n)),
        shaped3(run.x3, 16, words_for(n)),
        shaped3(run.lhs, 16, words_for(n)),
        shaped3(run.rhs, 16, words_for(n)),
        shaped3(run.s, 16, words_for(n)),
        shaped3(run.c, 16, words_for(n)),
{
    lemma_sliced_shape(x, run.planes, n);
    lemma_party_shape(
        0,
        run.planes.0,
        (run.x1.0, run.x2.0, run.x3.0),
        (run.lhs.0, run.rhs.0, run.products.0),
        (run.s.0, run.c.0),
        words_for(n),
    );
    lemma_party_shape(
        1,
        run.planes.1,
        (run.x1.1, run.x2.1, run.x3.1),
        (run.lhs.1, run.rhs.1, run.products.1),
        (run.s.1, run.c.1),
        words_for(n),
    );
    lemma_party_shape(
        2,
        run.planes.2,
        (run.x1.2, run.x2.2, run.x3.2),
        (run.lhs.2, run.rhs.2, run.products.2),
        (run.s.2, run.c.2),
        words_for(n),
    );
}

proof fn lemma_party_shape(
    role: int,
    planes: Seq<Vec<Share<u64>>>,
    x: (Seq<Vec<Share<u64>>>, Seq<Vec<Share<u64>>>, Seq<Vec<Share<u64>>>),
    round: (Seq<Vec<Share<u64>>>, Seq<Vec<Share<u64>>>, Seq<Vec<Share<u64>>>),
    sums: (Seq<Vec<Share<u64>>>, Seq<Vec<Share<u64>>>),
    words: nat,
)
    requires
        planes.len() == 16,
        rectangular(planes, words),
        split_planes(role, planes, x.0, x.1, x.2),
        csa_operands(x.0, x.1, x.2, round.0, round.1),
        csa_result(x.0, x.1, x.2, round.2, sums.0, sums.1),
    ensures
        x.0.len() == 16 && x.1.len() == 16 && x.2.len() == 16,
        rectangular(x.0, words) && rectangular(x.1, words) && rectangular(x.2, words),
        round.0.len() == 16 && round.1.len() == 16,
        rectangular(round.0, words) && rectangular(round.1, words),
        sums.0.len() == 16 && sums.1.len() == 16,
        rectangular(sums.0, words) && rectangular(sums.1, words),
{
    assert forall|q: int| 0 <= q < 16 implies (#[trigger] x.0[q])@.len() == words && x.1[q]@.len()
        == words && x.2[q]@.len() == words by {
        assert(planes[q]@.len() == words);
        assert(split_plane(role, planes[q]@, x.0[q]@, x.1[q]@, x.2[q]@));
    }
    assert forall|q: int| 0 <= q < 16 implies (#[trigger] x.1[q])@.len() == words by {
        assert(x.0[q]@.len() == words);
    }
    assert forall|q: int| 0 <= q < 16 implies (#[trigger] x.2[q])@.len() == words by {
        assert(x.0[q]@.len() == words);
    }
    assert forall|q: int| 0 <= q < 16 implies (#[trigger] round.0[q])@.len() == words by {
        assert(x.0[q]@.len() == words);
    }
    assert forall|q: int| 0 <= q < 16 implies (#[trigger] round.1[q])@.len() == words by {
        assert(x.0[q]@.len() == words);
    }
    assert forall|q: int| 0 <= q < 16 implies (#[trigger] sums.0[q])@.len() == words by {
        assert(x.0[q]@.len() == words);
    }
    assert forall|q: int| 0 <= q < 16 implies (#[trigger] sums.1[q])@.len() == words by {
        assert(x.0[q]@.len() == words);
    }
}

/// What the chains of a party are made of has one shape.
proof fn lemma_chain_shape(
    s: Seq<Vec<Share<u64>>>,
    c: Seq<Vec<Share<u64>>>,
    words: nat,
    a: TwoCarriesAdder<Share<u64>>,
)
    requires
        s.len() == 16 && c.len() == 16,
        rectangular(s, words),
        rectangular(c, words),
        carries_started(s, c, words, a),
    ensures
        a.chain.u@.len() == 16 && a.chain.v@.len() == 16,
        rectangular(a.chain.u@, words),
        rectangular(a.chain.v@, words),
        a.top@.len() == words,
{
    assert forall|j: int| 0 <= j < 16 implies (#[trigger] a.chain.v@[j])@.len() == words by {
        if j > 0 {
            assert(a.chain.v@[j]@ == c[j - 1]@);
            assert(c[j - 1]@.len() == words);
        }
    }
    assert(c[15]@.len() == words);
}

/// Before round `r` the chains are at place `r + 1` and hold the carry into it.
proof fn lemma_chains_track(
    prf: Prf3,
    session_id: int,
    run: LiftRun,
    x: Batch3<u16>,
    out: Batch3<u32>,
    n: nat,
    e: int,
    r: nat,
)
    requires
        all_in_step(prf),
        batch_fits(x, n),
        0 <= e < n,
        run.ran(prf, session_id, x, out),
        r <= 15,
    ensures
        chains_hold(run.adders[r as int], x, words_for(n), e),
        run.adders[r as int].0.chain.at == r + 1,
        all_in_step(run.prfs(prf, r)),
    decreases r,
{
    let (w, i) = (e / 64, (e % 64) as nat);
    let words = words_for(n);
    assert(0 <= w < words);
    if r == 0 {
        let a = run.adders[0];
        lemma_parts_shape(run, prf, x, n);
        lemma_parts_in_lanes(x, run.planes, run.x1, run.x2, run.x3, e);
        lemma_csa_operands_fit(run.x1, run.x2, run.x3, run.lhs, run.rhs, w);
        lemma_shaped_round(prf, run.lhs, run.rhs, run.products, 16, words, w, i);
        lemma_csa_lane(
            run.x1,
            run.x2,
            run.x3,
            run.lhs,
            run.rhs,
            run.products,
            run.s,
            run.c,
            16,
            w,
            i,
        );
        lemma_carries_start(run.s, run.c, words, a, 16, w, i);
        lemma_chain_shape(run.s.0, run.c.0, words, a.0);
        lemma_chain_shape(run.s.1, run.c.1, words, a.1);
        lemma_chain_shape(run.s.2, run.c.2, words, a.2);
    } else {
        let k = r - 1;
        lemma_chains_track(prf, session_id, run, x, out, n, e, k as nat);
        assert(run.goes_on(prf, k as int));
        let (before, after) = (run.adders[k as int], run.adders[k + 1]);
        let now = run.prfs(prf, k as nat);
        let products = run.chain_products[k as int];
        let at = before.0.chain.at as int;
        let chains = (before.0.chain, before.1.chain, before.2.chain);
        assert(fits(u_planes(chains), at, w) && fits(v_planes(chains), at, w));
        let (b1, b2, b3) = (bits_of(x.0[e].a), bits_of(x.1[e].a), bits_of(x.2[e].a));
        let c = majority_bits(b1, b2, b3);
        let (lhs, rhs) = (chain_lhs(before), chain_rhs(before));
        assert(before.0.chain.u@[at]@.len() == words && before.1.chain.u@[at]@.len() == words
            && before.2.chain.u@[at]@.len() == words);
        assert(before.0.chain.v@[at]@.len() == words && before.1.chain.v@[at]@.len() == words
            && before.2.chain.v@[at]@.len() == words);
        let carry = (
            before.0.chain.carry@[w],
            before.1.chain.carry@[w],
            before.2.chain.carry@[w],
        );
        lemma_xor_lane(
            (
                before.0.chain.u@[at]@[w],
                before.1.chain.u@[at]@[w],
                before.2.chain.u@[at]@[w],
            ),
            carry,
            i,
        );
        lemma_xor_lane(
            (
                before.0.chain.v@[at]@[w],
                before.1.chain.v@[at]@[w],
                before.2.chain.v@[at]@[w],
            ),
            carry,
            i,
        );
        lemma_and_lane(now, lhs, rhs, products, words, w, i);
        lemma_chain_round(
            chains,
            (products.0[w], products.1[w], products.2[w]),
            products,
            (after.0.chain, after.1.chain, after.2.chain),
            xor3_bits(b1, b2, b3),
            doubled(c),
            1,
            w,
            i,
        );
        lemma_stay_in_step::<u64>(now.0, now.1, now.2, words as int);
    }
}

/// The rounds of a lift keep the parties in step, also where there is no element at all.
proof fn lemma_chains_in_step(
    prf: Prf3,
    session_id: int,
    run: LiftRun,
    x: Batch3<u16>,
    out: Batch3<u32>,
    n: nat,
    r: nat,
)
    requires
        all_in_step(prf),
        x.0.len() == n && x.1.len() == n && x.2.len() == n,
        run.ran(prf, session_id, x, out),
        r <= 15,
    ensures
        run.adders[r as int].0.chain.carry@.len() == words_for(n),
        run.adders[r as int].1.chain.carry@.len() == words_for(n),
        run.adders[r as int].2.chain.carry@.len() == words_for(n),
        all_in_step(run.prfs(prf, r)),
    decreases r,
{
    if r == 0 {
        lemma_parts_shape(run, prf, x, n);
        lemma_shaped_step(prf, run.lhs, 16, words_for(n));
    } else {
        let k = r - 1;
        lemma_chains_in_step(prf, session_id, run, x, out, n, k as nat);
        assert(run.goes_on(prf, k as int));
        let now = run.prfs(prf, k as nat);
        lemma_stay_in_step::<u64>(now.0, now.1, now.2, words_for(n) as int);
    }
}

/// The operands of a carry-save adder fit together where its summands do.
proof fn lemma_csa_operands_fit(
    x: Planes3<u64>,
    y: Planes3<u64>,
    z: Planes3<u64>,
    lhs: Planes3<u64>,
    rhs: Planes3<u64>,
    w: int,
)
    requires
        fit_at(x, 16, w),
        fit_at(y, 16, w),
        fit_at(z, 16, w),
        csa_operands(x.0, y.0, z.0, lhs.0, rhs.0),
        csa_operands(x.1, y.1, z.1, lhs.1, rhs.1),
        csa_operands(x.2, y.2, z.2, lhs.2, rhs.2),
    ensures
        fit_at(lhs, 16, w),
        fit_at(rhs, 16, w),
{
    assert forall|j: int| 0 <= j < 16 implies #[trigger] fits(lhs, j, w) by {
        assert(fits(x, j, w) && fits(z, j, w));
        assert(lhs.0[j]@ == xor_seq(x.0[j]@, z.0[j]@));
        assert(lhs.1[j]@ == xor_seq(x.1[j]@, z.1[j]@));
        assert(lhs.2[j]@ == xor_seq(x.2[j]@, z.2[j]@));
        lemma_xor_lane(
            (x.0[j]@[w], x.1[j]@[w], x.2[j]@[w]),
            (z.0[j]@[w], z.1[j]@[w], z.2[j]@[w]),
            0,
        );
    }
    assert forall|j: int| 0 <= j < 16 implies #[trigger] fits(rhs, j, w) by {
        assert(fits(x, j, w) && fits(y, j, w) && fits(z, j, w));
        assert(lhs.0[j]@.len() == x.0[j]@.len());
        assert(rhs.0[j]@ == xor_seq(y.0[j]@, z.0[j]@));
        assert(rhs.1[j]@ == xor_seq(y.1[j]@, z.1[j]@));
        assert(rhs.2[j]@ == xor_seq(y.2[j]@, z.2[j]@));
        lemma_xor_lane(
            (y.0[j]@[w], y.1[j]@[w], y.2[j]@[w]),
            (z.0[j]@[w], z.1[j]@[w], z.2[j]@[w]),
            0,
        );
    }
}

/// A lift keeps the values: the 32-bit shares of every element fit together and stand for the 16-bit
/// value. The parties stay in step.
pub proof fn lemma_lift_run_correct(
    prf: Prf3,
    session_id: int,
    x: Batch3<u16>,
    run: LiftRun,
    out: Batch3<u32>,
    n: nat,
)
    requires
        all_in_step(prf),
        session_id >= 0,
        batch_fits(x, n),
        run.ran(prf, session_id, x, out),
    ensures
        batch_fits(out, n),
        forall|e: int|
            0 <= e < n ==> sum_value(#[trigger] out.0[e], out.1[e], out.2[e]) == sum_value(
                x.0[e],
                x.1[e],
                x.2[e],
            ),
        all_in_step(run.end(prf, n as int)),
{
    let now = run.prfs(prf, 16);
    lemma_chains_in_step(prf, session_id, run, x, out, n, 15);
    let before = run.prfs(prf, 15);
    lemma_stay_in_step::<u64>(before.0, before.1, before.2, words_for(n) as int);
    assert(all_in_step(now));
    lemma_carry_bits_fit(prf, session_id, run, x, out, n);
    lemma_injection_correct(now, session_id, run.bits, run.carries, (2 * n) as nat);
    assert forall|e: int| 0 <= e < n implies consistent(
        #[trigger] out.0[e],
        out.1[e],
        out.2[e],
    ) && sum_value(out.0[e], out.1[e], out.2[e]) == sum_value(x.0[e], x.1[e], x.2[e]) by {
        lemma_lift_element(prf, session_id, x, run, out, n, e);
    }
}

/// The shares of the carries in bits fit together.
proof fn lemma_carry_bits_fit(
    prf: Prf3,
    session_id: int,
    run: LiftRun,
    x: Batch3<u16>,
    out: Batch3<u32>,
    n: nat,
)
    requires
        all_in_step(prf),
        batch_fits(x, n),
        run.ran(prf, session_id, x, out),
    ensures
        batch_fits(run.bits, (2 * n) as nat),
{
    assert forall|k: int| 0 <= k < 2 * n implies consistent(
        #[trigger] run.bits.0[k],
        run.bits.1[k],
        run.bits.2[k],
    ) by {
        let e = if k < n {
            k
        } else {
            k - n
        };
        lemma_carry_words(prf, session_id, run, x, out, n, e);
    }
}

/// One element of a lift whose carries were injected correctly.
proof fn lemma_lift_element(
    prf: Prf3,
    session_id: int,
    x: Batch3<u16>,
    run: LiftRun,
    out: Batch3<u32>,
    n: nat,
    e: int,
)
    requires
        all_in_step(prf),
        batch_fits(x, n),
        0 <= e < n,
        run.ran(prf, session_id, x, out),
        batch_fits(run.carries, (2 * n) as nat),
        forall|i: int|
            0 <= i < 2 * n ==> sum_value(
                #[trigger] run.carries.0[i],
                run.carries.1[i],
                run.carries.2[i],
            ) == u16::of_int(bit_int(xor_value(run.bits.0[i], run.bits.1[i], run.bits.2[i]))),
    ensures
        consistent(out.0[e], out.1[e], out.2[e]),
        sum_value(out.0[e], out.1[e], out.2[e]) == sum_value(x.0[e], x.1[e], x.2[e]),
{
    lemma_carry_words(prf, session_id, run, x, out, n, e);
    let (c0, c1, c2) = run.carries;
    let (b0, b1, b2) = run.bits;
    assert(c0.len() == 2 * n && c1.len() == 2 * n && c2.len() == 2 * n);
    assert(consistent(x.0[e], x.1[e], x.2[e]));
    assert(consistent(c0[e], c1[e], c2[e]));
    assert(consistent(c0[n + e], c1[n + e], c2[n + e]));
    assert(b0[n + e] == lane(run.upper.0, e) && b0[e] == lane(run.lower.0, e));
    assert(b1[n + e] == lane(run.upper.1, e) && b1[e] == lane(run.lower.1, e));
    assert(b2[n + e] == lane(run.upper.2, e) && b2[e] == lane(run.lower.2, e));
    assert(u16::of_int(0) == 0 && u16::of_int(1) == 1);
    lemma_lifted_element(
        (x.0[e], x.1[e], x.2[e]),
        run.lower,
        run.upper,
        (c0[e], c1[e], c2[e]),
        (c0[n + e], c1[n + e], c2[n + e]),
        e,
    );
}

/// The words that the adder of a lift ends with hold the two carries of an element.
proof fn lemma_carry_words(
    prf: Prf3,
    session_id: int,
    run: LiftRun,
    x: Batch3<u16>,
    out: Batch3<u32>,
    n: nat,
    e: int,
)
    requires
        all_in_step(prf),
        batch_fits(x, n),
        0 <= e < n,
        run.ran(prf, session_id, x, out),
    ensures
        ({
            let (w, i) = (e / 64, (e % 64) as nat);
            let (b1, b2, b3) = (bits_of(x.0[e].a), bits_of(x.1[e].a), bits_of(x.2[e].a));
            let c = majority_bits(b1, b2, b3);
            let carry = carry_into(xor3_bits(b1, b2, b3), doubled(c), 1, 16);
            let (lower, upper) = (run.lower, run.upper);
            &&& lane_bit(lower.0[w], lower.1[w], lower.2[w], i) == (c.last() != carry)
            &&& lane_bit(upper.0[w], upper.1[w], upper.2[w], i) == (c.last() && carry)
            &&& consistent(lane(lower.0, e), lane(lower.1, e), lane(lower.2, e))
            &&& consistent(lane(upper.0, e), lane(upper.1, e), lane(upper.2, e))
        }),
{
    let (w, i) = (e / 64, (e % 64) as nat);
    let words = words_for(n);
    assert(0 <= w < words);
    lemma_chains_track(prf, session_id, run, x, out, n, e, 15);
    let a = run.adders[15];
    assert(a == run.adders.last());
    let (b1, b2, b3) = (bits_of(x.0[e].a), bits_of(x.1[e].a), bits_of(x.2[e].a));
    let c = majority_bits(b1, b2, b3);
    let now = run.prfs(prf, 15);
    lemma_and_lane(
        now,
        (a.0.top@, a.1.top@, a.2.top@),
        (a.0.chain.carry@, a.1.chain.carry@, a.2.chain.carry@),
        run.upper,
        words,
        w,
        i,
    );
    lemma_carries_end(
        a,
        run.upper,
        run.lower,
        xor3_bits(b1, b2, b3),
        doubled(c),
        c.last(),
        w,
        i,
    );
}

/// What parties that run a signed lift do: they add an offset, lift, and take the offset off again.
pub open spec fn signed_lift_ran(
    prf: Prf3,
    session_id: int,
    x: Batch3<u16>,
    offset: Batch3<u16>,
    run: LiftRun,
    lifted: Batch3<u32>,
    out: Batch3<u32>,
) -> bool {
    let n = x.0.len();
    let c = 0x1_0000_0000 - 0x8000;
    &&& offset.0 == Seq::new(n, |i: int| plus_const(0, x.0[i], 0x8000))
    &&& offset.1 == Seq::new(n, |i: int| plus_const(1, x.1[i], 0x8000))
    &&& offset.2 == Seq::new(n, |i: int| plus_const(2, x.2[i], 0x8000))
    &&& run.ran(prf, session_id, offset, lifted)
    &&& out.0 == Seq::new(n, |i: int| plus_const(0, lifted.0[i], c))
    &&& out.1 == Seq::new(n, |i: int| plus_const(1, lifted.1[i], c))
    &&& out.2 == Seq::new(n, |i: int| plus_const(2, lifted.2[i], c))
}

/// A signed lift keeps every signed number: the 32-bit shares of every element fit together and
/// stand for the signed number that the 16-bit value stands for, whatever the shares. The parties
/// stay in step.
pub proof fn lemma_signed_lift_run_correct(
    prf: Prf3,
    session_id: int,
    x: Batch3<u16>,
    offset: Batch3<u16>,
    run: LiftRun,
    lifted: Batch3<u32>,
    out: Batch3<u32>,
    n: nat,
)
    requires
        all_in_step(prf),
        session_id >= 0,
        batch_fits(x, n),
        signed_lift_ran(prf, session_id, x, offset, run, lifted, out),
    ensures
        batch_fits(out, n),
        forall|e: int|
            0 <= e < n ==> sum_value(#[trigger] out.0[e], out.1[e], out.2[e]) == u32::of_int(
                signed16(sum_value(x.0[e], x.1[e], x.2[e]) as int),
            ),
        all_in_step(run.end(prf, n as int)),
{
    assert forall|e: int| 0 <= e < n implies consistent(
        #[trigger] offset.0[e],
        offset.1[e],
        offset.2[e],
    ) by {
        assert(consistent(x.0[e], x.1[e], x.2[e]));
        lemma_plus_const_value(x.0[e], x.1[e], x.2[e], 0x8000);
    }
    lemma_lift_run_correct(prf, session_id, offset, run, lifted, n);
    assert forall|e: int| 0 <= e < n implies consistent(
        #[trigger] out.0[e],
        out.1[e],
        out.2[e],
    ) && sum_value(out.0[e], out.1[e], out.2[e]) == u32::of_int(
        signed16(sum_value(x.0[e], x.1[e], x.2[e]) as int),
    ) by {
        assert(consistent(x.0[e], x.1[e], x.2[e]));
        assert(consistent(lifted.0[e], lifted.1[e], lifted.2[e]));
        lemma_signed_lift_correct::<u32>(
            (x.0[e], x.1[e], x.2[e]),
            (lifted.0[e], lifted.1[e], lifted.2[e]),
        );
        lemma_plus_const_value(
            lifted.0[e],
            lifted.1[e],
            lifted.2[e],
            0x1_0000_0000 - 0x8000,
        );
    }
}

} // verus!
