//! What comparing and selecting distances gives: whole runs, from shared pairs of distances to the
//! lower distance of each pair.

use crate::fhd_ops::{
    cross_parts, lemma_cross_compare, lemma_cross_mul_correct, lemma_pre_lifted_correct,
    pre_lifted_diff,
};
use crate::ops::{joined, reshared_parts, signed16};
use crate::prf::lemma_stay_in_step;
use crate::ring::{bit_int, IntRing2k};
use crate::ring_lemmas::{bit, lemma_absorb, lemma_absorb_mul, lemma_absorb_sub};
use crate::run_laws::{
    all_in_step, batch_fits, drawn_on, injection_ran, lemma_injection_correct,
    lemma_lift_run_correct, lemma_msb_run_correct, Batch3, LiftRun, MsbRun, Prf3,
};
use crate::select::{distance_parts, selected_distance, DistancePair, DistanceShare};
use crate::selection_laws::{lemma_selection_correct, stand_for_distance};
use crate::shares::{consistent, sum_value, xor_value, Share};
use vstd::prelude::*;

verus! {

/// The pairs of distances that three parties hold.
pub type Pairs3 = (Seq<DistancePair<u32>>, Seq<DistancePair<u32>>, Seq<DistancePair<u32>>);

/// The distances that three parties hold.
pub type Distances3 = (Seq<DistanceShare<u32>>, Seq<DistanceShare<u32>>, Seq<DistanceShare<u32>>);

/// A distance as a fraction: a signed code and a mask that is not negative, both of 16 bits.
pub struct Fraction {
    pub code: int,
    pub mask: int,
}

impl Fraction {
    /// Both parts are in their ranges.
    pub open spec fn wf(self) -> bool {
        -0x8000 <= self.code < 0x8000 && 0 <= self.mask < 0x8000
    }

    /// The elements that stand for the two parts.
    pub open spec fn elements(self) -> (u32, u32) {
        (u32::of_int(self.code), u32::of_int(self.mask))
    }

    /// Code by mask is smaller than for the other one, which is then the lower distance.
    pub open spec fn less(self, other: Fraction) -> bool {
        self.code * other.mask < other.code * self.mask
    }
}

/// The lower one of two distances: the one with the greater fraction, and the second one if they
/// are the same.
pub open spec fn lower_of(first: Fraction, second: Fraction) -> Fraction {
    if second.less(first) {
        first
    } else {
        second
    }
}

/// The lower distance is no greater than either one: `(mask - code) / mask` is no greater.
pub proof fn lemma_lower_is_least(first: Fraction, second: Fraction)
    ensures
        ({
            let low = lower_of(first, second);
            &&& low == first || low == second
            &&& (low.mask - low.code) * first.mask <= (first.mask - first.code) * low.mask
            &&& (low.mask - low.code) * second.mask <= (second.mask - second.code) * low.mask
        }),
{
    let (a, b, c, d) = (first.code, first.mask, second.code, second.mask);
    assert((b - a) * d == b * d - a * d && (d - c) * b == b * d - c * b) by (nonlinear_arith);
}

/// The pairs of three parties stand for the given fractions.
pub open spec fn pairs_stand_for(x: Pairs3, values: Seq<(Fraction, Fraction)>) -> bool {
    let n = values.len();
    &&& x.0.len() == n && x.1.len() == n && x.2.len() == n
    &&& forall|k: int|
        0 <= k < n ==> {
            let (first, second) = #[trigger] values[k];
            &&& first.wf() && second.wf()
            &&& stand_for_distance((x.0[k].0, x.1[k].0, x.2[k].0), first.elements())
            &&& stand_for_distance((x.0[k].1, x.1[k].1, x.2[k].1), second.elements())
        }
}

/// The cross products of pairs that the parties hold after the round.
pub open spec fn cross_products(prf: Prf3, x: Pairs3) -> Batch3<u32> {
    let (c0, c1, c2) = (
        reshared_parts(prf.0, cross_parts(x.0)),
        reshared_parts(prf.1, cross_parts(x.1)),
        reshared_parts(prf.2, cross_parts(x.2)),
    );
    (joined(c0, c2), joined(c1, c0), joined(c2, c1))
}

/// The distances that the parties hold after the round of a selection.
pub open spec fn selections(prf: Prf3, x: Pairs3, control: Batch3<u32>) -> Distances3 {
    let n = x.0.len();
    let (c0, c1, c2) = (
        reshared_parts(prf.0, distance_parts(x.0, control.0)),
        reshared_parts(prf.1, distance_parts(x.1, control.1)),
        reshared_parts(prf.2, distance_parts(x.2, control.2)),
    );
    (
        Seq::new(n, |k: int| selected_distance(x.0[k], joined(c0, c2), k)),
        Seq::new(n, |k: int| selected_distance(x.1[k], joined(c1, c0), k)),
        Seq::new(n, |k: int| selected_distance(x.2[k], joined(c2, c1), k)),
    )
}

/// The comparison of pairs of distances: the extraction of the top bits of the cross products, the
/// bits, and the bits as numbers.
pub struct CompareRun {
    pub extraction: MsbRun<u32>,
    pub bits: Batch3<bool>,
    pub control: Batch3<u32>,
}

impl CompareRun {
    /// The streams before the injection.
    pub open spec fn before_injection(self, prf: Prf3, n: int) -> Prf3 {
        self.extraction.end(drawn_on::<u32>(prf, n), n)
    }

    /// The streams after the comparison.
    pub open spec fn end(self, prf: Prf3, n: int) -> Prf3 {
        drawn_on::<u32>(self.before_injection(prf, n), n)
    }

    /// The parties compared the pairs.
    pub open spec fn ran(self, prf: Prf3, session_id: int, x: Pairs3) -> bool {
        let n = x.0.len() as int;
        &&& self.extraction.ran(drawn_on::<u32>(prf, n), cross_products(prf, x), self.bits)
        &&& injection_ran(self.before_injection(prf, n), session_id, self.bits, self.control)
    }
}

/// The parties share the cross product of one pair.
proof fn lemma_cross_product(prf: Prf3, x: Pairs3, values: Seq<(Fraction, Fraction)>, k: int)
    requires
        all_in_step(prf),
        pairs_stand_for(x, values),
        0 <= k < values.len(),
    ensures
        ({
            let d = cross_products(prf, x);
            let (first, second) = values[k];
            &&& consistent(d.0[k], d.1[k], d.2[k])
            &&& bit(sum_value(d.0[k], d.1[k], d.2[k]), 31) == second.less(first)
        }),
{
    let (first, second) = values[k];
    lemma_cross_mul_correct(prf, x, k);
    let (c1, m1) = (u32::of_int(first.code).val(), u32::of_int(first.mask).val());
    let (c2, m2) = (u32::of_int(second.code).val(), u32::of_int(second.mask).val());
    lemma_element_product(second.code, first.mask);
    lemma_element_product(first.code, second.mask);
    let (a, b) = (second.code * first.mask, first.code * second.mask);
    lemma_absorb::<u32>(c2 * m1, -u32::of_int(c1 * m2).val());
    lemma_absorb_sub::<u32>(c1 * m2, c2 * m1);
    lemma_absorb::<u32>(a, -u32::of_int(b).val());
    lemma_absorb_sub::<u32>(b, a);
    assert(u32::of_int(c2 * m1 - c1 * m2) == u32::of_int(a - b));
    lemma_cross_compare(first.code, first.mask, second.code, second.mask);
}

/// The product of two elements stands for the product of the integers.
proof fn lemma_element_product(x: int, y: int)
    ensures
        u32::of_int(u32::of_int(x).val() * u32::of_int(y).val()) == u32::of_int(x * y),
{
    let m = u32::of_int(y).val();
    lemma_absorb_mul::<u32>(x, m);
    lemma_absorb_mul::<u32>(y, x);
    assert(x * m == m * x && x * y == y * x) by (nonlinear_arith);
}

/// A comparison gives, for every pair, shares of the number one where the second fraction is the
/// smaller one, and of zero elsewhere. The parties stay in step.
pub proof fn lemma_compare_run_correct(
    prf: Prf3,
    session_id: int,
    x: Pairs3,
    values: Seq<(Fraction, Fraction)>,
    run: CompareRun,
)
    requires
        all_in_step(prf),
        session_id >= 0,
        pairs_stand_for(x, values),
        run.ran(prf, session_id, x),
    ensures
        batch_fits(run.bits, values.len()),
        forall|k: int|
            0 <= k < values.len() ==> xor_value(
                #[trigger] run.bits.0[k],
                run.bits.1[k],
                run.bits.2[k],
            ) == values[k].1.less(values[k].0),
        batch_fits(run.control, values.len()),
        forall|k: int|
            0 <= k < values.len() ==> sum_value(
                #[trigger] run.control.0[k],
                run.control.1[k],
                run.control.2[k],
            ) == u32::of_int(bit_int(values[k].1.less(values[k].0))),
        all_in_step(run.end(prf, values.len() as int)),
{
    let n = values.len();
    let d = cross_products(prf, x);
    assert forall|k: int| 0 <= k < n implies consistent(#[trigger] d.0[k], d.1[k], d.2[k])
        && bit(sum_value(d.0[k], d.1[k], d.2[k]), 31) == values[k].1.less(values[k].0) by {
        lemma_cross_product(prf, x, values, k);
    }
    lemma_stay_in_step::<u32>(prf.0, prf.1, prf.2, n as int);
    lemma_msb_run_correct(drawn_on::<u32>(prf, n as int), d, run.extraction, run.bits, n);
    assert forall|k: int| 0 <= k < n implies xor_value(
        #[trigger] run.bits.0[k],
        run.bits.1[k],
        run.bits.2[k],
    ) == values[k].1.less(values[k].0) by {
        assert(consistent(d.0[k], d.1[k], d.2[k]));
        assert(bit(sum_value(d.0[k], d.1[k], d.2[k]), 31) == values[k].1.less(values[k].0));
    }
    lemma_injection_correct(
        run.before_injection(prf, n as int),
        session_id,
        run.bits,
        run.control,
        n,
    );
    assert forall|k: int| 0 <= k < n implies sum_value(
        #[trigger] run.control.0[k],
        run.control.1[k],
        run.control.2[k],
    ) == u32::of_int(bit_int(values[k].1.less(values[k].0))) by {
        assert(xor_value(run.bits.0[k], run.bits.1[k], run.bits.2[k]) == values[k].1.less(
            values[k].0,
        ));
    }
}

/// The minimum of pairs gives the lower distance of every pair: the parties compare the pairs and
/// select by the result, and the shares that they end with fit together and stand for the lower
/// one of the two distances.
pub proof fn lemma_min_run_correct(
    prf: Prf3,
    session_id: int,
    x: Pairs3,
    values: Seq<(Fraction, Fraction)>,
    run: CompareRun,
    k: int,
)
    requires
        all_in_step(prf),
        session_id >= 0,
        pairs_stand_for(x, values),
        run.ran(prf, session_id, x),
        0 <= k < values.len(),
    ensures
        ({
            let out = selections(run.end(prf, values.len() as int), x, run.control);
            stand_for_distance(
                (out.0[k], out.1[k], out.2[k]),
                lower_of(values[k].0, values[k].1).elements(),
            )
        }),
{
    let (first, second) = values[k];
    lemma_compare_run_correct(prf, session_id, x, values, run);
    let c = (run.control.0[k], run.control.1[k], run.control.2[k]);
    assert(consistent(c.0, c.1, c.2));
    lemma_selection_correct(
        run.end(prf, values.len() as int),
        x,
        run.control,
        k,
        second.less(first),
        first.elements(),
        second.elements(),
    );
}

/// A comparison of raw dot products with a threshold: the lift of the mask shares and the extraction
/// of the top bits of the differences.
pub struct ThresholdRun {
    pub lift: LiftRun,
    pub masks: Batch3<u32>,
    pub extraction: MsbRun<u32>,
}

impl ThresholdRun {
    /// The differences that the parties hold.
    pub open spec fn diffs(self, codes: Batch3<u16>, a: u32) -> Batch3<u32> {
        let n = codes.0.len();
        (
            Seq::new(n, |k: int| pre_lifted_diff(codes.0[k], self.masks.0[k], a)),
            Seq::new(n, |k: int| pre_lifted_diff(codes.1[k], self.masks.1[k], a)),
            Seq::new(n, |k: int| pre_lifted_diff(codes.2[k], self.masks.2[k], a)),
        )
    }

    /// The parties lifted the masks and compared, and end with the given bit shares.
    pub open spec fn ran(
        self,
        prf: Prf3,
        session_id: int,
        codes: Batch3<u16>,
        masks: Batch3<u16>,
        a: u32,
        bits: Batch3<bool>,
    ) -> bool {
        &&& self.lift.ran(prf, session_id, masks, self.masks)
        &&& self.extraction.ran(
            self.lift.end(prf, masks.0.len() as int),
            self.diffs(codes, a),
            bits,
        )
    }
}

/// A bit tells whether `code / mask` is below `a / 2^16`, wherever `code * 2^16 - mask * a` fits 32
/// bits.
pub open spec fn tells_below(code: int, mask: int, a: u32, b: bool) -> bool {
    -0x8000_0000 <= code * 0x1_0000 - mask * a < 0x8000_0000 ==> b == (code * 0x1_0000 < mask * a)
}

/// One comparison: the shares of the difference fit together, and their top bit tells.
proof fn lemma_threshold_place(
    c: (Share<u16>, Share<u16>, Share<u16>),
    m: (Share<u32>, Share<u32>, Share<u32>),
    a: u32,
    mask: u16,
)
    requires
        consistent(c.0, c.1, c.2),
        consistent(m.0, m.1, m.2),
        sum_value(m.0, m.1, m.2) == mask,
    ensures
        ({
            let (r0, r1, r2) = (
                pre_lifted_diff(c.0, m.0, a),
                pre_lifted_diff(c.1, m.1, a),
                pre_lifted_diff(c.2, m.2, a),
            );
            &&& consistent(r0, r1, r2)
            &&& tells_below(
                signed16(sum_value(c.0, c.1, c.2) as int),
                mask as int,
                a,
                bit(sum_value(r0, r1, r2), 31),
            )
        }),
{
    lemma_pre_lifted_correct(c, m, a, signed16(sum_value(c.0, c.1, c.2) as int), mask as int);
}

/// The differences of all comparisons.
proof fn lemma_threshold_places(
    codes: Batch3<u16>,
    masks: Batch3<u16>,
    a: u32,
    run: ThresholdRun,
    n: nat,
)
    requires
        batch_fits(codes, n),
        batch_fits(run.masks, n),
        forall|k: int|
            0 <= k < n ==> sum_value(#[trigger] run.masks.0[k], run.masks.1[k], run.masks.2[k])
                == sum_value(masks.0[k], masks.1[k], masks.2[k]),
    ensures
        batch_fits(run.diffs(codes, a), n),
        forall|k: int|
            0 <= k < n ==> tells_below(
                signed16(sum_value(codes.0[k], codes.1[k], codes.2[k]) as int),
                sum_value(masks.0[k], masks.1[k], masks.2[k]) as int,
                a,
                bit(
                    sum_value(
                        #[trigger] run.diffs(codes, a).0[k],
                        run.diffs(codes, a).1[k],
                        run.diffs(codes, a).2[k],
                    ),
                    31,
                ),
            ),
{
    let d = run.diffs(codes, a);
    assert forall|k: int| 0 <= k < n implies consistent(#[trigger] d.0[k], d.1[k], d.2[k])
        && tells_below(
        signed16(sum_value(codes.0[k], codes.1[k], codes.2[k]) as int),
        sum_value(masks.0[k], masks.1[k], masks.2[k]) as int,
        a,
        bit(sum_value(d.0[k], d.1[k], d.2[k]), 31),
    ) by {
        let c = (codes.0[k], codes.1[k], codes.2[k]);
        let m = (run.masks.0[k], run.masks.1[k], run.masks.2[k]);
        assert(consistent(c.0, c.1, c.2) && consistent(m.0, m.1, m.2));
        lemma_threshold_place(c, m, a, sum_value(masks.0[k], masks.1[k], masks.2[k]));
    }
}

/// A comparison of raw dot products gives, for every pair of a signed code and a mask, whether
/// `code / mask` is below `a / 2^16`, that is whether the distance is above the threshold, wherever
/// `code * 2^16 - mask * a` fits 32 bits. With a quarter of `2^16` this is whether four times the
/// code is below the mask. The parties stay in step.
pub proof fn lemma_threshold_run_correct(
    prf: Prf3,
    session_id: int,
    codes: Batch3<u16>,
    masks: Batch3<u16>,
    a: u32,
    run: ThresholdRun,
    bits: Batch3<bool>,
    n: nat,
)
    requires
        all_in_step(prf),
        session_id >= 0,
        batch_fits(codes, n),
        batch_fits(masks, n),
        run.ran(prf, session_id, codes, masks, a, bits),
    ensures
        batch_fits(bits, n),
        forall|k: int|
            0 <= k < n ==> tells_below(
                signed16(sum_value(codes.0[k], codes.1[k], codes.2[k]) as int),
                sum_value(masks.0[k], masks.1[k], masks.2[k]) as int,
                a,
                xor_value(#[trigger] bits.0[k], bits.1[k], bits.2[k]),
            ),
        all_in_step(run.extraction.end(run.lift.end(prf, n as int), n as int)),
{
    let d = run.diffs(codes, a);
    let after = run.lift.end(prf, n as int);
    lemma_lift_run_correct(prf, session_id, masks, run.lift, run.masks, n);
    lemma_threshold_places(codes, masks, a, run, n);
    lemma_threshold_bits(after, d, run.extraction, bits, n);
    assert forall|k: int| 0 <= k < n implies tells_below(
        signed16(sum_value(codes.0[k], codes.1[k], codes.2[k]) as int),
        sum_value(masks.0[k], masks.1[k], masks.2[k]) as int,
        a,
        xor_value(#[trigger] bits.0[k], bits.1[k], bits.2[k]),
    ) by {
        let first = d.0[k];
        assert(xor_value(bits.0[k], bits.1[k], bits.2[k]) == bit(
            sum_value(d.0[k], d.1[k], d.2[k]),
            31,
        ));
    }
}

/// The extraction of the top bits of differences.
proof fn lemma_threshold_bits(
    prf: Prf3,
    d: Batch3<u32>,
    extraction: MsbRun<u32>,
    bits: Batch3<bool>,
    n: nat,
)
    requires
        all_in_step(prf),
        batch_fits(d, n),
        extraction.ran(prf, d, bits),
    ensures
        batch_fits(bits, n),
        forall|k: int|
            0 <= k < n ==> xor_value(#[trigger] bits.0[k], bits.1[k], bits.2[k]) == bit(
                sum_value(d.0[k], d.1[k], d.2[k]),
                31,
            ),
        all_in_step(extraction.end(prf, n as int)),
{
    lemma_msb_run_correct(prf, d, extraction, bits, n);
}

} // verus!
