//! Comparing fractional distances.
//!
//! A distance is a fraction of two dot products. It is compared to a threshold, or to another
//! distance, by the sign of a difference of products, which is its top bit in the 32-bit ring.

use crate::extract_msb::{lifted_by, mul_lift_2k};
use crate::message::ProtocolError;
use crate::ops::{
    galois_ring_to_rep3_send, joined, lemma_reshare_correct, reshare_products_send, reshared_parts,
};
use crate::prf::{in_step, Prf, PrfDraw};
use crate::ring::IntRing2k;
use crate::ring_lemmas::{
    bit, lemma_absorb, lemma_absorb_sub, lemma_reduce, lemma_shift, lemma_sum3,
};
use crate::select::{DistancePair, DistanceShare};
use crate::shares::{
    consistent, lemma_minus_value, lemma_product_value, lemma_times_value, sum_value, Share,
};
use vstd::arithmetic::div_mod::*;
use vstd::arithmetic::power2::*;
use vstd::prelude::*;

verus! {

/// Code and mask shares of selected comparisons.
pub type FhdDotSharePair = (Vec<Share<u16>>, Vec<Share<u16>>);

/// Refreshed dot products, of which shares are made only where they are asked for. Code and mask
/// of a comparison stand side by side.
#[derive(Debug)]
pub struct FusedFhdDotShares {
    pub local: Vec<u16>,
    pub previous: Vec<u16>,
}

impl FusedFhdDotShares {
    /// Both parts of every share are there.
    pub open spec fn wf(&self) -> bool {
        self.local@.len() == self.previous@.len()
    }

    /// Number of comparisons.
    pub open spec fn count(&self) -> int {
        self.local@.len() as int / 2
    }

    /// The share at a place.
    pub open spec fn share_at(&self, i: int) -> Share<u16> {
        Share { a: self.local@[i], b: self.previous@[i] }
    }

    /// Number of comparisons.
    pub fn len(&self) -> (r: usize)
        ensures
            r == self.count(),
            r == self.local@.len() / 2,
    {
        self.local.len() / 2
    }

    /// Whether there is nothing.
    pub fn is_empty(&self) -> (r: bool)
        ensures
            r == (self.local@.len() == 0),
    {
        self.local.len() == 0
    }

    /// The code and mask shares of the given comparisons, in the order of the indices. Fails if an
    /// index is out of bounds.
    pub fn select(&self, indices: &[usize]) -> (r: Result<FhdDotSharePair, ProtocolError>)
        requires
            self.wf(),
        ensures
            if forall|i: int| 0 <= i < indices@.len() ==> #[trigger] indices@[i] < self.count() {
                &&& r is Ok
                &&& (r->Ok_0).0@ == indices@.map_values(|x: usize| self.share_at(2 * x))
                &&& (r->Ok_0).1@ == indices@.map_values(|x: usize| self.share_at(2 * x + 1))
            } else {
                r == Err::<FhdDotSharePair, ProtocolError>(ProtocolError::IndexOutOfBounds)
            },
            r is Ok ==> {
                let (codes, masks) = r->Ok_0;
                &&& codes@.len() == indices@.len() && masks@.len() == indices@.len()
                &&& forall|j: int|
                    0 <= j < indices@.len() ==> 2 * (#[trigger] indices@[j]) + 1 < self.local@.len()
                        && codes@[j].a == self.local@[2 * indices@[j]] && codes@[j].b
                        == self.previous@[2 * indices@[j]] && masks@[j].a == self.local@[2
                        * indices@[j] + 1] && masks@[j].b == self.previous@[2 * indices@[j] + 1]
            },
    {
        let mut codes: Vec<Share<u16>> = Vec::new();
        let mut masks: Vec<Share<u16>> = Vec::new();
        let total: usize = self.local.len();
        let count: usize = self.len();
        let mut i: usize = 0;
        while i < indices.len()
            invariant
                self.wf(),
                total == self.local@.len(),
                count == self.count(),
                i <= indices@.len(),
                codes@.len() == i,
                masks@.len() == i,
                forall|j: int| 0 <= j < i ==> #[trigger] indices@[j] < count,
                forall|j: int|
                    0 <= j < i ==> #[trigger] codes@[j] == self.share_at(2 * indices@[j]),
                forall|j: int|
                    0 <= j < i ==> #[trigger] masks@[j] == self.share_at(2 * indices@[j] + 1),
            decreases indices@.len() - i,
        {
            let index: usize = indices[i];
            if index >= count {
                assert(!(indices@[i as int] < self.count()));
                return Err(ProtocolError::IndexOutOfBounds);
            }
            let offset: usize = index * 2;
            codes.push(Share { a: self.local[offset], b: self.previous[offset] });
            masks.push(Share { a: self.local[offset + 1], b: self.previous[offset + 1] });
            i += 1;
        }
        proof {
            assert(codes@ =~= indices@.map_values(|x: usize| self.share_at(2 * x)));
            assert(masks@ =~= indices@.map_values(|x: usize| self.share_at(2 * x + 1)));
        }
        Ok((codes, masks))
    }

    /// The code and mask shares of all comparisons.
    pub fn split(&self) -> (r: FhdDotSharePair)
        requires
            self.wf(),
        ensures
            r.0@ == Seq::new(self.count() as nat, |i: int| self.share_at(2 * i)),
            r.1@ == Seq::new(self.count() as nat, |i: int| self.share_at(2 * i + 1)),
            r.0@.len() == self.local@.len() / 2 && r.1@.len() == self.local@.len() / 2,
            forall|j: int|
                0 <= j < r.0@.len() ==> (#[trigger] r.0@[j]).a == self.local@[2 * j] && r.0@[j].b
                    == self.previous@[2 * j] && r.1@[j].a == self.local@[2 * j + 1] && r.1@[j].b
                    == self.previous@[2 * j + 1],
    {
        let mut codes: Vec<Share<u16>> = Vec::new();
        let mut masks: Vec<Share<u16>> = Vec::new();
        let total: usize = self.local.len();
        let count: usize = self.len();
        let mut i: usize = 0;
        while i < count
            invariant
                self.wf(),
                total == self.local@.len(),
                count == self.count(),
                i <= count,
                codes@.len() == i,
                masks@.len() == i,
                forall|j: int| 0 <= j < i ==> #[trigger] codes@[j] == self.share_at(2 * j),
                forall|j: int| 0 <= j < i ==> #[trigger] masks@[j] == self.share_at(2 * j + 1),
            decreases count - i,
        {
            let offset: usize = i * 2;
            codes.push(Share { a: self.local[offset], b: self.previous[offset] });
            masks.push(Share { a: self.local[offset + 1], b: self.previous[offset + 1] });
            i += 1;
        }
        proof {
            assert(codes@ =~= Seq::new(count as nat, |j: int| self.share_at(2 * j)));
            assert(masks@ =~= Seq::new(count as nat, |j: int| self.share_at(2 * j + 1)));
        }
        (codes, masks)
    }
}

/// `code * 2^16 - mask * a` for a distance: below zero exactly if the distance is above the
/// threshold.
pub open spec fn threshold_diff(d: DistanceShare<u32>, a: u32) -> Share<u32> {
    d.code_dot.times_spec(0x1_0000u32).minus_spec(d.mask_dot.times_spec(a))
}

/// The differences whose top bits tell which distances are above a threshold. `a` is the threshold
/// constant `(1 - 2t) * 2^16`.
pub fn fhd_greater_than_threshold(distances: &[DistanceShare<u32>], a: u32) -> (r: Vec<Share<u32>>)
    ensures
        r@ == Seq::new(distances@.len(), |i: int| threshold_diff(distances@[i], a)),
        r@.len() == distances@.len(),
        forall|i: int|
            0 <= i < r@.len() ==> (#[trigger] r@[i]).a == (distances@[i].code_dot.a * 0x1_0000
                - distances@[i].mask_dot.a * a) % 0x1_0000_0000 && r@[i].b == (
            distances@[i].code_dot.b * 0x1_0000 - distances@[i].mask_dot.b * a) % 0x1_0000_0000,
{
    let mut out: Vec<Share<u32>> = Vec::new();
    let mut i: usize = 0;
    while i < distances.len()
        invariant
            i <= distances@.len(),
            out@.len() == i,
            forall|j: int| 0 <= j < i ==> #[trigger] out@[j] == threshold_diff(distances@[j], a),
        decreases distances@.len() - i,
    {
        let d: DistanceShare<u32> = distances[i];
        let x: Share<u32> = d.mask_dot.times(a);
        let y: Share<u32> = d.code_dot.times(0x1_0000u32);
        out.push(y.minus(x));
        i += 1;
    }
    assert(out@ =~= Seq::new(distances@.len(), |j: int| threshold_diff(distances@[j], a)));
    proof {
        assert forall|i: int| 0 <= i < out@.len() implies (#[trigger] out@[i]).a == (
        distances@[i].code_dot.a * 0x1_0000 - distances@[i].mask_dot.a * a) % 0x1_0000_0000
            && out@[i].b == (distances@[i].code_dot.b * 0x1_0000 - distances@[i].mask_dot.b * a)
            % 0x1_0000_0000 by {
            let d = distances@[i];
            lemma_sub_mod_noop(d.code_dot.a * 0x1_0000, d.mask_dot.a * a, 0x1_0000_0000);
            lemma_sub_mod_noop(d.code_dot.b * 0x1_0000, d.mask_dot.b * a, 0x1_0000_0000);
        }
    }
    out
}

/// `code * 2^16 - mask * a` for a 16-bit code share and a lifted mask share.
pub open spec fn pre_lifted_diff(code: Share<u16>, mask: Share<u32>, a: u32) -> Share<u32> {
    lifted_by(code, 16).minus_spec(mask.times_spec(a))
}

/// The differences whose top bits tell which distances are above a threshold, from 16-bit code
/// shares and lifted mask shares. Fails unless there are as many of both.
pub fn fhd_greater_than_threshold_pre_lifted_masks(
    code_dots: &[Share<u16>],
    mask_dots: &[Share<u32>],
    a: u32,
) -> (r: Result<Vec<Share<u32>>, ProtocolError>)
    ensures
        if code_dots@.len() == mask_dots@.len() {
            &&& r is Ok
            &&& r->Ok_0@ == Seq::new(
                code_dots@.len(),
                |i: int| pre_lifted_diff(code_dots@[i], mask_dots@[i], a),
            )
        } else {
            r == Err::<Vec<Share<u32>>, ProtocolError>(ProtocolError::LengthMismatch)
        },
        r is Ok ==> r->Ok_0@.len() == code_dots@.len() && forall|i: int|
            0 <= i < code_dots@.len() ==> (#[trigger] r->Ok_0@[i]).a == (code_dots@[i].a * 0x1_0000
                - mask_dots@[i].a * a) % 0x1_0000_0000 && r->Ok_0@[i].b == (code_dots@[i].b
                * 0x1_0000 - mask_dots@[i].b * a) % 0x1_0000_0000,
{
    if code_dots.len() != mask_dots.len() {
        return Err(ProtocolError::LengthMismatch);
    }
    let mut out: Vec<Share<u32>> = Vec::new();
    let mut i: usize = 0;
    while i < code_dots.len()
        invariant
            code_dots@.len() == mask_dots@.len(),
            i <= code_dots@.len(),
            out@.len() == i,
            forall|j: int|
                0 <= j < i ==> #[trigger] out@[j] == pre_lifted_diff(
                    code_dots@[j],
                    mask_dots@[j],
                    a,
                ),
        decreases code_dots@.len() - i,
    {
        let code: Share<u32> = mul_lift_2k::<16>(&code_dots[i]);
        out.push(code.minus(mask_dots[i].times(a)));
        i += 1;
    }
    assert(out@ =~= Seq::new(
        code_dots@.len(),
        |j: int| pre_lifted_diff(code_dots@[j], mask_dots@[j], a),
    ));
    proof {
        lemma2_to64();
        assert forall|i: int| 0 <= i < out@.len() implies (#[trigger] out@[i]).a == (code_dots@[i].a
            * 0x1_0000 - mask_dots@[i].a * a) % 0x1_0000_0000 && out@[i].b == (code_dots@[i].b
            * 0x1_0000 - mask_dots@[i].b * a) % 0x1_0000_0000 by {
            let (c, m) = (code_dots@[i], mask_dots@[i]);
            lemma_sub_mod_noop(c.a * 0x1_0000, m.a * a, 0x1_0000_0000);
            lemma_sub_mod_noop(c.b * 0x1_0000, m.b * a, 0x1_0000_0000);
        }
    }
    Ok(out)
}

/// The threshold constant of the anonymous statistics: a quarter of `2^16`, for the distance 0.375.
pub const ANON_STATS_A: u32 = 0x4000;

/// The differences whose top bits tell which distances are above the threshold of the anonymous
/// statistics, from 16-bit code shares and lifted mask shares. Fails unless there are as many of
/// both.
pub fn fhd_greater_than_anon_stats_threshold(
    code_dots: &[Share<u16>],
    mask_dots: &[Share<u32>],
) -> (r: Result<Vec<Share<u32>>, ProtocolError>)
    ensures
        if code_dots@.len() == mask_dots@.len() {
            &&& r is Ok
            &&& r->Ok_0@ == Seq::new(
                code_dots@.len(),
                |i: int| pre_lifted_diff(code_dots@[i], mask_dots@[i], 0x4000u32),
            )
        } else {
            r == Err::<Vec<Share<u32>>, ProtocolError>(ProtocolError::LengthMismatch)
        },
        r is Ok ==> r->Ok_0@.len() == code_dots@.len() && forall|i: int|
            0 <= i < code_dots@.len() ==> (#[trigger] r->Ok_0@[i]).a == (code_dots@[i].a * 0x1_0000
                - mask_dots@[i].a * 0x4000) % 0x1_0000_0000 && r->Ok_0@[i].b == (code_dots@[i].b
                * 0x1_0000 - mask_dots@[i].b * 0x4000) % 0x1_0000_0000,
{
    fhd_greater_than_threshold_pre_lifted_masks(code_dots, mask_dots, ANON_STATS_A)
}

/// First half of refreshing interleaved dot products: the masked products, which go to the next
/// party. Fails unless code and mask come in pairs.
pub fn fhd_greater_than_anon_stats_from_galois(prf: &mut Prf, interleaved_dots: &[u16]) -> (r:
    Result<Vec<u16>, ProtocolError>)
    ensures
        if interleaved_dots@.len() % 2 == 0 {
            &&& r is Ok
            &&& r->Ok_0@ == reshared_parts(*old(prf), interleaved_dots@)
            &&& *final(prf) == old(prf).after::<u16>(interleaved_dots@.len() as int)
        } else {
            &&& r == Err::<Vec<u16>, ProtocolError>(ProtocolError::OddLength)
            &&& *final(prf) == *old(prf)
        },
{
    if interleaved_dots.len() % 2 != 0 {
        return Err(ProtocolError::OddLength);
    }
    Ok(galois_ring_to_rep3_send(prf, interleaved_dots))
}

/// Second half of refreshing interleaved dot products: the own masked products and those of the
/// previous party.
pub fn fuse_dots(local: Vec<u16>, previous: Vec<u16>) -> (r: Result<
    FusedFhdDotShares,
    ProtocolError,
>)
    ensures
        if local@.len() == previous@.len() {
            &&& r == Ok::<FusedFhdDotShares, ProtocolError>(FusedFhdDotShares { local, previous })
            &&& r->Ok_0.wf()
        } else {
            r == Err::<FusedFhdDotShares, ProtocolError>(ProtocolError::LengthMismatch)
        },
{
    if local.len() != previous.len() {
        return Err(ProtocolError::LengthMismatch);
    }
    Ok(FusedFhdDotShares { local, previous })
}

/// The local part of `code_2 * mask_1 - code_1 * mask_2` for two distances.
pub open spec fn cross_part(d: DistancePair<u32>) -> u32 {
    u32::of_int(
        d.1.code_dot.product_spec(d.0.mask_dot).val() - d.0.code_dot.product_spec(
            d.1.mask_dot,
        ).val(),
    )
}

/// The local parts of all pairs.
pub open spec fn cross_parts(distances: Seq<DistancePair<u32>>) -> Seq<u32> {
    Seq::new(distances.len(), |i: int| cross_part(distances[i]))
}

/// First half of the cross products of pairs of distances: the masked local parts, which go to the
/// next party.
pub fn cross_mul(prf: &mut Prf, distances: &[DistancePair<u32>]) -> (r: Vec<u32>)
    ensures
        r@ == reshared_parts(*old(prf), cross_parts(distances@)),
        *final(prf) == old(prf).after::<u32>(distances@.len() as int),
        r@.len() == distances@.len(),
        forall|i: int|
            0 <= i < r@.len() ==> #[trigger] r@[i] == u32::of_int(
                u32::drawn(old(prf).my_prf.advanced(i)) - u32::drawn(
                    old(prf).prev_prf.advanced(i),
                ) + u32::of_int(
                    distances@[i].1.code_dot.product_spec(distances@[i].0.mask_dot)
                        - distances@[i].0.code_dot.product_spec(distances@[i].1.mask_dot),
                ),
            ),
{
    let mut parts: Vec<u32> = Vec::new();
    let mut i: usize = 0;
    while i < distances.len()
        invariant
            i <= distances@.len(),
            parts@.len() == i,
            forall|j: int| 0 <= j < i ==> #[trigger] parts@[j] == cross_part(distances@[j]),
        decreases distances@.len() - i,
    {
        let (d1, d2): (DistanceShare<u32>, DistanceShare<u32>) = distances[i];
        let x: u32 = d2.code_dot.product(d1.mask_dot);
        let y: u32 = d1.code_dot.product(d2.mask_dot);
        parts.push(x.ring_sub(y));
        i += 1;
    }
    assert(parts@ =~= cross_parts(distances@));
    reshare_products_send(prf, parts.as_slice())
}

/// A difference of sums is the sum of the differences.
proof fn lemma_diff_of_sums<T: IntRing2k>(x: (T, T, T), y: (T, T, T))
    ensures
        T::of_int(
            T::of_int(x.0.val() - y.0.val()).val() + T::of_int(x.1.val() - y.1.val()).val()
                + T::of_int(x.2.val() - y.2.val()).val(),
        ) == T::of_int(
            T::of_int(x.0.val() + x.1.val() + x.2.val()).val() - T::of_int(
                y.0.val() + y.1.val() + y.2.val(),
            ).val(),
        ),
{
    let (a, b) = (x.0.val() + x.1.val() + x.2.val(), y.0.val() + y.1.val() + y.2.val());
    lemma_sum3::<T>(x.0.val() - y.0.val(), x.1.val() - y.1.val(), x.2.val() - y.2.val());
    lemma_absorb::<T>(a, -T::of_int(b).val());
    lemma_absorb_sub::<T>(b, a);
}

/// A distance that three parties share.
pub open spec fn distance_fits<T>(
    d0: DistanceShare<T>,
    d1: DistanceShare<T>,
    d2: DistanceShare<T>,
) -> bool {
    &&& consistent(d0.code_dot, d1.code_dot, d2.code_dot)
    &&& consistent(d0.mask_dot, d1.mask_dot, d2.mask_dot)
}

/// The code part of a shared distance.
pub open spec fn code_of<T: IntRing2k>(
    d0: DistanceShare<T>,
    d1: DistanceShare<T>,
    d2: DistanceShare<T>,
) -> T {
    sum_value(d0.code_dot, d1.code_dot, d2.code_dot)
}

/// The mask part of a shared distance.
pub open spec fn mask_of<T: IntRing2k>(
    d0: DistanceShare<T>,
    d1: DistanceShare<T>,
    d2: DistanceShare<T>,
) -> T {
    sum_value(d0.mask_dot, d1.mask_dot, d2.mask_dot)
}

/// The three parties share `code_2 * mask_1 - code_1 * mask_2` of every pair after a cross product.
pub proof fn lemma_cross_mul_correct(
    prf: (Prf, Prf, Prf),
    x: (Seq<DistancePair<u32>>, Seq<DistancePair<u32>>, Seq<DistancePair<u32>>),
    i: int,
)
    requires
        in_step(prf.0, prf.1, prf.2),
        0 <= i < x.0.len(),
        x.1.len() == x.0.len(),
        x.2.len() == x.0.len(),
        distance_fits(x.0[i].0, x.1[i].0, x.2[i].0),
        distance_fits(x.0[i].1, x.1[i].1, x.2[i].1),
    ensures
        ({
            let (c0, c1, c2) = (
                reshared_parts(prf.0, cross_parts(x.0)),
                reshared_parts(prf.1, cross_parts(x.1)),
                reshared_parts(prf.2, cross_parts(x.2)),
            );
            let (r0, r1, r2) = (joined(c0, c2)[i], joined(c1, c0)[i], joined(c2, c1)[i]);
            let (code1, mask1) = (
                code_of(x.0[i].0, x.1[i].0, x.2[i].0),
                mask_of(x.0[i].0, x.1[i].0, x.2[i].0),
            );
            let (code2, mask2) = (
                code_of(x.0[i].1, x.1[i].1, x.2[i].1),
                mask_of(x.0[i].1, x.1[i].1, x.2[i].1),
            );
            &&& consistent(r0, r1, r2)
            &&& sum_value(r0, r1, r2) == u32::of_int(
                code2.val() * mask1.val() - code1.val() * mask2.val(),
            )
        }),
{
    let (p0, p1, p2) = (cross_parts(x.0), cross_parts(x.1), cross_parts(x.2));
    lemma_reshare_correct(prf, (p0, p1, p2), i);
    let (d, e) = (
        (x.0[i].0, x.1[i].0, x.2[i].0),
        (x.0[i].1, x.1[i].1, x.2[i].1),
    );
    let (code1, mask1) = (
        (d.0.code_dot, d.1.code_dot, d.2.code_dot),
        (d.0.mask_dot, d.1.mask_dot, d.2.mask_dot),
    );
    let (code2, mask2) = (
        (e.0.code_dot, e.1.code_dot, e.2.code_dot),
        (e.0.mask_dot, e.1.mask_dot, e.2.mask_dot),
    );
    lemma_product_value(code2, mask1);
    lemma_product_value(code1, mask2);
    let u = (
        code2.0.product_spec(mask1.0),
        code2.1.product_spec(mask1.1),
        code2.2.product_spec(mask1.2),
    );
    let v = (
        code1.0.product_spec(mask2.0),
        code1.1.product_spec(mask2.1),
        code1.2.product_spec(mask2.2),
    );
    lemma_diff_of_sums(u, v);
    let a = code_of(e.0, e.1, e.2).val() * mask_of(d.0, d.1, d.2).val();
    let b = code_of(d.0, d.1, d.2).val() * mask_of(e.0, e.1, e.2).val();
    lemma_absorb::<u32>(a, -u32::of_int(b).val());
    lemma_absorb_sub::<u32>(b, a);
}

/// The top bit of a 32-bit value that stands for a small signed number tells whether the number is
/// below zero.
pub proof fn lemma_sign_bit(x: int)
    requires
        -0x8000_0000 <= x < 0x8000_0000,
    ensures
        bit(u32::of_int(x), 31) == (x < 0),
{
    lemma2_to64();
    u32::law_of_int(x);
}

/// The top bit of a cross product compares two fractions of signed codes and positive masks of 16
/// bits: it is set exactly if the second fraction is the smaller one.
pub proof fn lemma_cross_compare(code1: int, mask1: int, code2: int, mask2: int)
    requires
        -0x8000 <= code1 < 0x8000,
        -0x8000 <= code2 < 0x8000,
        0 <= mask1 < 0x8000,
        0 <= mask2 < 0x8000,
    ensures
        bit(u32::of_int(code2 * mask1 - code1 * mask2), 31) == (code2 * mask1 < code1 * mask2),
{
    assert(-0x8000 * 0x8000 <= code2 * mask1 <= 0x7fff * 0x7fff) by (nonlinear_arith)
        requires
            -0x8000 <= code2 < 0x8000,
            0 <= mask1 < 0x8000,
    ;
    assert(-0x8000 * 0x7fff <= code1 * mask2 <= 0x7fff * 0x7fff) by (nonlinear_arith)
        requires
            -0x8000 <= code1 < 0x8000,
            0 <= mask2 < 0x8000,
    ;
    lemma_sign_bit(code2 * mask1 - code1 * mask2);
}

/// The three parties share `code * 2^16 - mask * a`. Where that fits 32 bits, its top bit is set
/// exactly if it is below zero.
pub proof fn lemma_threshold_value(
    d: (DistanceShare<u32>, DistanceShare<u32>, DistanceShare<u32>),
    a: u32,
    code: int,
    mask: int,
)
    requires
        distance_fits(d.0, d.1, d.2),
        code_of(d.0, d.1, d.2) == u32::of_int(code),
        mask_of(d.0, d.1, d.2) == u32::of_int(mask),
    ensures
        ({
            let (r0, r1, r2) = (
                threshold_diff(d.0, a),
                threshold_diff(d.1, a),
                threshold_diff(d.2, a),
            );
            let diff = code * 0x1_0000 - mask * a;
            &&& consistent(r0, r1, r2)
            &&& sum_value(r0, r1, r2) == u32::of_int(diff)
            &&& -0x8000_0000 <= diff < 0x8000_0000 ==> bit(sum_value(r0, r1, r2), 31) == (diff < 0)
        }),
{
    let c = (d.0.code_dot, d.1.code_dot, d.2.code_dot);
    let m = (d.0.mask_dot, d.1.mask_dot, d.2.mask_dot);
    let b = 0x1_0000u32;
    lemma_times_value(c, b);
    lemma_times_value(m, a);
    lemma_minus_value(
        (c.0.times_spec(b), c.1.times_spec(b), c.2.times_spec(b)),
        (m.0.times_spec(a), m.1.times_spec(a), m.2.times_spec(a)),
    );
    crate::ring_lemmas::lemma_absorb_mul::<u32>(code, b.val());
    crate::ring_lemmas::lemma_absorb_mul::<u32>(mask, a.val());
    let (x, y) = (code * b.val(), mask * a.val());
    lemma_absorb::<u32>(x, -u32::of_int(y).val());
    lemma_absorb_sub::<u32>(y, x);
    if -0x8000_0000 <= x - y < 0x8000_0000 {
        lemma_sign_bit(x - y);
    }
}

/// The three parties share `code * 2^16 - mask * a`, and its top bit is set exactly if the fraction
/// of code and mask is below `a / 2^16`, that is if the distance is above the threshold.
pub proof fn lemma_threshold_correct(
    d: (DistanceShare<u32>, DistanceShare<u32>, DistanceShare<u32>),
    a: u32,
    code: int,
    mask: int,
)
    requires
        distance_fits(d.0, d.1, d.2),
        code_of(d.0, d.1, d.2) == u32::of_int(code),
        mask_of(d.0, d.1, d.2) == u32::of_int(mask),
        0 <= mask < 0x4000,
        -0x4000 <= code < 0x8000,
        a <= 0x1_0000,
    ensures
        ({
            let (r0, r1, r2) = (
                threshold_diff(d.0, a),
                threshold_diff(d.1, a),
                threshold_diff(d.2, a),
            );
            &&& consistent(r0, r1, r2)
            &&& bit(sum_value(r0, r1, r2), 31) == (code * 0x1_0000 < mask * a)
        }),
{
    lemma_threshold_value(d, a, code, mask);
    let y = mask * a;
    assert(0 <= y < 0x4000 * 0x1_0000) by (nonlinear_arith)
        requires
            y == mask * a,
            0 <= mask < 0x4000,
            0 <= a <= 0x1_0000,
    ;
}

/// The value of shares whose parts were moved up by sixteen places.
proof fn lemma_lifted_value(c: (Share<u16>, Share<u16>, Share<u16>), code: int)
    requires
        consistent(c.0, c.1, c.2),
        sum_value(c.0, c.1, c.2) == u16::of_int(code),
    ensures
        consistent(lifted_by(c.0, 16), lifted_by(c.1, 16), lifted_by(c.2, 16)),
        sum_value(lifted_by(c.0, 16), lifted_by(c.1, 16), lifted_by(c.2, 16)) == u32::of_int(
            code * 0x1_0000,
        ),
{
    lemma2_to64();
    let (x, y, z) = (c.0.a.val(), c.1.a.val(), c.2.a.val());
    lemma_sum3::<u32>(x * 0x1_0000, y * 0x1_0000, z * 0x1_0000);
    let q = lemma_reduce::<u16>(x + y + z) - lemma_reduce::<u16>(code);
    assert(x + y + z == code + q * 0x1_0000);
    lemma_shift::<u32>(code * 0x1_0000, q);
}

/// With mask shares that were lifted before, the three parties share `code * 2^16 - mask * a`. Where
/// that fits 32 bits, its top bit is set exactly if the fraction of code and mask is below
/// `a / 2^16`, that is if the distance is above the threshold.
pub proof fn lemma_pre_lifted_correct(
    c: (Share<u16>, Share<u16>, Share<u16>),
    m: (Share<u32>, Share<u32>, Share<u32>),
    a: u32,
    code: int,
    mask: int,
)
    requires
        consistent(c.0, c.1, c.2),
        consistent(m.0, m.1, m.2),
        sum_value(c.0, c.1, c.2) == u16::of_int(code),
        sum_value(m.0, m.1, m.2) == u32::of_int(mask),
    ensures
        ({
            let (r0, r1, r2) = (
                pre_lifted_diff(c.0, m.0, a),
                pre_lifted_diff(c.1, m.1, a),
                pre_lifted_diff(c.2, m.2, a),
            );
            let diff = code * 0x1_0000 - mask * a;
            &&& consistent(r0, r1, r2)
            &&& sum_value(r0, r1, r2) == u32::of_int(diff)
            &&& -0x8000_0000 <= diff < 0x8000_0000 ==> bit(sum_value(r0, r1, r2), 31) == (code
                * 0x1_0000 < mask * a)
        }),
{
    lemma_lifted_value(c, code);
    lemma_times_value(m, a);
    lemma_minus_value(
        (lifted_by(c.0, 16), lifted_by(c.1, 16), lifted_by(c.2, 16)),
        (m.0.times_spec(a), m.1.times_spec(a), m.2.times_spec(a)),
    );
    crate::ring_lemmas::lemma_absorb_mul::<u32>(mask, a.val());
    let (x, y) = (code * 0x1_0000, mask * a.val());
    lemma_absorb::<u32>(x, -u32::of_int(y).val());
    lemma_absorb_sub::<u32>(y, x);
    if -0x8000_0000 <= x - y < 0x8000_0000 {
        lemma_sign_bit(x - y);
    }
}

/// The top bit of a comparison with the threshold of the anonymous statistics is set exactly if four
/// times the code is below the mask, for all codes and masks whose difference fits 18 bits.
pub proof fn lemma_anon_stats_threshold_correct(
    c: (Share<u16>, Share<u16>, Share<u16>),
    m: (Share<u32>, Share<u32>, Share<u32>),
    code: int,
    mask: int,
)
    requires
        consistent(c.0, c.1, c.2),
        consistent(m.0, m.1, m.2),
        sum_value(c.0, c.1, c.2) == u16::of_int(code),
        sum_value(m.0, m.1, m.2) == u32::of_int(mask),
        -0x2_0000 <= 4 * code - mask < 0x2_0000,
    ensures
        ({
            let (r0, r1, r2) = (
                pre_lifted_diff(c.0, m.0, 0x4000u32),
                pre_lifted_diff(c.1, m.1, 0x4000u32),
                pre_lifted_diff(c.2, m.2, 0x4000u32),
            );
            &&& consistent(r0, r1, r2)
            &&& bit(sum_value(r0, r1, r2), 31) == (4 * code < mask)
        }),
{
    lemma_pre_lifted_correct(c, m, 0x4000u32, code, mask);
}

} // verus!
