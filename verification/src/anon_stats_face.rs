//! Statistics of face distances: how many lie in each bucket.
//!
//! For every border the parties count the distances below it. A distance is below a border exactly
//! if the difference is below zero, which its top bit tells. The counts are then taken apart into
//! buckets.

use crate::anon_stats_1d::signed_element;
use crate::counting::lemma_counts;
use crate::ops::{lemma_plus_const_value, plus_const, sub_pub};
use crate::player::Role;
use crate::ring::{bit_int, IntRing2k};
use crate::ring_lemmas::{bit, lemma_absorb, lemma_absorb_sub};
use crate::shares::{consistent, lemma_plus_value, sum_value, Share};
use crate::test_utils::create_single_sharing;
use vstd::arithmetic::power2::*;
use vstd::prelude::*;

verus! {

/// A share of a face distance, a signed 16-bit number.
pub type FaceDistance = Share<u16>;

/// The number of borders from `start` to `end` in steps of `step`.
pub open spec fn border_count(start: int, end: int, step: int) -> int {
    if start <= end {
        (end - start) / step + 1
    } else {
        0
    }
}

/// The borders from `start` to `end`, both included, in steps of `step`.
pub fn build_thresholds(start: i16, end: i16, step: usize) -> (r: Vec<i16>)
    requires
        step > 0,
    ensures
        r@.len() == border_count(start as int, end as int, step as int),
        forall|i: int| 0 <= i < r@.len() ==> #[trigger] r@[i] == start + step * i,
        forall|i: int| 0 < i < r@.len() ==> r@[i - 1] < #[trigger] r@[i],
        (r@.len() == 0) == (start > end),
        r@.len() > 0 ==> r@[0] == start && r@.last() <= end < r@.last() + step,
{
    let mut out: Vec<i16> = Vec::new();
    let mut left: i32 = end as i32 - start as i32;
    if left < 0 {
        return out;
    }
    let mut at: i32 = start as i32;
    proof {
        assert(step * 0 == 0);
    }
    out.push(start);
    while step <= left as usize
        invariant
            step > 0,
            start <= end,
            out@.len() >= 1,
            at == start + step * (out@.len() - 1),
            left == end - at,
            left >= 0,
            at >= start,
            forall|i: int| 0 <= i < out@.len() ==> #[trigger] out@[i] == start + step * i,
        decreases left,
    {
        at = at + step as i32;
        left = left - step as i32;
        proof {
            let n = out@.len() as int;
            assert(step * n == step * (n - 1) + step) by (nonlinear_arith);
        }
        out.push(at as i16);
    }
    proof {
        let n = out@.len() - 1;
        assert(end - start == step * n + left);
        vstd::arithmetic::div_mod::lemma_fundamental_div_mod_converse(
            end - start,
            step as int,
            n,
            left as int,
        );
        assert forall|i: int| 0 < i < out@.len() implies out@[i - 1] < #[trigger] out@[i] by {
            assert(out@[i - 1] == start + step * (i - 1));
            assert(step * i == step * (i - 1) + step) by (nonlinear_arith);
        }
    }
    out
}

/// First step for one border: subtracts it from every distance.
pub fn shift_distances(own_role: Role, job: &[FaceDistance], threshold: i16) -> (r: Vec<
    FaceDistance,
>)
    requires
        own_role.index < 3,
    ensures
        r@ == Seq::new(
            job@.len(),
            |i: int|
                plus_const(
                    own_role.index as int,
                    job@[i],
                    -u16::of_int(threshold as int).val(),
                ),
        ),
        r@.len() == job@.len(),
        forall|i: int|
            0 <= i < r@.len() ==> (#[trigger] r@[i]).a == if own_role.index == 0 {
                (job@[i].a - threshold) % 0x1_0000
            } else {
                job@[i].a as int
            } && r@[i].b == if own_role.index == 1 {
                (job@[i].b - threshold) % 0x1_0000
            } else {
                job@[i].b as int
            },
{
    let rhs: u16 = signed_element(threshold);
    let mut out: Vec<FaceDistance> = Vec::new();
    let mut i: usize = 0;
    while i < job.len()
        invariant
            own_role.index < 3,
            rhs == u16::of_int(threshold as int),
            i <= job@.len(),
            out@.len() == i,
            forall|j: int|
                0 <= j < i ==> #[trigger] out@[j] == plus_const(
                    own_role.index as int,
                    job@[j],
                    -rhs.val(),
                ),
        decreases job@.len() - i,
    {
        let mut share: FaceDistance = job[i];
        sub_pub(own_role, &mut share, rhs);
        out.push(share);
        i += 1;
    }
    assert(out@ =~= Seq::new(
        job@.len(),
        |j: int| plus_const(own_role.index as int, job@[j], -u16::of_int(threshold as int).val()),
    ));
    out
}

/// The top bit of a distance minus a border is set exactly if the distance is below the border,
/// as long as the difference fits 16 bits.
pub proof fn lemma_shifted_sign(
    s: (FaceDistance, FaceDistance, FaceDistance),
    distance: int,
    threshold: int,
)
    requires
        consistent(s.0, s.1, s.2),
        sum_value(s.0, s.1, s.2) == u16::of_int(distance),
        -0x8000 <= distance - threshold < 0x8000,
    ensures
        ({
            let c = -u16::of_int(threshold).val();
            let (r0, r1, r2) = (
                plus_const(0, s.0, c),
                plus_const(1, s.1, c),
                plus_const(2, s.2, c),
            );
            &&& consistent(r0, r1, r2)
            &&& bit(sum_value(r0, r1, r2), 15) == (distance < threshold)
        }),
{
    let c = -u16::of_int(threshold).val();
    lemma_plus_const_value(s.0, s.1, s.2, c);
    lemma_absorb::<u16>(distance, c);
    lemma_absorb_sub::<u16>(threshold, distance);
    let d = distance - threshold;
    u16::law_of_int(d);
    lemma2_to64();
}

/// The sum of the first `n` shares, part by part.
pub open spec fn share_sum(s: Seq<Share<u32>>, n: nat) -> Share<u32>
    decreases n,
{
    if n == 0 {
        Share::<u32>::zero_spec()
    } else {
        share_sum(s, (n - 1) as nat).plus_spec(s[n - 1])
    }
}

/// Shares add up part by part.
pub proof fn lemma_share_sum_adds_up(s: Seq<Share<u32>>, n: nat)
    requires
        n <= s.len(),
    ensures
        share_sum(s, n).a == u32::of_int(
            s.take(n as int).fold_left(0int, |m: int, x: Share<u32>| m + x.a),
        ),
        share_sum(s, n).b == u32::of_int(
            s.take(n as int).fold_left(0int, |m: int, x: Share<u32>| m + x.b),
        ),
    decreases n,
{
    if n > 0 {
        lemma_share_sum_adds_up(s, (n - 1) as nat);
        let rest = s.take(n - 1);
        assert(s.take(n as int).drop_last() =~= rest);
        crate::ring_lemmas::lemma_absorb::<u32>(
            rest.fold_left(0int, |m: int, x: Share<u32>| m + x.a),
            s[n - 1].a as int,
        );
        crate::ring_lemmas::lemma_absorb::<u32>(
            rest.fold_left(0int, |m: int, x: Share<u32>| m + x.b),
            s[n - 1].b as int,
        );
    }
}

/// Last step for one border: adds up the bits of all distances.
pub fn sum_shares(shares: &[Share<u32>]) -> (r: Share<u32>)
    ensures
        r == share_sum(shares@, shares@.len()),
        r.a == u32::of_int(shares@.fold_left(0int, |n: int, s: Share<u32>| n + s.a)),
        r.b == u32::of_int(shares@.fold_left(0int, |n: int, s: Share<u32>| n + s.b)),
{
    let mut acc: Share<u32> = Share::zero();
    let mut i: usize = 0;
    while i < shares.len()
        invariant
            i <= shares@.len(),
            acc == share_sum(shares@, i as nat),
        decreases shares@.len() - i,
    {
        acc = acc.plus(shares[i]);
        i += 1;
    }
    proof {
        lemma_share_sum_adds_up(shares@, shares@.len());
        assert(shares@.take(shares@.len() as int) =~= shares@);
    }
    acc
}

/// How many of the first `n` bits are set.
pub open spec fn set_bits(bits: Seq<bool>, n: nat) -> int
    decreases n,
{
    if n == 0 {
        0
    } else {
        set_bits(bits, (n - 1) as nat) + bit_int(bits[n - 1])
    }
}

/// The parties share the number of set bits once they added up their shares of the bits.
pub proof fn lemma_sum_counts(
    s: (Seq<Share<u32>>, Seq<Share<u32>>, Seq<Share<u32>>),
    bits: Seq<bool>,
    n: nat,
)
    requires
        n <= bits.len(),
        s.0.len() == bits.len(),
        s.1.len() == bits.len(),
        s.2.len() == bits.len(),
        forall|i: int|
            0 <= i < bits.len() ==> consistent(#[trigger] s.0[i], s.1[i], s.2[i]) && sum_value(
                s.0[i],
                s.1[i],
                s.2[i],
            ) == u32::of_int(bit_int(bits[i])),
    ensures
        consistent(share_sum(s.0, n), share_sum(s.1, n), share_sum(s.2, n)),
        sum_value(share_sum(s.0, n), share_sum(s.1, n), share_sum(s.2, n)) == u32::of_int(
            set_bits(bits, n),
        ),
    decreases n,
{
    if n > 0 {
        let k = (n - 1) as nat;
        lemma_sum_counts(s, bits, k);
        assert(consistent(s.0[n - 1], s.1[n - 1], s.2[n - 1]));
        lemma_plus_value(
            (share_sum(s.0, k), share_sum(s.1, k), share_sum(s.2, k)),
            (s.0[n - 1], s.1[n - 1], s.2[n - 1]),
        );
        lemma_absorb::<u32>(set_bits(bits, k), u32::of_int(bit_int(bits[n - 1])).val());
        lemma_absorb::<u32>(bit_int(bits[n - 1]), set_bits(bits, k));
    }
}

/// The distances from one border, which is included, to the next one, which is not.
#[derive(Clone, Copy, Debug, PartialEq, Eq, Structural)]
pub struct FaceBucket {
    pub count: usize,
    pub from: i16,
    pub to: i16,
}

/// The buckets between borders, from the counts below them: one less than there are borders.
pub open spec fn buckets_between(counts: Seq<u32>, thresholds: Seq<i16>) -> Seq<FaceBucket> {
    Seq::new(
        if counts.len() == 0 {
            0
        } else {
            (counts.len() - 1) as nat
        },
        |i: int|
            FaceBucket {
                count: (counts[i + 1] - counts[i]) as usize,
                from: thresholds[i],
                to: thresholds[i + 1],
            },
    )
}

/// Takes counts below borders apart into buckets.
pub fn bucket_results(counts: &[u32], thresholds: &[i16]) -> (r: Vec<FaceBucket>)
    requires
        counts@.len() == thresholds@.len(),
        forall|i: int| 0 < i < counts@.len() ==> counts@[i - 1] <= #[trigger] counts@[i],
    ensures
        r@ == buckets_between(counts@, thresholds@),
        counts@.len() == 0 ==> r@.len() == 0,
        counts@.len() > 0 ==> r@.len() == counts@.len() - 1,
        forall|i: int|
            0 <= i < r@.len() ==> (#[trigger] r@[i]).count + counts@[i] == counts@[i + 1]
                && r@[i].from == thresholds@[i] && r@[i].to == thresholds@[i + 1],
{
    let mut out: Vec<FaceBucket> = Vec::new();
    let mut i: usize = 1;
    while i < counts.len()
        invariant
            1 <= i,
            counts@.len() == thresholds@.len(),
            i <= counts@.len() || i == 1,
            forall|k: int| 0 < k < counts@.len() ==> counts@[k - 1] <= #[trigger] counts@[k],
            out@.len() == i - 1,
            forall|k: int|
                0 <= k < out@.len() ==> #[trigger] out@[k] == (FaceBucket {
                    count: (counts@[k + 1] - counts@[k]) as usize,
                    from: thresholds@[k],
                    to: thresholds@[k + 1],
                }),
        decreases counts@.len() - i,
    {
        assert(counts@[i - 1] <= counts@[i as int]);
        out.push(
            FaceBucket {
                count: (counts[i] - counts[i - 1]) as usize,
                from: thresholds[i - 1],
                to: thresholds[i],
            },
        );
        i += 1;
    }
    proof {
        assert forall|k: int| 0 <= k < out@.len() implies (#[trigger] out@[k]).count + counts@[k]
            == counts@[k + 1] by {
            let next = k + 1;
            assert(counts@[next - 1] <= counts@[next]);
        }
    }
    out
}

/// How many of the first `n` distances are below a border.
pub open spec fn below(distances: Seq<i16>, border: int, n: nat) -> nat
    decreases n,
{
    if n == 0 {
        0
    } else if distances[n - 1] < border {
        below(distances, border, (n - 1) as nat) + 1
    } else {
        below(distances, border, (n - 1) as nat)
    }
}

/// How many of the first `n` distances are in a bucket.
pub open spec fn inside(distances: Seq<i16>, from: int, to: int, n: nat) -> nat
    decreases n,
{
    if n == 0 {
        0
    } else if from <= distances[n - 1] < to {
        inside(distances, from, to, (n - 1) as nat) + 1
    } else {
        inside(distances, from, to, (n - 1) as nat)
    }
}

/// The difference of the counts below two borders is the number of distances between them.
pub proof fn lemma_bucket_counts(distances: Seq<i16>, from: int, to: int, n: nat)
    requires
        from <= to,
    ensures
        below(distances, from, n) + inside(distances, from, to, n) == below(distances, to, n),
        below(distances, to, n) <= n,
    decreases n,
{
    if n > 0 {
        lemma_bucket_counts(distances, from, to, (n - 1) as nat);
    }
}

/// The counts count distances: those below a border, those from one border, which is included, to
/// another, which is not, and the bits that are set.
pub proof fn lemma_distances_counted(
    distances: Seq<i16>,
    bits: Seq<bool>,
    from: int,
    to: int,
    n: nat,
)
    ensures
        below(distances, to, n) == Set::new(|k: int| 0 <= k < n && distances[k] < to).len(),
        inside(distances, from, to, n) == Set::new(
            |k: int| 0 <= k < n && from <= distances[k] < to,
        ).len(),
        set_bits(bits, n) == Set::new(|k: int| 0 <= k < n && bits[k]).len(),
{
    let (f, g, h) = (
        |k: int| distances[k] < to,
        |k: int| from <= distances[k] < to,
        |k: int| bits[k],
    );
    lemma_counts(f, |k: int| below(distances, to, k as nat) as int, n);
    lemma_counts(g, |k: int| inside(distances, from, to, k as nat) as int, n);
    lemma_counts(h, |k: int| set_bits(bits, k as nat), n);
    assert(Set::new(|k: int| 0 <= k < n && f(k)) =~= Set::new(
        |k: int| 0 <= k < n && distances[k] < to,
    ));
    assert(Set::new(|k: int| 0 <= k < n && g(k)) =~= Set::new(
        |k: int| 0 <= k < n && from <= distances[k] < to,
    ));
    assert(Set::new(|k: int| 0 <= k < n && h(k)) =~= Set::new(|k: int| 0 <= k < n && bits[k]));
}

/// Distances in the clear and the shares of three parties of them.
#[derive(Debug)]
pub struct TestDistances {
    pub distances: Vec<i16>,
    pub shares0: Vec<FaceDistance>,
    pub shares1: Vec<FaceDistance>,
    pub shares2: Vec<FaceDistance>,
}

impl TestDistances {
    /// Shares of the given distances, with two random elements each.
    pub fn generate_ground_truth_input(distances: Vec<i16>, masks: &[(u16, u16)]) -> (r:
        TestDistances)
        requires
            masks@.len() == distances@.len(),
        ensures
            r.distances@ == distances@,
            r.shares0@.len() == distances@.len(),
            r.shares1@.len() == distances@.len(),
            r.shares2@.len() == distances@.len(),
            forall|i: int|
                0 <= i < distances@.len() ==> (#[trigger] r.shares0@[i]).a == masks@[i].0
                    && r.shares1@[i].a == masks@[i].1 && consistent(
                    r.shares0@[i],
                    r.shares1@[i],
                    r.shares2@[i],
                ) && sum_value(r.shares0@[i], r.shares1@[i], r.shares2@[i]) == u16::of_int(
                    distances@[i] as int,
                ),
    {
        let mut shares0: Vec<FaceDistance> = Vec::new();
        let mut shares1: Vec<FaceDistance> = Vec::new();
        let mut shares2: Vec<FaceDistance> = Vec::new();
        let mut i: usize = 0;
        while i < distances.len()
            invariant
                masks@.len() == distances@.len(),
                i <= distances@.len(),
                shares0@.len() == i,
                shares1@.len() == i,
                shares2@.len() == i,
                forall|j: int|
                    0 <= j < i ==> (#[trigger] shares0@[j]).a == masks@[j].0 && shares1@[j].a
                        == masks@[j].1 && consistent(shares0@[j], shares1@[j], shares2@[j])
                        && sum_value(shares0@[j], shares1@[j], shares2@[j]) == u16::of_int(
                        distances@[j] as int,
                    ),
            decreases distances@.len() - i,
        {
            let (a, b): (u16, u16) = masks[i];
            let (s0, s1, s2) = create_single_sharing(a, b, signed_element(distances[i]));
            shares0.push(s0);
            shares1.push(s1);
            shares2.push(s2);
            i += 1;
        }
        TestDistances { distances, shares0, shares1, shares2 }
    }

    /// The buckets between ascending borders.
    pub fn ground_truth_buckets(&self, thresholds: &[i16]) -> (r: Vec<FaceBucket>)
        requires
            self.distances@.len() <= u32::MAX,
            forall|i: int|
                0 < i < thresholds@.len() ==> thresholds@[i - 1] <= #[trigger] thresholds@[i],
        ensures
            r@.len() == (if thresholds@.len() == 0 {
                0
            } else {
                thresholds@.len() - 1
            }),
            forall|i: int|
                0 <= i < r@.len() ==> #[trigger] r@[i] == (FaceBucket {
                    count: inside(
                        self.distances@,
                        thresholds@[i] as int,
                        thresholds@[i + 1] as int,
                        self.distances@.len(),
                    ) as usize,
                    from: thresholds@[i],
                    to: thresholds@[i + 1],
                }),
    {
        let len: usize = self.distances.len();
        let mut counts: Vec<u32> = Vec::new();
        let mut i: usize = 0;
        while i < thresholds.len()
            invariant
                len == self.distances@.len(),
                len <= u32::MAX,
                i <= thresholds@.len(),
                counts@.len() == i,
                forall|j: int|
                    0 <= j < i ==> #[trigger] counts@[j] == below(
                        self.distances@,
                        thresholds@[j] as int,
                        len as nat,
                    ),
            decreases thresholds@.len() - i,
        {
            let mut count: u32 = 0;
            let mut k: usize = 0;
            while k < len
                invariant
                    len == self.distances@.len(),
                    len <= u32::MAX,
                    i < thresholds@.len(),
                    k <= len,
                    count <= k,
                    count == below(self.distances@, thresholds@[i as int] as int, k as nat),
                decreases len - k,
            {
                if self.distances[k] < thresholds[i] {
                    count += 1;
                }
                k += 1;
            }
            counts.push(count);
            i += 1;
        }
        proof {
            assert forall|j: int| 0 < j < counts@.len() implies counts@[j - 1]
                <= #[trigger] counts@[j] by {
                assert(thresholds@[j - 1] <= thresholds@[j]);
                assert(counts@[j - 1] == below(
                    self.distances@,
                    thresholds@[j - 1] as int,
                    len as nat,
                ));
                lemma_bucket_counts(
                    self.distances@,
                    thresholds@[j - 1] as int,
                    thresholds@[j] as int,
                    len as nat,
                );
            }
        }
        let r: Vec<FaceBucket> = bucket_results(counts.as_slice(), thresholds);
        proof {
            assert forall|j: int| 0 <= j < r@.len() implies #[trigger] r@[j] == (FaceBucket {
                count: inside(
                    self.distances@,
                    thresholds@[j] as int,
                    thresholds@[j + 1] as int,
                    self.distances@.len(),
                ) as usize,
                from: thresholds@[j],
                to: thresholds@[j + 1],
            }) by {
                assert(thresholds@[j + 1 - 1] <= thresholds@[j + 1]);
                assert(counts@[j] == below(self.distances@, thresholds@[j] as int, len as nat));
                assert(counts@[j + 1] == below(
                    self.distances@,
                    thresholds@[j + 1] as int,
                    len as nat,
                ));
                lemma_bucket_counts(
                    self.distances@,
                    thresholds@[j] as int,
                    thresholds@[j + 1] as int,
                    len as nat,
                );
            }
        }
        r
    }
}

} // verus!
