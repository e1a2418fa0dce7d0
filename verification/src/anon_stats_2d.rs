//! Statistics in two dimensions: how many pairs of distances are below a pair of borders.

use crate::anon_stats_1d::{
    below_border, group_fits, groups_fit, is_below_border, lemma_nearest_below, nearest,
    nearest_distance, shares_bundles, size_sum, DistanceBundle1D, LiftedDistanceBundle1D,
};
use crate::counting::lemma_counts;
use crate::planes::{flat, same_shape};
use crate::prf::{in_step, lemma_zero_shares_cancel, Prf, PrfDraw};
use crate::ring::IntRing2k;
use crate::ring_lemmas::{lemma_absorb, lemma_sum3, zero};
use crate::shares::{consistent, lemma_product_value, sum_value, Share};
use vstd::prelude::*;

verus! {

/// The distances of both sides of one comparison.
pub type DistanceBundle2D = (DistanceBundle1D, DistanceBundle1D);

/// The same, lifted to 32 bits.
pub type LiftedDistanceBundle2D = (LiftedDistanceBundle1D, LiftedDistanceBundle1D);

/// Puts the lifted bundles of both sides together, pair by pair.
pub fn lift_bundles_2d(left: Vec<LiftedDistanceBundle1D>, right: Vec<LiftedDistanceBundle1D>) -> (r:
    Vec<LiftedDistanceBundle2D>)
    requires
        left@.len() == right@.len(),
    ensures
        r@ == Seq::new(left@.len(), |i: int| (left@[i], right@[i])),
{
    let mut left: Vec<LiftedDistanceBundle1D> = left;
    let mut right: Vec<LiftedDistanceBundle1D> = right;
    let ghost (all_left, all_right) = (left@, right@);
    let mut back: Vec<LiftedDistanceBundle2D> = Vec::new();
    while left.len() > 0
        invariant
            left@.len() == right@.len(),
            all_left.len() == all_right.len(),
            left@.len() + back@.len() == all_left.len(),
            left@ == all_left.take(left@.len() as int),
            right@ == all_right.take(left@.len() as int),
            forall|i: int|
                0 <= i < back@.len() ==> #[trigger] back@[i] == (
                    all_left[all_left.len() - 1 - i],
                    all_right[all_left.len() - 1 - i],
                ),
        decreases left@.len(),
    {
        let ghost n = left@.len() as int;
        if let (Some(l), Some(r)) = (left.pop(), right.pop()) {
            assert(l == all_left[n - 1] && r == all_right[n - 1]);
            back.push((l, r));
        }
        assert(left@ =~= all_left.take(n - 1));
        assert(right@ =~= all_right.take(n - 1));
    }
    let mut out: Vec<LiftedDistanceBundle2D> = Vec::new();
    while back.len() > 0
        invariant
            all_left.len() == all_right.len(),
            back@.len() + out@.len() == all_left.len(),
            forall|i: int|
                0 <= i < back@.len() ==> #[trigger] back@[i] == (
                    all_left[all_left.len() - 1 - i],
                    all_right[all_left.len() - 1 - i],
                ),
            forall|i: int|
                0 <= i < out@.len() ==> #[trigger] out@[i] == (all_left[i], all_right[i]),
        decreases back@.len(),
    {
        let ghost n = back@.len() as int;
        if let Some(pair) = back.pop() {
            assert(pair == (all_left[all_left.len() - n], all_right[all_left.len() - n]));
            out.push(pair);
        }
    }
    assert(out@ =~= Seq::new(all_left.len(), |i: int| (all_left[i], all_right[i])));
    out
}

/// The sum of the products of the first `n` pairs of shares, as one party computes it, with the
/// entries from `l` and `r` on.
pub open spec fn product_sum(
    left: Seq<Share<u32>>,
    right: Seq<Share<u32>>,
    l: int,
    r: int,
    n: nat,
) -> u32
    decreases n,
{
    if n == 0 {
        zero::<u32>()
    } else {
        u32::of_int(
            product_sum(left, right, l, r, (n - 1) as nat).val() + left[l + n - 1].product_spec(
                right[r + n - 1],
            ).val(),
        )
    }
}

/// The local part of a bucket is the sum of the local parts of all its products.
pub proof fn lemma_product_sum_adds_up(
    left: Seq<Share<u32>>,
    right: Seq<Share<u32>>,
    l: int,
    r: int,
    n: nat,
)
    ensures
        product_sum(left, right, l, r, n) == u32::of_int(
            Seq::new(n, |j: int| left[l + j].product_spec(right[r + j]) as int).fold_left(
                0int,
                |m: int, x: int| m + x,
            ),
        ),
    decreases n,
{
    if n > 0 {
        lemma_product_sum_adds_up(left, right, l, r, (n - 1) as nat);
        let part = |j: int| left[l + j].product_spec(right[r + j]) as int;
        let rest = Seq::new((n - 1) as nat, part);
        assert(Seq::new(n, part).drop_last() =~= rest);
        crate::ring_lemmas::lemma_absorb::<u32>(
            rest.fold_left(0int, |m: int, x: int| m + x),
            part(n - 1),
        );
    }
}

/// What a party adds for one bucket: a share of zero and its part of the sum of products. Bucket
/// `m` belongs to border `m / borders` of the left and border `m % borders` of the right side.
pub open spec fn bucket_share(
    prf: Prf,
    left: Seq<Share<u32>>,
    right: Seq<Share<u32>>,
    job_size: int,
    borders: int,
    m: int,
) -> u32 {
    u32::of_int(
        prf.after::<u32>(m).zero_share::<u32>().val() + product_sum(
            left,
            right,
            (m / borders) * job_size,
            (m % borders) * job_size,
            job_size as nat,
        ).val(),
    )
}

/// The shares of all buckets, one for each pair of borders. `left` and `right` hold, for each border
/// in turn, the bits that tell which distances are below it.
pub fn bucket_sums_2d(
    prf: &mut Prf,
    left: &[Share<u32>],
    right: &[Share<u32>],
    job_size: usize,
    borders: usize,
) -> (r: Vec<u32>)
    requires
        left@.len() == borders * job_size,
        right@.len() == borders * job_size,
        borders * borders <= usize::MAX,
    ensures
        r@ == Seq::new(
            (borders * borders) as nat,
            |m: int| bucket_share(*old(prf), left@, right@, job_size as int, borders as int, m),
        ),
        *final(prf) == old(prf).after::<u32>(borders * borders),
        r@.len() == borders * borders,
        forall|m: int|
            0 <= m < r@.len() ==> #[trigger] r@[m] == u32::of_int(
                u32::of_int(
                    u32::drawn(old(prf).my_prf.advanced(m)) - u32::drawn(
                        old(prf).prev_prf.advanced(m),
                    ),
                ) + product_sum(
                    left@,
                    right@,
                    (m / borders as int) * job_size,
                    (m % borders as int) * job_size,
                    job_size as nat,
                ),
            ),
{
    let ghost start = *prf;
    let total: usize = left.len();
    let mut zeros: Vec<u32> = Vec::new();
    let buckets: usize = borders * borders;
    let mut m: usize = 0;
    proof {
        lemma_after_zero(start);
    }
    while m < buckets
        invariant
            m <= buckets,
            *prf == start.after::<u32>(m as int),
            zeros@.len() == m,
            forall|j: int|
                0 <= j < m ==> #[trigger] zeros@[j] == start.after::<u32>(j).zero_share::<u32>(),
        decreases buckets - m,
    {
        zeros.push(prf.gen_zero_share());
        proof {
            crate::binary::lemma_prf_after::<u32>(start, m as int, 1);
        }
        m += 1;
    }
    let mut out: Vec<u32> = Vec::new();
    let mut i: usize = 0;
    let mut l: usize = 0;
    while i < borders
        invariant
            buckets == borders * borders,
            total == borders * job_size,
            left@.len() == total,
            right@.len() == total,
            i <= borders,
            l == i * job_size,
            l <= total,
            zeros@.len() == buckets,
            forall|j: int|
                0 <= j < buckets ==> #[trigger] zeros@[j] == start.after::<u32>(j).zero_share::<
                    u32,
                >(),
            out@.len() == i * borders,
            forall|j: int|
                0 <= j < out@.len() ==> #[trigger] out@[j] == bucket_share(
                    start,
                    left@,
                    right@,
                    job_size as int,
                    borders as int,
                    j,
                ),
        decreases borders - i,
    {
        proof {
            assert(l + job_size == (i + 1) * job_size) by (nonlinear_arith)
                requires
                    l == i * job_size,
            ;
            assert((i + 1) * job_size <= borders * job_size) by (nonlinear_arith)
                requires
                    i < borders,
            ;
            assert((i + 1) * borders == i * borders + borders) by (nonlinear_arith);
            assert((i + 1) * borders <= borders * borders) by (nonlinear_arith)
                requires
                    i < borders,
            ;
        }
        let mut k: usize = 0;
        let mut r: usize = 0;
        while k < borders
            invariant
                buckets == borders * borders,
                total == borders * job_size,
                left@.len() == total,
                right@.len() == total,
                i < borders,
                k <= borders,
                l == i * job_size,
                l + job_size <= total,
                r == k * job_size,
                r <= total,
                i * borders + borders <= buckets,
                zeros@.len() == buckets,
                forall|j: int|
                    0 <= j < buckets ==> #[trigger] zeros@[j] == start.after::<u32>(
                        j,
                    ).zero_share::<u32>(),
                out@.len() == i * borders + k,
                forall|j: int|
                    0 <= j < out@.len() ==> #[trigger] out@[j] == bucket_share(
                        start,
                        left@,
                        right@,
                        job_size as int,
                        borders as int,
                        j,
                    ),
            decreases borders - k,
        {
            let ghost m = i * borders + k;
            proof {
                assert(r + job_size == (k + 1) * job_size) by (nonlinear_arith)
                    requires
                        r == k * job_size,
                ;
                assert((k + 1) * job_size <= borders * job_size) by (nonlinear_arith)
                    requires
                        k < borders,
                ;
                vstd::arithmetic::div_mod::lemma_fundamental_div_mod_converse(
                    m,
                    borders as int,
                    i as int,
                    k as int,
                );
            }
            let mut acc: u32 = 0;
            let mut j: usize = 0;
            while j < job_size
                invariant
                    left@.len() == total,
                    right@.len() == total,
                    j <= job_size,
                    l + job_size <= total,
                    r + job_size <= total,
                    acc == product_sum(left@, right@, l as int, r as int, j as nat),
                decreases job_size - j,
            {
                acc = acc.ring_add(left[l + j].product(right[r + j]));
                j += 1;
            }
            let at: usize = out.len();
            let nil: u32 = zeros[at];
            out.push(nil.ring_add(acc));
            r += job_size;
            k += 1;
        }
        l += job_size;
        i += 1;
    }
    assert(out@ =~= Seq::new(
        (borders * borders) as nat,
        |j: int| bucket_share(start, left@, right@, job_size as int, borders as int, j),
    ));
    out
}

proof fn lemma_after_zero(prf: Prf)
    ensures
        prf.after::<u32>(0) == prf,
{
    assert(prf.after::<u32>(0).my_prf == prf.my_prf);
    assert(prf.after::<u32>(0).prev_prf == prf.prev_prf);
}

/// The sum of products of the shared values.
pub open spec fn value_sum(x: Seq<int>, y: Seq<int>, l: int, r: int, n: nat) -> int
    decreases n,
{
    if n == 0 {
        0
    } else {
        value_sum(x, y, l, r, (n - 1) as nat) + x[l + n - 1] * y[r + n - 1]
    }
}

/// The parts of the three parties of a sum of products add up to the sum of products.
pub proof fn lemma_product_sums(
    left: (Seq<Share<u32>>, Seq<Share<u32>>, Seq<Share<u32>>),
    right: (Seq<Share<u32>>, Seq<Share<u32>>, Seq<Share<u32>>),
    x: Seq<int>,
    y: Seq<int>,
    l: int,
    r: int,
    n: nat,
)
    requires
        forall|i: int|
            l <= i < l + n ==> consistent(#[trigger] left.0[i], left.1[i], left.2[i]) && sum_value(
                left.0[i],
                left.1[i],
                left.2[i],
            ).val() == x[i],
        forall|i: int|
            r <= i < r + n ==> consistent(#[trigger] right.0[i], right.1[i], right.2[i])
                && sum_value(right.0[i], right.1[i], right.2[i]).val() == y[i],
    ensures
        u32::of_int(
            product_sum(left.0, right.0, l, r, n).val() + product_sum(
                left.1,
                right.1,
                l,
                r,
                n,
            ).val() + product_sum(left.2, right.2, l, r, n).val(),
        ) == u32::of_int(value_sum(x, y, l, r, n)),
    decreases n,
{
    if n == 0 {
        lemma_sum3::<u32>(0, 0, 0);
    } else {
        let k = (n - 1) as nat;
        lemma_product_sums(left, right, x, y, l, r, k);
        let (i, j) = (l + n - 1, r + n - 1);
        let (a, b) = ((left.0[i], left.1[i], left.2[i]), (right.0[j], right.1[j], right.2[j]));
        lemma_product_value(a, b);
        let p = (a.0.product_spec(b.0), a.1.product_spec(b.1), a.2.product_spec(b.2));
        let s = (
            product_sum(left.0, right.0, l, r, k),
            product_sum(left.1, right.1, l, r, k),
            product_sum(left.2, right.2, l, r, k),
        );
        lemma_sum3::<u32>(
            s.0.val() + p.0.val(),
            s.1.val() + p.1.val(),
            s.2.val() + p.2.val(),
        );
        let (u, v) = (
            s.0.val() + s.1.val() + s.2.val(),
            p.0.val() + p.1.val() + p.2.val(),
        );
        lemma_absorb::<u32>(u, v);
        lemma_absorb::<u32>(v, u32::of_int(u).val());
        lemma_absorb::<u32>(value_sum(x, y, l, r, k), u32::of_int(v).val());
        lemma_absorb::<u32>(x[i] * y[j], value_sum(x, y, l, r, k));
    }
}

/// The shares of the three parties of a bucket add up to the number of pairs that are below both
/// borders.
pub proof fn lemma_bucket_correct(
    prf: (Prf, Prf, Prf),
    left: (Seq<Share<u32>>, Seq<Share<u32>>, Seq<Share<u32>>),
    right: (Seq<Share<u32>>, Seq<Share<u32>>, Seq<Share<u32>>),
    x: Seq<int>,
    y: Seq<int>,
    job_size: nat,
    borders: int,
    m: int,
)
    requires
        in_step(prf.0, prf.1, prf.2),
        borders > 0,
        0 <= m < borders * borders,
        x.len() == borders * job_size,
        y.len() == borders * job_size,
        forall|i: int|
            0 <= i < x.len() ==> consistent(#[trigger] left.0[i], left.1[i], left.2[i])
                && sum_value(left.0[i], left.1[i], left.2[i]).val() == x[i],
        forall|i: int|
            0 <= i < y.len() ==> consistent(#[trigger] right.0[i], right.1[i], right.2[i])
                && sum_value(right.0[i], right.1[i], right.2[i]).val() == y[i],
    ensures
        u32::of_int(
            bucket_share(prf.0, left.0, right.0, job_size as int, borders, m).val()
                + bucket_share(prf.1, left.1, right.1, job_size as int, borders, m).val()
                + bucket_share(prf.2, left.2, right.2, job_size as int, borders, m).val(),
        ) == u32::of_int(
            value_sum(
                x,
                y,
                (m / borders) * job_size,
                (m % borders) * job_size,
                job_size,
            ),
        ),
{
    let n = job_size as int;
    let (i, k) = (m / borders, m % borders);
    vstd::arithmetic::div_mod::lemma_fundamental_div_mod(m, borders);
    vstd::arithmetic::div_mod::lemma_mod_bound(m, borders);
    assert(0 <= i < borders) by (nonlinear_arith)
        requires
            m == borders * i + k,
            0 <= k < borders,
            0 <= m < borders * borders,
    ;
    let (l, r) = (i * n, k * n);
    assert(0 <= l && l + n <= borders * n) by (nonlinear_arith)
        requires
            l == i * n,
            0 <= i < borders,
            n >= 0,
    ;
    assert(0 <= r && r + n <= borders * n) by (nonlinear_arith)
        requires
            r == k * n,
            0 <= k < borders,
            n >= 0,
    ;
    lemma_product_sums(left, right, x, y, l, r, job_size);
    crate::prf::lemma_stay_in_step::<u32>(prf.0, prf.1, prf.2, m);
    let (a, b, c) = (
        prf.0.after::<u32>(m),
        prf.1.after::<u32>(m),
        prf.2.after::<u32>(m),
    );
    lemma_zero_shares_cancel::<u32>(a, b, c);
    let (za, zb, zc) = (
        a.zero_share::<u32>().val(),
        b.zero_share::<u32>().val(),
        c.zero_share::<u32>().val(),
    );
    let (pa, pb, pc) = (
        product_sum(left.0, right.0, l, r, job_size).val(),
        product_sum(left.1, right.1, l, r, job_size).val(),
        product_sum(left.2, right.2, l, r, job_size).val(),
    );
    lemma_sum3::<u32>(za + pa, zb + pb, zc + pc);
    lemma_absorb::<u32>(za + zb + zc, pa + pb + pc);
    lemma_absorb::<u32>(0, pa + pb + pc);
}

/// A sum of products of bits counts the places at which both bits are set.
proof fn lemma_bits_counted(x: Seq<int>, y: Seq<int>, a: Seq<bool>, b: Seq<bool>, l: int, r: int, n: nat)
    requires
        forall|i: int|
            l <= i < l + n ==> #[trigger] x[i] == if a[i] {
                1int
            } else {
                0int
            },
        forall|i: int|
            r <= i < r + n ==> #[trigger] y[i] == if b[i] {
                1int
            } else {
                0int
            },
    ensures
        value_sum(x, y, l, r, n) == Set::new(|j: int| 0 <= j < n && a[l + j] && b[r + j]).len(),
        Set::new(|j: int| 0 <= j < n && a[l + j] && b[r + j]).finite(),
        Set::new(|j: int| 0 <= j < n && a[l + j] && b[r + j]).len() <= n,
{
    let f = |j: int| a[l + j] && b[r + j];
    let c = |k: int| value_sum(x, y, l, r, k as nat);
    assert forall|k: int| 0 < k <= n implies #[trigger] c(k) == c(k - 1) + if f(k - 1) {
        1int
    } else {
        0int
    } by {
        let (p, q) = (x[l + k - 1], y[r + k - 1]);
        assert(p * q == if f(k - 1) {
            1int
        } else {
            0int
        });
    }
    lemma_counts(f, c, n);
    assert(Set::new(|j: int| 0 <= j < n && f(j)) =~= Set::new(
        |j: int| 0 <= j < n && a[l + j] && b[r + j],
    ));
}

/// The parts of the three parties of a bucket add up to a number of pairs: where the parties share
/// bits, it is the number of indices below `job_size` at which the left bit for the first border and
/// the right bit for the second one are both set. If there are at most `u32::MAX` pairs, the sum in
/// the ring is that number itself.
pub proof fn lemma_bucket_counts_pairs(
    prf: (Prf, Prf, Prf),
    left: (Seq<Share<u32>>, Seq<Share<u32>>, Seq<Share<u32>>),
    right: (Seq<Share<u32>>, Seq<Share<u32>>, Seq<Share<u32>>),
    a: Seq<bool>,
    b: Seq<bool>,
    job_size: nat,
    borders: int,
    i: int,
    k: int,
)
    requires
        in_step(prf.0, prf.1, prf.2),
        0 <= i < borders,
        0 <= k < borders,
        a.len() == borders * job_size,
        b.len() == borders * job_size,
        forall|j: int|
            0 <= j < a.len() ==> consistent(#[trigger] left.0[j], left.1[j], left.2[j])
                && sum_value(left.0[j], left.1[j], left.2[j]) == if a[j] {
                1u32
            } else {
                0u32
            },
        forall|j: int|
            0 <= j < b.len() ==> consistent(#[trigger] right.0[j], right.1[j], right.2[j])
                && sum_value(right.0[j], right.1[j], right.2[j]) == if b[j] {
                1u32
            } else {
                0u32
            },
    ensures
        ({
            let n = job_size as int;
            let m = i * borders + k;
            let both = Set::new(
                |j: int| 0 <= j < job_size && a[i * job_size + j] && b[k * job_size + j],
            );
            let total = (bucket_share(prf.0, left.0, right.0, n, borders, m) + bucket_share(
                prf.1,
                left.1,
                right.1,
                n,
                borders,
                m,
            ) + bucket_share(prf.2, left.2, right.2, n, borders, m)) % 0x1_0000_0000;
            &&& both.finite()
            &&& total == both.len() % 0x1_0000_0000
            &&& job_size <= u32::MAX ==> total == both.len()
        }),
{
    let n = job_size as int;
    let m = i * borders + k;
    let x = Seq::new(
        a.len(),
        |j: int|
            if a[j] {
                1int
            } else {
                0int
            },
    );
    let y = Seq::new(
        b.len(),
        |j: int|
            if b[j] {
                1int
            } else {
                0int
            },
    );
    assert(0 <= m < borders * borders) by (nonlinear_arith)
        requires
            m == i * borders + k,
            0 <= i < borders,
            0 <= k < borders,
    ;
    vstd::arithmetic::div_mod::lemma_fundamental_div_mod_converse(m, borders, i, k);
    assert(0 <= i * n && i * n + n <= borders * n) by (nonlinear_arith)
        requires
            0 <= i < borders,
            n >= 0,
    ;
    assert(0 <= k * n && k * n + n <= borders * n) by (nonlinear_arith)
        requires
            0 <= k < borders,
            n >= 0,
    ;
    lemma_bucket_correct(prf, left, right, x, y, job_size, borders, m);
    lemma_bits_counted(x, y, a, b, i * n, k * n, job_size);
    u32::law_of_int(value_sum(x, y, i * n, k * n, job_size));
}

/// Distances of both sides in the clear and the shares of three parties of them.
#[derive(Debug)]
pub struct TestDistances {
    pub left: crate::anon_stats_1d::TestDistances,
    pub right: crate::anon_stats_1d::TestDistances,
}

/// How many of the first `n` pairs of groups have both least distances below their border.
pub open spec fn pairs_below(
    left: Seq<Vec<[i16; 2]>>,
    right: Seq<Vec<[i16; 2]>>,
    t: u32,
    u: u32,
    n: nat,
) -> nat
    decreases n,
{
    if n == 0 {
        0
    } else {
        let rest = pairs_below(left, right, t, u, (n - 1) as nat);
        let (a, b) = (left[n - 1]@, right[n - 1]@);
        if below_border(nearest(a, a.len()), t) && below_border(nearest(b, b.len()), u) {
            rest + 1
        } else {
            rest
        }
    }
}

/// The counts below a pair of borders count the pairs of groups of which some distance on the left
/// is below the first border and some distance on the right is below the second one.
pub proof fn lemma_pairs_counted(
    left: Seq<Vec<[i16; 2]>>,
    right: Seq<Vec<[i16; 2]>>,
    t: u32,
    u: u32,
)
    requires
        groups_fit(left),
        groups_fit(right),
        left.len() == right.len(),
    ensures
        pairs_below(left, right, t, u, left.len()) == Set::new(
            |g: int|
                0 <= g < left.len() && (exists|k: int|
                    0 <= k < left[g]@.len() && (#[trigger] left[g]@[k])@[0] * 0x1_0000 > t
                        * left[g]@[k]@[1]) && (exists|k: int|
                    0 <= k < right[g]@.len() && (#[trigger] right[g]@[k])@[0] * 0x1_0000 > u
                        * right[g]@[k]@[1]),
        ).len(),
{
    let f = |g: int|
        (exists|k: int|
            0 <= k < left[g]@.len() && (#[trigger] left[g]@[k])@[0] * 0x1_0000 > t
                * left[g]@[k]@[1]) && (exists|k: int|
            0 <= k < right[g]@.len() && (#[trigger] right[g]@[k])@[0] * 0x1_0000 > u
                * right[g]@[k]@[1]);
    let c = |n: int| pairs_below(left, right, t, u, n as nat) as int;
    assert forall|n: int| 0 < n <= left.len() implies #[trigger] c(n) == c(n - 1) + if f(n - 1) {
        1int
    } else {
        0int
    } by {
        assert(group_fits(left[n - 1]@) && group_fits(right[n - 1]@));
        lemma_nearest_below(left[n - 1]@, t);
        lemma_nearest_below(right[n - 1]@, u);
    }
    lemma_counts(f, c, left.len());
    assert(Set::new(|g: int| 0 <= g < left.len() && f(g)) =~= Set::new(
        |g: int|
            0 <= g < left.len() && (exists|k: int|
                0 <= k < left[g]@.len() && (#[trigger] left[g]@[k])@[0] * 0x1_0000 > t
                    * left[g]@[k]@[1]) && (exists|k: int|
                0 <= k < right[g]@.len() && (#[trigger] right[g]@[k])@[0] * 0x1_0000 > u
                    * right[g]@[k]@[1]),
    ));
}

impl TestDistances {
    /// Bundles of the given sizes with the given distances on both sides, and shares of them.
    pub fn generate_ground_truth_input(
        sizes: &[usize],
        left: (&[[i16; 2]], &[[u16; 4]]),
        right: (&[[i16; 2]], &[[u16; 4]]),
    ) -> (r: TestDistances)
        requires
            size_sum(sizes@, sizes@.len()) == left.0@.len(),
            size_sum(sizes@, sizes@.len()) == right.0@.len(),
            left.1@.len() == left.0@.len(),
            right.1@.len() == right.0@.len(),
        ensures
            r.left.distances@.len() == sizes@.len(),
            r.right.distances@.len() == sizes@.len(),
            same_shape(r.left.shares0@, r.left.distances@),
            same_shape(r.left.shares1@, r.left.distances@),
            same_shape(r.left.shares2@, r.left.distances@),
            same_shape(r.right.shares0@, r.right.distances@),
            same_shape(r.right.shares1@, r.right.distances@),
            same_shape(r.right.shares2@, r.right.distances@),
            forall|b: int|
                0 <= b < sizes@.len() ==> (#[trigger] r.left.distances@[b])@.len() == sizes@[b],
            forall|b: int|
                0 <= b < sizes@.len() ==> (#[trigger] r.right.distances@[b])@.len() == sizes@[b],
            flat(r.left.distances@, sizes@.len()) == left.0@,
            flat(r.right.distances@, sizes@.len()) == right.0@,
            shares_bundles(
                left.0@,
                flat(r.left.shares0@, sizes@.len()),
                flat(r.left.shares1@, sizes@.len()),
                flat(r.left.shares2@, sizes@.len()),
            ),
            shares_bundles(
                right.0@,
                flat(r.right.shares0@, sizes@.len()),
                flat(r.right.shares1@, sizes@.len()),
                flat(r.right.shares2@, sizes@.len()),
            ),
    {
        TestDistances {
            left: crate::anon_stats_1d::TestDistances::generate_ground_truth_input(
                sizes,
                left.0,
                left.1,
            ),
            right: crate::anon_stats_1d::TestDistances::generate_ground_truth_input(
                sizes,
                right.0,
                right.1,
            ),
        }
    }

    /// How many pairs are below each pair of borders: entry `m` belongs to border `m / n` of the
    /// left and border `m % n` of the right side, for `n` threshold constants.
    pub fn ground_truth_buckets(&self, translated_thresholds: &[u32]) -> (r: Vec<usize>)
        requires
            groups_fit(self.left.distances@),
            groups_fit(self.right.distances@),
            self.left.distances@.len() == self.right.distances@.len(),
        ensures
            ({
                let n = translated_thresholds@.len() as int;
                r@ == Seq::new(
                    (n * n) as nat,
                    |m: int|
                        pairs_below(
                            self.left.distances@,
                            self.right.distances@,
                            translated_thresholds@[m / n],
                            translated_thresholds@[m % n],
                            self.left.distances@.len(),
                        ) as usize,
                )
            }),
    {
        let n: usize = translated_thresholds.len();
        let len: usize = self.left.distances.len();
        let ghost (a, b) = (self.left.distances@, self.right.distances@);
        let mut out: Vec<usize> = Vec::new();
        let mut i: usize = 0;
        assert(0 * n == 0);
        while i < n
            invariant
                n == translated_thresholds@.len(),
                len == a.len(),
                len == b.len(),
                a == self.left.distances@,
                b == self.right.distances@,
                groups_fit(a),
                groups_fit(b),
                i <= n,
                out@.len() == i * n,
                forall|m: int|
                    0 <= m < out@.len() ==> #[trigger] out@[m] == pairs_below(
                        a,
                        b,
                        translated_thresholds@[m / n as int],
                        translated_thresholds@[m % n as int],
                        len as nat,
                    ),
            decreases n - i,
        {
            let mut j: usize = 0;
            while j < n
                invariant
                    n == translated_thresholds@.len(),
                    len == a.len(),
                    len == b.len(),
                    a == self.left.distances@,
                    b == self.right.distances@,
                    groups_fit(a),
                    groups_fit(b),
                    i < n,
                    j <= n,
                    out@.len() == i * n + j,
                    forall|m: int|
                        0 <= m < out@.len() ==> #[trigger] out@[m] == pairs_below(
                            a,
                            b,
                            translated_thresholds@[m / n as int],
                            translated_thresholds@[m % n as int],
                            len as nat,
                        ),
                decreases n - j,
            {
                let (t, u): (u32, u32) = (translated_thresholds[i], translated_thresholds[j]);
                let mut count: usize = 0;
                let mut g: usize = 0;
                while g < len
                    invariant
                        len == a.len(),
                        len == b.len(),
                        a == self.left.distances@,
                        b == self.right.distances@,
                        groups_fit(a),
                        groups_fit(b),
                        g <= len,
                        count <= g,
                        count == pairs_below(a, b, t, u, g as nat),
                    decreases len - g,
                {
                    assert(group_fits(a[g as int]@) && group_fits(b[g as int]@));
                    let l: bool = is_below_border(nearest_distance(&self.left.distances[g]), t);
                    let r: bool = is_below_border(nearest_distance(&self.right.distances[g]), u);
                    if l && r {
                        count += 1;
                    }
                    g += 1;
                }
                proof {
                    vstd::arithmetic::div_mod::lemma_fundamental_div_mod_converse(
                        i * n + j,
                        n as int,
                        i as int,
                        j as int,
                    );
                }
                out.push(count);
                j += 1;
            }
            assert((i + 1) * n == i * n + n) by (nonlinear_arith);
            i += 1;
        }
        assert(out@ =~= Seq::new(
            (n * n) as nat,
            |m: int|
                pairs_below(
                    self.left.distances@,
                    self.right.distances@,
                    translated_thresholds@[m / n as int],
                    translated_thresholds@[m % n as int],
                    self.left.distances@.len(),
                ) as usize,
        ));
        out
    }
}

} // verus!
