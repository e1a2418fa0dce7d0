//! Statistics in one dimension: bundles of distances, of which the least counts.

use crate::config::AnonStatsServerConfig;
use crate::counting::lemma_counts;
use crate::planes::{flat, lemma_flat_prefix, same_shape};
use crate::ring::IntRing2k;
use crate::select::DistanceShare;
use crate::shares::{consistent, sum_value, Share};
use crate::test_utils::create_single_sharing;
use vstd::prelude::*;

verus! {

/// The distances of all rotations of one comparison.
pub type DistanceBundle1D = Vec<DistanceShare<u16>>;

/// The same, lifted to 32 bits.
pub type LiftedDistanceBundle1D = Vec<DistanceShare<u32>>;

/// What an entry was recorded for.
#[derive(Clone, Copy, Debug, PartialEq, Eq, Structural)]
pub enum AnonStatsOperation {
    Uniqueness,
    Reauth,
}

/// Number of buckets in one dimension for an operation.
pub fn n_buckets_1d_for(config: &AnonStatsServerConfig, operation: Option<AnonStatsOperation>) -> (r:
    usize)
    ensures
        r == (if operation == Some(AnonStatsOperation::Reauth) {
            config.n_buckets_1d_reauth
        } else {
            config.n_buckets_1d
        }),
{
    match operation {
        Some(AnonStatsOperation::Reauth) => config.n_buckets_1d_reauth,
        _ => config.n_buckets_1d,
    }
}

/// Number of buckets in two dimensions for an operation.
pub fn n_buckets_2d_for(config: &AnonStatsServerConfig, operation: Option<AnonStatsOperation>) -> (r:
    usize)
    ensures
        r == (if operation == Some(AnonStatsOperation::Reauth) {
            config.n_buckets_2d_reauth
        } else {
            config.n_buckets_2d
        }),
{
    match operation {
        Some(AnonStatsOperation::Reauth) => config.n_buckets_2d_reauth,
        _ => config.n_buckets_2d,
    }
}

/// Code and mask of all distances, side by side.
pub open spec fn interleaved<T>(d: Seq<DistanceShare<T>>) -> Seq<Share<T>> {
    Seq::new(
        2 * d.len(),
        |i: int|
            if i % 2 == 0 {
                d[i / 2].code_dot
            } else {
                d[i / 2].mask_dot
            },
    )
}

/// First step of lifting bundles: code and mask of all distances, one bundle after the other.
pub fn flatten_bundles(bundles: &[DistanceBundle1D]) -> (r: Vec<Share<u16>>)
    ensures
        r@ == interleaved(flat(bundles@, bundles@.len())),
        r@.len() == 2 * flat(bundles@, bundles@.len()).len(),
        forall|i: int|
            0 <= i < flat(bundles@, bundles@.len()).len() ==> r@[2 * i] == (#[trigger] flat(
                bundles@,
                bundles@.len(),
            )[i]).code_dot && r@[2 * i + 1] == flat(bundles@, bundles@.len())[i].mask_dot,
{
    let mut out: Vec<Share<u16>> = Vec::new();
    let mut i: usize = 0;
    assert(interleaved(flat(bundles@, 0)) =~= Seq::<Share<u16>>::empty());
    while i < bundles.len()
        invariant
            i <= bundles@.len(),
            out@ == interleaved(flat(bundles@, i as nat)),
        decreases bundles@.len() - i,
    {
        let bundle: &Vec<DistanceShare<u16>> = &bundles[i];
        let ghost before = flat(bundles@, i as nat);
        let mut k: usize = 0;
        assert(before + bundle@.take(0) =~= before);
        while k < bundle.len()
            invariant
                k <= bundle@.len(),
                out@ == interleaved(before + bundle@.take(k as int)),
            decreases bundle@.len() - k,
        {
            let d: DistanceShare<u16> = bundle[k];
            out.push(d.code_dot);
            out.push(d.mask_dot);
            proof {
                let next = before + bundle@.take(k + 1);
                assert(next =~= (before + bundle@.take(k as int)).push(d));
                assert(out@ =~= interleaved(next));
            }
            k += 1;
        }
        assert(bundle@.take(k as int) =~= bundle@);
        i += 1;
    }
    out
}

/// Last step of lifting bundles: puts lifted shares back into the shape of the bundles.
pub fn lift_bundles_1d(bundles: &[DistanceBundle1D], lifted: &[Share<u32>]) -> (r: Vec<
    LiftedDistanceBundle1D,
>)
    requires
        lifted@.len() == 2 * flat(bundles@, bundles@.len()).len(),
    ensures
        same_shape(r@, bundles@),
        interleaved(flat(r@, r@.len())) == lifted@,
{
    let total: usize = lifted.len();
    let mut out: Vec<LiftedDistanceBundle1D> = Vec::new();
    let mut at: usize = 0;
    let mut i: usize = 0;
    assert(interleaved(flat(out@, 0)) =~= lifted@.take(0));
    while i < bundles.len()
        invariant
            total == lifted@.len(),
            total == 2 * flat(bundles@, bundles@.len()).len(),
            i <= bundles@.len(),
            at == 2 * flat(bundles@, i as nat).len(),
            out@.len() == i,
            forall|j: int| 0 <= j < i ==> (#[trigger] out@[j])@.len() == bundles@[j]@.len(),
            at <= total,
            interleaved(flat(out@, i as nat)) == lifted@.take(at as int),
        decreases bundles@.len() - i,
    {
        proof {
            lemma_flat_grows(bundles@, (i + 1) as nat, bundles@.len());
        }
        let len: usize = bundles[i].len();
        let ghost before = out@;
        let ghost start = at as int;
        let ghost done = flat(before, i as nat);
        let mut bundle: LiftedDistanceBundle1D = Vec::new();
        let mut k: usize = 0;
        assert(done + bundle@ =~= done);
        while k < len
            invariant
                total == lifted@.len(),
                k <= len,
                at == start + 2 * k,
                start + 2 * len <= total,
                bundle@.len() == k,
                0 <= start,
                interleaved(done + bundle@) == lifted@.take(at as int),
            decreases len - k,
        {
            let code_dot: Share<u32> = lifted[at];
            let mask_dot: Share<u32> = lifted[at + 1];
            let ghost partial = done + bundle@;
            proof {
                assert(interleaved(partial).len() == at);
            }
            bundle.push(DistanceShare { code_dot, mask_dot });
            proof {
                let next = done + bundle@;
                assert(next =~= partial.push(DistanceShare { code_dot, mask_dot }));
                assert forall|j: int| 0 <= j < at + 2 implies #[trigger] interleaved(next)[j]
                    == lifted@[j] by {
                    if j < at {
                        assert(interleaved(partial)[j] == lifted@.take(at as int)[j]);
                    }
                }
                assert(interleaved(next) =~= lifted@.take(at + 2));
            }
            at += 2;
            k += 1;
        }
        out.push(bundle);
        proof {
            lemma_flat_prefix(before, out@, i as nat);
        }
        i += 1;
    }
    assert(lifted@.take(at as int) =~= lifted@);
    out
}

proof fn lemma_flat_grows<A>(x: Seq<Vec<A>>, m: nat, n: nat)
    requires
        m <= n,
    ensures
        flat(x, m).len() <= flat(x, n).len(),
    decreases n,
{
    if m < n {
        lemma_flat_grows(x, m, (n - 1) as nat);
    }
}

/// Shares that were flattened and lifted place by place are in the bundle and at the place where
/// they came from.
pub proof fn lemma_lift_keeps_places(
    bundles: Seq<DistanceBundle1D>,
    lifted: Seq<LiftedDistanceBundle1D>,
    b: int,
    k: int,
)
    requires
        same_shape(lifted, bundles),
        0 <= b < bundles.len(),
        0 <= k < bundles[b]@.len(),
    ensures
        ({
            let at = flat(bundles, b as nat).len() + k;
            let (from, to) = (
                interleaved(flat(bundles, bundles.len())),
                interleaved(flat(lifted, lifted.len())),
            );
            &&& 2 * at + 1 < from.len() == to.len()
            &&& from[2 * at] == bundles[b]@[k].code_dot
            &&& from[2 * at + 1] == bundles[b]@[k].mask_dot
            &&& to[2 * at] == lifted[b]@[k].code_dot
            &&& to[2 * at + 1] == lifted[b]@[k].mask_dot
        }),
{
    assert(lifted[b]@.len() == bundles[b]@.len());
    crate::planes::lemma_flat_index(bundles, bundles.len(), b, k);
    crate::planes::lemma_flat_index(lifted, lifted.len(), b, k);
    crate::planes::lemma_flat_len(lifted, bundles, b as nat);
    crate::planes::lemma_flat_len(lifted, bundles, bundles.len());
}

/// The 16-bit element that stands for a signed number.
pub fn signed_element(x: i16) -> (r: u16)
    ensures
        r == u16::of_int(x as int),
{
    if x < 0 {
        let shifted: i32 = x as i32 + 0x1_0000;
        assert(x as int + 0x1_0000 == shifted);
        proof {
            crate::ring_lemmas::lemma_shift::<u16>(x as int, 1);
            u16::law_of_int(shifted as int);
            crate::ring_lemmas::lemma_small::<u16>(shifted as int);
        }
        shifted as u16
    } else {
        proof {
            crate::ring_lemmas::lemma_small::<u16>(x as int);
        }
        x as u16
    }
}

/// The sum of the first `n` sizes.
pub open spec fn size_sum(sizes: Seq<usize>, n: nat) -> nat
    decreases n,
{
    if n == 0 {
        0
    } else {
        size_sum(sizes, (n - 1) as nat) + sizes[n - 1] as nat
    }
}

proof fn lemma_size_sum_grows(sizes: Seq<usize>, m: nat, n: nat)
    requires
        m <= n,
    ensures
        size_sum(sizes, m) <= size_sum(sizes, n),
    decreases n,
{
    if m < n {
        lemma_size_sum_grows(sizes, m, (n - 1) as nat);
    }
}

/// The sizes of all groups add up.
pub proof fn lemma_sizes_add_up(sizes: Seq<usize>, n: nat)
    requires
        n <= sizes.len(),
    ensures
        size_sum(sizes, n) == sizes.take(n as int).fold_left(0int, |m: int, x: usize| m + x),
    decreases n,
{
    if n > 0 {
        lemma_sizes_add_up(sizes, (n - 1) as nat);
        assert(sizes.take(n as int).drop_last() =~= sizes.take(n - 1));
    }
}

/// Cuts items into bundles of the given sizes.
pub fn split_bundles<A: Copy>(sizes: &[usize], items: &[A]) -> (r: Vec<Vec<A>>)
    requires
        size_sum(sizes@, sizes@.len()) == items@.len(),
    ensures
        r@.len() == sizes@.len(),
        forall|b: int| 0 <= b < r@.len() ==> (#[trigger] r@[b])@.len() == sizes@[b],
        flat(r@, r@.len()) == items@,
{
    let total: usize = items.len();
    let mut out: Vec<Vec<A>> = Vec::new();
    let mut at: usize = 0;
    let mut b: usize = 0;
    assert(flat(out@, 0) =~= items@.take(0));
    while b < sizes.len()
        invariant
            total == items@.len(),
            total == size_sum(sizes@, sizes@.len()),
            b <= sizes@.len(),
            at == size_sum(sizes@, b as nat),
            at <= total,
            out@.len() == b,
            forall|c: int| 0 <= c < b ==> (#[trigger] out@[c])@.len() == sizes@[c],
            flat(out@, b as nat) == items@.take(at as int),
        decreases sizes@.len() - b,
    {
        proof {
            lemma_size_sum_grows(sizes@, (b + 1) as nat, sizes@.len());
        }
        let size: usize = sizes[b];
        let ghost before = out@;
        let mut bundle: Vec<A> = Vec::new();
        let mut k: usize = 0;
        while k < size
            invariant
                total == items@.len(),
                k <= size,
                at + size <= total,
                bundle@ == items@.subrange(at as int, at + k),
            decreases size - k,
        {
            bundle.push(items[at + k]);
            assert(bundle@ =~= items@.subrange(at as int, at + k + 1));
            k += 1;
        }
        out.push(bundle);
        proof {
            lemma_flat_prefix(before, out@, b as nat);
            assert(items@.take(at as int) + items@.subrange(at as int, at + size) =~= items@.take(
                at + size,
            ));
        }
        at += size;
        b += 1;
    }
    assert(items@.take(at as int) =~= items@);
    out
}

/// The shares of three parties are shares of a distance with the given code and mask.
pub open spec fn shares_distance(
    d0: DistanceShare<u16>,
    d1: DistanceShare<u16>,
    d2: DistanceShare<u16>,
    x: [i16; 2],
) -> bool {
    &&& consistent(d0.code_dot, d1.code_dot, d2.code_dot)
    &&& consistent(d0.mask_dot, d1.mask_dot, d2.mask_dot)
    &&& sum_value(d0.code_dot, d1.code_dot, d2.code_dot) == u16::of_int(x@[0] as int)
    &&& sum_value(d0.mask_dot, d1.mask_dot, d2.mask_dot) == u16::of_int(x@[1] as int)
}

/// Splits a distance into shares of three parties, with two random elements for the code and two
/// for the mask.
pub fn share_distance(x: [i16; 2], masks: [u16; 4]) -> (r: (
    DistanceShare<u16>,
    DistanceShare<u16>,
    DistanceShare<u16>,
))
    ensures
        shares_distance(r.0, r.1, r.2, x),
        r.0.code_dot.a == masks@[0],
        r.1.code_dot.a == masks@[1],
        r.0.mask_dot.a == masks@[2],
        r.1.mask_dot.a == masks@[3],
{
    let (c0, c1, c2) = create_single_sharing(masks[0], masks[1], signed_element(x[0]));
    let (m0, m1, m2) = create_single_sharing(masks[2], masks[3], signed_element(x[1]));
    (
        DistanceShare { code_dot: c0, mask_dot: m0 },
        DistanceShare { code_dot: c1, mask_dot: m1 },
        DistanceShare { code_dot: c2, mask_dot: m2 },
    )
}

/// Distances in the clear and the shares of three parties of them.
#[derive(Debug)]
pub struct TestDistances {
    pub distances: Vec<Vec<[i16; 2]>>,
    pub shares0: Vec<DistanceBundle1D>,
    pub shares1: Vec<DistanceBundle1D>,
    pub shares2: Vec<DistanceBundle1D>,
}

/// The shares of three parties are shares of the given distances.
pub open spec fn shares_bundles(
    items: Seq<[i16; 2]>,
    s0: Seq<DistanceShare<u16>>,
    s1: Seq<DistanceShare<u16>>,
    s2: Seq<DistanceShare<u16>>,
) -> bool {
    &&& s0.len() == items.len()
    &&& s1.len() == items.len()
    &&& s2.len() == items.len()
    &&& forall|i: int|
        0 <= i < items.len() ==> shares_distance(#[trigger] s0[i], s1[i], s2[i], items[i])
}

impl TestDistances {
    /// Bundles of the given sizes with the given distances, and shares of them.
    pub fn generate_ground_truth_input(
        sizes: &[usize],
        items: &[[i16; 2]],
        masks: &[[u16; 4]],
    ) -> (r: TestDistances)
        requires
            size_sum(sizes@, sizes@.len()) == items@.len(),
            masks@.len() == items@.len(),
        ensures
            r.distances@.len() == sizes@.len(),
            forall|b: int|
                0 <= b < sizes@.len() ==> (#[trigger] r.distances@[b])@.len() == sizes@[b],
            same_shape(r.shares0@, r.distances@),
            same_shape(r.shares1@, r.distances@),
            same_shape(r.shares2@, r.distances@),
            flat(r.distances@, sizes@.len()) == items@,
            shares_bundles(
                items@,
                flat(r.shares0@, sizes@.len()),
                flat(r.shares1@, sizes@.len()),
                flat(r.shares2@, sizes@.len()),
            ),
    {
        let mut s0: Vec<DistanceShare<u16>> = Vec::new();
        let mut s1: Vec<DistanceShare<u16>> = Vec::new();
        let mut s2: Vec<DistanceShare<u16>> = Vec::new();
        let mut i: usize = 0;
        while i < items.len()
            invariant
                masks@.len() == items@.len(),
                i <= items@.len(),
                s0@.len() == i,
                s1@.len() == i,
                s2@.len() == i,
                forall|j: int|
                    0 <= j < i ==> shares_distance(#[trigger] s0@[j], s1@[j], s2@[j], items@[j]),
            decreases items@.len() - i,
        {
            let (a, b, c) = share_distance(items[i], masks[i]);
            s0.push(a);
            s1.push(b);
            s2.push(c);
            i += 1;
        }
        let distances: Vec<Vec<[i16; 2]>> = split_bundles(sizes, items);
        let shares0: Vec<DistanceBundle1D> = split_bundles(sizes, s0.as_slice());
        let shares1: Vec<DistanceBundle1D> = split_bundles(sizes, s1.as_slice());
        let shares2: Vec<DistanceBundle1D> = split_bundles(sizes, s2.as_slice());
        proof {
            assert forall|b: int| 0 <= b < sizes@.len() implies (#[trigger] shares0@[b])@.len()
                == distances@[b]@.len() by {
                assert(distances@[b]@.len() == sizes@[b]);
            }
            assert forall|b: int| 0 <= b < sizes@.len() implies (#[trigger] shares1@[b])@.len()
                == distances@[b]@.len() by {
                assert(distances@[b]@.len() == sizes@[b]);
            }
            assert forall|b: int| 0 <= b < sizes@.len() implies (#[trigger] shares2@[b])@.len()
                == distances@[b]@.len() by {
                assert(distances@[b]@.len() == sizes@[b]);
            }
        }
        TestDistances { distances, shares0, shares1, shares2 }
    }
}

/// The distance with code and mask `a` is less than that of `b`: its fraction is greater.
pub open spec fn nearer(a: [i16; 2], b: [i16; 2]) -> bool {
    a@[0] * b@[1] > b@[0] * a@[1]
}

/// The least of the first `n` distances of a group, the last one of several.
pub open spec fn nearest(group: Seq<[i16; 2]>, n: nat) -> [i16; 2]
    decreases n,
{
    if n <= 1 {
        group[0]
    } else {
        let a = nearest(group, (n - 1) as nat);
        if nearer(a, group[n - 1]) {
            a
        } else {
            group[n - 1]
        }
    }
}

/// A distance is below the border of a threshold constant: its fraction is above `t / 2^16`.
pub open spec fn below_border(x: [i16; 2], t: u32) -> bool {
    x@[0] * 0x1_0000 > t * x@[1]
}

/// Every group has a distance, and all masks are positive.
pub open spec fn groups_fit(groups: Seq<Vec<[i16; 2]>>) -> bool {
    forall|g: int| 0 <= g < groups.len() ==> group_fits(#[trigger] groups[g]@)
}

/// The group has a distance, and all masks are positive.
pub open spec fn group_fits(group: Seq<[i16; 2]>) -> bool {
    &&& group.len() > 0
    &&& forall|k: int| 0 <= k < group.len() ==> (#[trigger] group[k])@[1] > 0
}

/// How many of the first `n` groups have their least distance below a border.
pub open spec fn groups_below(groups: Seq<Vec<[i16; 2]>>, t: u32, n: nat) -> nat
    decreases n,
{
    if n == 0 {
        0
    } else {
        let rest = groups_below(groups, t, (n - 1) as nat);
        let group = groups[n - 1]@;
        if below_border(nearest(group, group.len()), t) {
            rest + 1
        } else {
            rest
        }
    }
}

/// The least distance of a group is one of the group, and no other is less.
pub proof fn lemma_nearest_is_least(group: Seq<[i16; 2]>, n: nat, k: int)
    requires
        group_fits(group),
        1 <= n <= group.len(),
        0 <= k < n,
    ensures
        exists|j: int| 0 <= j < n && #[trigger] group[j] == nearest(group, n),
        nearest(group, n)@[1] > 0,
        !nearer(group[k], nearest(group, n)),
        group[k]@[0] * nearest(group, n)@[1] <= nearest(group, n)@[0] * group[k]@[1],
    decreases n,
{
    if n == 1 {
        assert(group[0] == nearest(group, n));
    } else {
        let m = (n - 1) as nat;
        let (a, b) = (nearest(group, m), group[n - 1]);
        lemma_nearest_is_least(group, m, 0);
        let j = choose|j: int| 0 <= j < m && #[trigger] group[j] == a;
        assert(b@[1] > 0);
        if nearer(a, b) {
            assert(group[j] == nearest(group, n));
            if k < m {
                lemma_nearest_is_least(group, m, k);
            }
        } else {
            assert(group[n - 1] == nearest(group, n));
            if k < m {
                lemma_nearest_is_least(group, m, k);
                let c = group[k];
                assert(c@[1] > 0);
                // c <= a and a <= b as fractions
                let (c0, c1, a0, a1, b0, b1) = (
                    c@[0] as int,
                    c@[1] as int,
                    a@[0] as int,
                    a@[1] as int,
                    b@[0] as int,
                    b@[1] as int,
                );
                assert(c0 * b1 <= b0 * c1) by (nonlinear_arith)
                    requires
                        c0 * a1 <= a0 * c1,
                        a0 * b1 <= b0 * a1,
                        a1 > 0,
                        b1 > 0,
                        c1 > 0,
                {
                    assert(c0 * a1 * b1 <= a0 * c1 * b1);
                    assert(a0 * b1 * c1 <= b0 * a1 * c1);
                    assert(a1 * (c0 * b1) <= a1 * (b0 * c1));
                }
            }
        }
    }
}

/// Of several least distances of a group the last one is taken: every later one has a smaller
/// fraction of code and mask.
pub proof fn lemma_nearest_is_last(group: Seq<[i16; 2]>, n: nat)
    requires
        group_fits(group),
        1 <= n <= group.len(),
    ensures
        exists|j: int|
            0 <= j < n && #[trigger] group[j] == nearest(group, n) && forall|k: int|
                j < k < n ==> (#[trigger] group[k])@[0] * group[j]@[1] < group[j]@[0]
                    * group[k]@[1],
    decreases n,
{
    if n == 1 {
        assert(group[0] == nearest(group, n));
    } else {
        let m = (n - 1) as nat;
        lemma_nearest_is_last(group, m);
        let j = choose|j: int|
            0 <= j < m && #[trigger] group[j] == nearest(group, m) && forall|k: int|
                j < k < m ==> (#[trigger] group[k])@[0] * group[j]@[1] < group[j]@[0]
                    * group[k]@[1];
        if nearer(nearest(group, m), group[n - 1]) {
            assert(group[j] == nearest(group, n));
        } else {
            assert(group[n - 1] == nearest(group, n));
        }
    }
}

/// The least distance of a group is below a border exactly if some distance of the group is: one
/// whose code and mask have a fraction above `t / 2^16`.
pub proof fn lemma_nearest_below(group: Seq<[i16; 2]>, t: u32)
    requires
        group_fits(group),
    ensures
        below_border(nearest(group, group.len()), t) == exists|k: int|
            0 <= k < group.len() && (#[trigger] group[k])@[0] * 0x1_0000 > t * group[k]@[1],
{
    let x = nearest(group, group.len());
    lemma_nearest_is_least(group, group.len(), 0);
    let j = choose|j: int| 0 <= j < group.len() && #[trigger] group[j] == x;
    assert(group[j]@[0] * 0x1_0000 > t * group[j]@[1] ==> below_border(x, t));
    assert forall|k: int|
        0 <= k < group.len() && (#[trigger] group[k])@[0] * 0x1_0000 > t * group[k]@[1] implies {
        x@[0] * 0x1_0000 > t * x@[1]
    } by {
        lemma_nearest_is_least(group, group.len(), k);
        let (a, b, c, d) = (
            group[k]@[0] as int,
            group[k]@[1] as int,
            x@[0] as int,
            x@[1] as int,
        );
        let u = t as int;
        assert(c * 0x1_0000 > u * d) by (nonlinear_arith)
            requires
                a * d <= c * b,
                a * 0x1_0000 > u * b,
                b > 0,
                d > 0,
        {
            assert((a * 0x1_0000) * d > (u * b) * d);
            assert((c * b) * 0x1_0000 >= (a * d) * 0x1_0000);
            assert(b * (c * 0x1_0000) > b * (u * d));
        }
    }
}

/// The counts below a border count the groups of which some distance is below it.
pub proof fn lemma_groups_counted(groups: Seq<Vec<[i16; 2]>>, t: u32)
    requires
        groups_fit(groups),
    ensures
        groups_below(groups, t, groups.len()) == Set::new(
            |g: int|
                0 <= g < groups.len() && exists|k: int|
                    0 <= k < groups[g]@.len() && (#[trigger] groups[g]@[k])@[0] * 0x1_0000 > t
                        * groups[g]@[k]@[1],
        ).len(),
{
    let f = |g: int|
        exists|k: int|
            0 <= k < groups[g]@.len() && (#[trigger] groups[g]@[k])@[0] * 0x1_0000 > t
                * groups[g]@[k]@[1];
    let c = |n: int| groups_below(groups, t, n as nat) as int;
    assert forall|n: int| 0 < n <= groups.len() implies #[trigger] c(n) == c(n - 1) + if f(n - 1) {
        1int
    } else {
        0int
    } by {
        assert(group_fits(groups[n - 1]@));
        lemma_nearest_below(groups[n - 1]@, t);
    }
    lemma_counts(f, c, groups.len());
    assert(Set::new(|g: int| 0 <= g < groups.len() && f(g)) =~= Set::new(
        |g: int|
            0 <= g < groups.len() && exists|k: int|
                0 <= k < groups[g]@.len() && (#[trigger] groups[g]@[k])@[0] * 0x1_0000 > t
                    * groups[g]@[k]@[1],
    ));
}

/// A distance below a border is below every later one.
pub proof fn lemma_borders_ascend(groups: Seq<Vec<[i16; 2]>>, t: u32, u: u32, n: nat)
    requires
        groups_fit(groups),
        u <= t,
        n <= groups.len(),
    ensures
        groups_below(groups, t, n) <= groups_below(groups, u, n),
        groups_below(groups, u, n) <= n,
    decreases n,
{
    if n > 0 {
        lemma_borders_ascend(groups, t, u, (n - 1) as nat);
        let group = groups[n - 1]@;
        assert(group_fits(group));
        lemma_nearest_is_least(group, group.len(), 0);
        let x = nearest(group, group.len());
        let m = x@[1] as int;
        assert(u * m <= t * m) by (nonlinear_arith)
            requires
                u <= t,
                m > 0,
        ;
    }
}

/// The least distance of a group.
pub fn nearest_distance(group: &Vec<[i16; 2]>) -> (r: [i16; 2])
    requires
        group@.len() > 0,
    ensures
        r == nearest(group@, group@.len()),
{
    let mut best: [i16; 2] = group[0];
    let mut k: usize = 1;
    while k < group.len()
        invariant
            1 <= k <= group@.len(),
            best == nearest(group@, k as nat),
        decreases group@.len() - k,
    {
        let next: [i16; 2] = group[k];
        let (x, y): (i64, i64) = (
            product(best[0], next[1]),
            product(next[0], best[1]),
        );
        if !(x > y) {
            best = next;
        }
        k += 1;
    }
    best
}

fn product(a: i16, b: i16) -> (r: i64)
    ensures
        r == a * b,
{
    assert(-0x4000_0000 <= a * b <= 0x4000_0000) by (nonlinear_arith)
        requires
            -0x8000 <= a < 0x8000,
            -0x8000 <= b < 0x8000,
    ;
    a as i64 * b as i64
}

/// Whether a distance is below the border of a threshold constant.
pub fn is_below_border(x: [i16; 2], t: u32) -> (r: bool)
    ensures
        r == below_border(x, t),
        r == (x@[0] * 0x1_0000 > t * x@[1]),
{
    let m: i16 = x[1];
    assert(-0x8000 * 0x1_0000_0000 <= t * m <= 0x8000 * 0x1_0000_0000) by (nonlinear_arith)
        requires
            0 <= t < 0x1_0000_0000,
            -0x8000 <= m < 0x8000,
    ;
    x[0] as i64 * 0x1_0000 > t as i64 * m as i64
}

impl TestDistances {
    /// How many groups fall into each bucket. The threshold constants descend, so their borders
    /// ascend; the first bucket begins at zero.
    pub fn ground_truth_buckets(&self, translated_thresholds: &[u32]) -> (r: Vec<usize>)
        requires
            translated_thresholds@.len() > 0,
            groups_fit(self.distances@),
            forall|i: int|
                0 < i < translated_thresholds@.len() ==> #[trigger] translated_thresholds@[i]
                    <= translated_thresholds@[i - 1],
        ensures
            r@.len() == translated_thresholds@.len(),
            forall|i: int|
                0 <= i < r@.len() ==> #[trigger] r@[i] == groups_below(
                    self.distances@,
                    translated_thresholds@[i],
                    self.distances@.len(),
                ) - (if i == 0 {
                    0
                } else {
                    groups_below(
                        self.distances@,
                        translated_thresholds@[i - 1],
                        self.distances@.len(),
                    ) as int
                }),
    {
        let len: usize = self.distances.len();
        let ghost groups = self.distances@;
        let mut out: Vec<usize> = Vec::new();
        let mut previous: usize = 0;
        let mut i: usize = 0;
        while i < translated_thresholds.len()
            invariant
                len == groups.len(),
                groups == self.distances@,
                groups_fit(groups),
                forall|j: int|
                    0 < j < translated_thresholds@.len() ==> #[trigger] translated_thresholds@[j]
                        <= translated_thresholds@[j - 1],
                i <= translated_thresholds@.len(),
                out@.len() == i,
                previous == (if i == 0 {
                    0
                } else {
                    groups_below(groups, translated_thresholds@[i - 1], len as nat)
                }),
                forall|j: int|
                    0 <= j < i ==> #[trigger] out@[j] == groups_below(
                        groups,
                        translated_thresholds@[j],
                        len as nat,
                    ) - (if j == 0 {
                        0
                    } else {
                        groups_below(groups, translated_thresholds@[j - 1], len as nat) as int
                    }),
            decreases translated_thresholds@.len() - i,
        {
            let t: u32 = translated_thresholds[i];
            let mut count: usize = 0;
            let mut g: usize = 0;
            while g < len
                invariant
                    len == groups.len(),
                    groups == self.distances@,
                    groups_fit(groups),
                    g <= len,
                    count <= g,
                    count == groups_below(groups, t, g as nat),
                decreases len - g,
            {
                assert(group_fits(groups[g as int]@));
                if is_below_border(nearest_distance(&self.distances[g]), t) {
                    count += 1;
                }
                g += 1;
            }
            proof {
                if i > 0 {
                    lemma_borders_ascend(
                        groups,
                        translated_thresholds@[i - 1],
                        translated_thresholds@[i as int],
                        len as nat,
                    );
                }
            }
            out.push(count - previous);
            previous = count;
            i += 1;
        }
        out
    }
}

} // verus!
