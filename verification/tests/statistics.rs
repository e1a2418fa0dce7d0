//! Statistics over shared distances, from the shares to the opened buckets.

use ampc_core::adders::{add3_reduce, add3_request, TwoCarriesAdder};
use ampc_core::anon_stats_1d::{
    self, flatten_bundles, is_below_border, lift_bundles_1d, n_buckets_1d_for, n_buckets_2d_for,
    nearest_distance, share_distance, signed_element, split_bundles, AnonStatsOperation,
    DistanceBundle1D, LiftedDistanceBundle1D,
};
use ampc_core::anon_stats_2d::{self, bucket_sums_2d, lift_bundles_2d};
use ampc_core::anon_stats_face::{
    self, bucket_results, build_thresholds, shift_distances, sum_shares, FaceBucket,
};
use ampc_core::binary::{and_many, and_many_send};
use ampc_core::bit_inject::{
    bit_inject_party0_finish, bit_inject_party0_send, bit_inject_party1_finish,
    bit_inject_party1_send, bit_inject_party2, inject_position,
};
use ampc_core::bit_slice::{transpose_pack_u64, word_count};
use ampc_core::config::AnonStatsServerConfig;
use ampc_core::extract_msb::{
    extract_msb_batch, extract_msb_planes, lift, lift_carry_bits, lift_planes,
};
use ampc_core::fhd_ops::cross_mul;
use ampc_core::message::{pack, Wire};
use ampc_core::ops::{
    batch_signed_lift, batch_signed_lift_offset, open_ring, open_ring_element_broadcast,
    open_ring_message, reshare_products,
};
use ampc_core::planes::{transposed_pack_and, transposed_pack_and_send};
use ampc_core::player::Role;
use ampc_core::prefix_adder::{add2_request, PrefixAdder};
use ampc_core::prf::{Prf, PrfDraw};
use ampc_core::ring::IntRing2k;
use ampc_core::select::{
    conditionally_select_distance, conditionally_select_distance_send, DistanceShare,
};
use ampc_core::shares::Share;
use ampc_core::two_way_split::{two_way_split, two_way_split_send, SplitSent};
use rand::rngs::StdRng;
use rand::{Rng, SeedableRng};

fn setup_prfs() -> Vec<Prf> {
    let seeds: Vec<[u8; 16]> = (1..4_u8).map(|i| [i; 16]).collect();
    (0..3_usize)
        .map(|i| Prf::new(&seeds[i], &seeds[(i + 2) % 3]))
        .collect()
}

fn open<T: IntRing2k + Wire + PartialEq + std::fmt::Debug>(shares: &[Vec<Share<T>>]) -> Vec<T> {
    let opened: Vec<Vec<T>> = (0..3)
        .map(|i| {
            let from_prev = open_ring_message(&shares[(i + 2) % 3]);
            open_ring(&shares[i], &from_prev).unwrap()
        })
        .collect();
    assert_eq!(opened[0], opened[1]);
    assert_eq!(opened[1], opened[2]);
    opened[0].clone()
}

fn run_and<T: IntRing2k + PrfDraw + Wire>(
    prfs: &mut [Prf],
    a: &[Vec<Share<T>>],
    b: &[Vec<Share<T>>],
) -> Vec<Vec<Share<T>>> {
    let own: Vec<Vec<T>> = (0..3)
        .map(|i| and_many_send(&mut prfs[i], &a[i], &b[i]).unwrap())
        .collect();
    (0..3)
        .map(|i| and_many(&own[i], &pack(&own[(i + 2) % 3])).unwrap())
        .collect()
}

/// The bitwise and of batches that are given plane by plane.
fn run_planes_and(
    prfs: &mut [Prf],
    requests: &[(Vec<Vec<Share<u64>>>, Vec<Vec<Share<u64>>>)],
) -> Vec<Vec<Vec<Share<u64>>>> {
    let own: Vec<Vec<u64>> = (0..3)
        .map(|i| {
            transposed_pack_and_send(&mut prfs[i], &requests[i].0, &requests[i].1).unwrap()
        })
        .collect();
    (0..3)
        .map(|i| transposed_pack_and(&requests[i].0, &own[i], &own[(i + 2) % 3]).unwrap())
        .collect()
}

fn run_bit_inject<T: IntRing2k + PrfDraw>(
    prfs: &mut [Prf],
    session_id: u32,
    bits: &[Vec<Share<bool>>],
) -> Vec<Vec<Share<T>>> {
    // The party at each position.
    let mut at = [0_usize; 3];
    for party in 0..3_usize {
        at[inject_position(Role::new(party), session_id).unwrap()] = party;
    }
    let zero = bit_inject_party0_send::<T>(&mut prfs[at[0]], &bits[at[0]]);
    let one = bit_inject_party1_send::<T>(&mut prfs[at[1]], &bits[at[1]]);
    let (two, shares_2) = bit_inject_party2(&mut prfs[at[2]], &bits[at[2]], &one.x).unwrap();
    let shares_0 = bit_inject_party0_finish(&bits[at[0]], &zero, &two.z);
    let shares_1 = bit_inject_party1_finish(&one, &zero.y);
    let mut out = vec![Vec::new(); 3];
    out[at[0]] = shares_0;
    out[at[1]] = shares_1;
    out[at[2]] = shares_2;
    out
}

fn run_two_way_split<T: IntRing2k + PrfDraw>(
    prfs: &mut [Prf],
    input: &[Vec<Share<T>>],
) -> Vec<(Vec<Share<T>>, Vec<Share<T>>)> {
    let sent: Vec<SplitSent<T>> = (0..3)
        .map(|i| two_way_split_send(Role::new(i), &mut prfs[i], &input[i]).unwrap())
        .collect();
    (0..3)
        .map(|i| two_way_split(Role::new(i), &input[i], &sent[i], &sent[(i + 2) % 3].t).unwrap())
        .collect()
}

fn run_extract_msb<T: IntRing2k + PrfDraw>(
    prfs: &mut [Prf],
    input: &[Vec<Share<T>>],
) -> Vec<Vec<Share<bool>>> {
    let len = input[0].len();
    let words = word_count(len);
    let planes: Vec<(Vec<Vec<Share<u64>>>, Vec<Vec<Share<u64>>>)> = run_two_way_split(prfs, input)
        .iter()
        .map(|(x1, x2)| extract_msb_planes(x1, x2))
        .collect();
    let requests: Vec<_> = planes
        .iter()
        .map(|(x1, x2)| add2_request(x1, x2).unwrap())
        .collect();
    let mut products = run_planes_and(prfs, &requests);
    let mut adders: Vec<PrefixAdder<Share<u64>>> = planes
        .iter()
        .map(|(x1, x2)| PrefixAdder::start(x1, x2, products.remove(0), words).unwrap())
        .collect();
    while adders[0].request().is_some() {
        let requests: Vec<_> = adders.iter().map(|a| a.request().unwrap()).collect();
        let mut products = run_planes_and(prfs, &requests);
        adders = adders
            .into_iter()
            .map(|a| a.absorb(&products.remove(0)).unwrap())
            .collect();
    }
    adders
        .into_iter()
        .map(|a| extract_msb_batch(&a.finish(), len))
        .collect()
}

fn run_lift(prfs: &mut [Prf], shares: &[Vec<Share<u16>>]) -> Vec<Vec<Share<u32>>> {
    let len = shares[0].len();
    let words = word_count(len);
    let parts: Vec<_> = (0..3)
        .map(|i| lift_planes(Role::new(i), &transpose_pack_u64(&shares[i])).unwrap())
        .collect();
    let requests: Vec<_> = parts
        .iter()
        .map(|(x1, x2, x3)| add3_request(x1, x2, x3).unwrap())
        .collect();
    let products = run_planes_and(prfs, &requests);
    let mut adders: Vec<TwoCarriesAdder<Share<u64>>> = parts
        .iter()
        .zip(&products)
        .map(|((x1, x2, x3), p)| {
            let (s, c) = add3_reduce(x1, x2, x3, p).unwrap();
            TwoCarriesAdder::new(s, c, words)
        })
        .collect();
    while adders[0].chain.request().is_some() {
        let requests: Vec<_> = adders.iter().map(|a| a.chain.request().unwrap()).collect();
        let lhs: Vec<Vec<Share<u64>>> = requests.iter().map(|r| r.0.clone()).collect();
        let rhs: Vec<Vec<Share<u64>>> = requests.iter().map(|r| r.1.clone()).collect();
        let products = run_and(prfs, &lhs, &rhs);
        for (adder, product) in adders.iter_mut().zip(&products) {
            adder.chain.absorb(product).unwrap();
        }
    }
    let requests: Vec<_> = adders.iter().map(|a| a.top_request()).collect();
    let lhs: Vec<Vec<Share<u64>>> = requests.iter().map(|r| r.0.clone()).collect();
    let rhs: Vec<Vec<Share<u64>>> = requests.iter().map(|r| r.1.clone()).collect();
    let mut products = run_and(prfs, &lhs, &rhs);
    let carry_bits: Vec<Vec<Share<bool>>> = adders
        .into_iter()
        .map(|a| {
            let (lower, upper) = a.finish(products.remove(0));
            lift_carry_bits(&lower, &upper, len)
        })
        .collect();
    let carries = run_bit_inject::<u16>(prfs, 0, &carry_bits);
    (0..3)
        .map(|i| lift(&shares[i], &carries[i]).unwrap())
        .collect()
}

fn run_signed_lift(prfs: &mut [Prf], shares: &[Vec<Share<u16>>]) -> Vec<Vec<Share<u32>>> {
    let offset: Vec<Vec<Share<u16>>> = (0..3)
        .map(|i| batch_signed_lift_offset(Role::new(i), &shares[i]))
        .collect();
    let lifted = run_lift(prfs, &offset);
    (0..3)
        .map(|i| batch_signed_lift(Role::new(i), &lifted[i]))
        .collect()
}

/// The threshold constants of evenly spaced borders up to the given ratio.
fn threshold_constants(n_buckets: usize, upper_ratio: f64) -> Vec<u32> {
    (1..=n_buckets)
        .map(|x| {
            let t = upper_ratio / (n_buckets as f64) * (x as f64);
            ((1. - 2. * t) * 65536.) as u32
        })
        .collect()
}

/// Random bundles: sizes, code and mask dots.
fn random_items(rng: &mut StdRng, sizes: &[usize]) -> (Vec<[i16; 2]>, Vec<[u16; 4]>) {
    let flat_size: usize = sizes.iter().sum();
    let items = (0..flat_size)
        .map(|_| {
            let mask = rng.gen_range(6000i16..12000);
            let code = rng.gen_range(-12000i16..12000);
            [code, mask]
        })
        .collect();
    let masks = (0..flat_size).map(|_| rng.gen()).collect();
    (items, masks)
}

fn run_lift_bundles(
    prfs: &mut [Prf],
    bundles: &[&Vec<DistanceBundle1D>],
) -> Vec<Vec<LiftedDistanceBundle1D>> {
    let flat: Vec<Vec<Share<u16>>> = bundles.iter().map(|b| flatten_bundles(b)).collect();
    let lifted = run_signed_lift(prfs, &flat);
    bundles
        .iter()
        .zip(&lifted)
        .map(|(b, l)| lift_bundles_1d(b, l))
        .collect()
}

/// The lesser distance of every pair.
fn run_min_of_pairs(
    prfs: &mut [Prf],
    pairs: &[Vec<(DistanceShare<u32>, DistanceShare<u32>)>],
) -> Vec<Vec<DistanceShare<u32>>> {
    let own: Vec<Vec<u32>> = (0..3).map(|i| cross_mul(&mut prfs[i], &pairs[i])).collect();
    let diffs: Vec<Vec<Share<u32>>> = (0..3)
        .map(|i| reshare_products(&own[i], &own[(i + 2) % 3]))
        .collect();
    let bits = run_extract_msb(prfs, &diffs);
    let control = run_bit_inject::<u32>(prfs, 1, &bits);
    let own: Vec<Vec<u32>> = (0..3)
        .map(|i| conditionally_select_distance_send(&mut prfs[i], &pairs[i], &control[i]).unwrap())
        .collect();
    (0..3)
        .map(|i| conditionally_select_distance(&pairs[i], &own[i], &own[(i + 2) % 3]))
        .collect()
}

/// The least distance of every bundle.
fn run_reduce(
    prfs: &mut [Prf],
    bundles: &[Vec<LiftedDistanceBundle1D>],
) -> Vec<Vec<DistanceShare<u32>>> {
    let mut current: Vec<Vec<LiftedDistanceBundle1D>> = bundles.to_vec();
    while current[0].iter().any(|b| b.len() > 1) {
        let pairs: Vec<Vec<(DistanceShare<u32>, DistanceShare<u32>)>> = current
            .iter()
            .map(|bundles| {
                bundles
                    .iter()
                    .flat_map(|b| b.chunks_exact(2).map(|c| (c[0], c[1])))
                    .collect()
            })
            .collect();
        let reduced = run_min_of_pairs(prfs, &pairs);
        current = current
            .iter()
            .zip(&reduced)
            .map(|(bundles, lesser)| {
                let mut at = 0;
                bundles
                    .iter()
                    .map(|b| {
                        let mut next = lesser[at..at + b.len() / 2].to_vec();
                        at += b.len() / 2;
                        if b.len() % 2 == 1 {
                            next.push(b[b.len() - 1]);
                        }
                        next
                    })
                    .collect()
            })
            .collect();
    }
    current
        .into_iter()
        .map(|bundles| bundles.into_iter().map(|b| b[0]).collect())
        .collect()
}

/// For each threshold in turn, shares of the bits that tell which distances are below it.
fn run_compare(
    prfs: &mut [Prf],
    distances: &[Vec<DistanceShare<u32>>],
    thresholds: &[u32],
) -> Vec<Vec<Share<u32>>> {
    let diffs: Vec<Vec<Share<u32>>> = distances
        .iter()
        .map(|party| {
            thresholds
                .iter()
                .flat_map(|t| {
                    party
                        .iter()
                        .map(|d| d.mask_dot.times(*t).minus(d.code_dot.times(0x1_0000)))
                })
                .collect()
        })
        .collect();
    let bits = run_extract_msb(prfs, &diffs);
    run_bit_inject(prfs, 2, &bits)
}

#[test]
fn test_face_distances() {
    let mut rng = StdRng::seed_from_u64(91);
    let thresholds = build_thresholds(-2000, 5000, 200);
    assert_eq!(thresholds.len(), 36);
    let distances: Vec<i16> = (0..10000).map(|_| rng.gen_range(-1000..=5000)).collect();
    let masks: Vec<(u16, u16)> = (0..10000).map(|_| rng.gen()).collect();
    let ground_truth =
        anon_stats_face::TestDistances::generate_ground_truth_input(distances, &masks);
    let ground_truth_buckets = ground_truth.ground_truth_buckets(&thresholds);
    let shares = [
        &ground_truth.shares0,
        &ground_truth.shares1,
        &ground_truth.shares2,
    ];
    let mut prfs = setup_prfs();
    let mut sums: Vec<Vec<Share<u32>>> = vec![Vec::new(); 3];
    for threshold in &thresholds {
        let shifted: Vec<Vec<Share<u16>>> = (0..3)
            .map(|i| shift_distances(Role::new(i), shares[i], *threshold))
            .collect();
        let bits = run_extract_msb(&mut prfs, &shifted);
        let injected = run_bit_inject::<u32>(&mut prfs, 0, &bits);
        for (sum, shares) in sums.iter_mut().zip(&injected) {
            sum.push(sum_shares(shares));
        }
    }
    let counts = open(&sums);
    let buckets = bucket_results(&counts, &thresholds);
    assert_eq!(
        buckets.len(),
        ground_truth_buckets.len(),
        "Number of buckets mismatch"
    );
    for (i, bucket) in buckets.iter().enumerate() {
        assert_eq!(bucket, &ground_truth_buckets[i], "Bucket {i} mismatch");
    }
}

#[test]
fn an_empty_face_job_has_empty_buckets() {
    let thresholds = build_thresholds(-10, 10, 10);
    let mut prfs = setup_prfs();
    let mut sums: Vec<Vec<Share<u32>>> = vec![Vec::new(); 3];
    for threshold in &thresholds {
        let shifted: Vec<Vec<Share<u16>>> = (0..3)
            .map(|i| shift_distances(Role::new(i), &[], *threshold))
            .collect();
        let bits = run_extract_msb(&mut prfs, &shifted);
        let injected = run_bit_inject::<u32>(&mut prfs, 0, &bits);
        for (sum, shares) in sums.iter_mut().zip(&injected) {
            sum.push(sum_shares(shares));
        }
    }
    let counts = open(&sums);
    assert_eq!(counts, vec![0, 0, 0]);
    let buckets = bucket_results(&counts, &thresholds);
    assert_eq!(buckets.len(), 2);
    assert!(buckets.iter().all(|bucket| bucket.count == 0));
}

#[test]
fn the_lower_distance_of_each_pair_comes_out() {
    let mut rng = StdRng::seed_from_u64(96);
    let share = |rng: &mut StdRng, v: i32| -> [Share<u32>; 3] {
        let (a, b): (u32, u32) = rng.gen();
        let c = (v as u32).wrapping_sub(a).wrapping_sub(b);
        [Share::new(a, c), Share::new(b, a), Share::new(c, b)]
    };
    let mut pairs = vec![Vec::new(); 3];
    let mut expected = Vec::new();
    let mut plain: Vec<[i32; 4]> = (0..200)
        .map(|_| {
            let (m1, m2) = (rng.gen_range(0..0x8000), rng.gen_range(0..0x8000));
            [rng.gen_range(-0x8000..0x8000), m1, rng.gen_range(-0x8000..0x8000), m2]
        })
        .collect();
    plain.push([10, 20, 1, 2]);
    plain.push([-0x8000, 0x7fff, 0x7fff, 0x7fff]);
    for [c1, m1, c2, m2] in plain {
        let parts: Vec<[Share<u32>; 3]> =
            [c1, m1, c2, m2].iter().map(|v| share(&mut rng, *v)).collect();
        for (i, list) in pairs.iter_mut().enumerate() {
            list.push((
                DistanceShare { code_dot: parts[0][i], mask_dot: parts[1][i] },
                DistanceShare { code_dot: parts[2][i], mask_dot: parts[3][i] },
            ));
        }
        // The greater fraction of code and mask is the lower distance.
        expected.push(if (c2 as i64) * (m1 as i64) < (c1 as i64) * (m2 as i64) {
            (c1 as u32, m1 as u32)
        } else {
            (c2 as u32, m2 as u32)
        });
    }
    let lower = run_min_of_pairs(&mut setup_prfs(), &pairs);
    let codes: Vec<Vec<Share<u32>>> =
        lower.iter().map(|l| l.iter().map(|d| d.code_dot).collect()).collect();
    let masks: Vec<Vec<Share<u32>>> =
        lower.iter().map(|l| l.iter().map(|d| d.mask_dot).collect()).collect();
    let opened: Vec<(u32, u32)> = open(&codes).into_iter().zip(open(&masks)).collect();
    assert_eq!(opened, expected);
}

#[test]
fn test_1d_distances() {
    let mut rng = StdRng::seed_from_u64(92);
    let num_buckets_1d = 10;
    let thresholds = threshold_constants(num_buckets_1d, 0.375);
    let sizes: Vec<usize> = (0..1000).map(|_| rng.gen_range(1..=12)).collect();
    let (items, masks) = random_items(&mut rng, &sizes);
    let ground_truth =
        anon_stats_1d::TestDistances::generate_ground_truth_input(&sizes, &items, &masks);
    let ground_truth_buckets = ground_truth.ground_truth_buckets(&thresholds);

    let mut prfs = setup_prfs();
    let lifted = run_lift_bundles(
        &mut prfs,
        &[
            &ground_truth.shares0,
            &ground_truth.shares1,
            &ground_truth.shares2,
        ],
    );
    let nearest = run_reduce(&mut prfs, &lifted);
    let bits = run_compare(&mut prfs, &nearest, &thresholds);
    let sums: Vec<Vec<Share<u32>>> = bits
        .iter()
        .map(|b| b.chunks(sizes.len()).map(sum_shares).collect())
        .collect();
    let below = open(&sums);
    let mut buckets = vec![below[0] as usize];
    for pair in below.windows(2) {
        buckets.push((pair[1] - pair[0]) as usize);
    }
    assert_eq!(buckets, ground_truth_buckets);
    assert_eq!(buckets.len(), num_buckets_1d);
    assert!(buckets.iter().sum::<usize>() > 0);
}

fn distances_2d(num_buckets: usize, upper_ratio: f64, max_rotations: usize, seed: u64) {
    let mut rng = StdRng::seed_from_u64(seed);
    let thresholds = threshold_constants(num_buckets, upper_ratio);
    let sizes: Vec<usize> = (0..1000)
        .map(|_| rng.gen_range(1..=max_rotations))
        .collect();
    let (left_items, left_masks) = random_items(&mut rng, &sizes);
    let (right_items, right_masks) = random_items(&mut rng, &sizes);
    let ground_truth = anon_stats_2d::TestDistances::generate_ground_truth_input(
        &sizes,
        (&left_items, &left_masks),
        (&right_items, &right_masks),
    );
    let ground_truth_buckets = ground_truth.ground_truth_buckets(&thresholds);

    let mut prfs = setup_prfs();
    let mut side = |shares: &[&Vec<DistanceBundle1D>]| -> Vec<Vec<Share<u32>>> {
        let lifted = run_lift_bundles(&mut prfs, shares);
        let nearest = run_reduce(&mut prfs, &lifted);
        run_compare(&mut prfs, &nearest, &thresholds)
    };
    let left = side(&[
        &ground_truth.left.shares0,
        &ground_truth.left.shares1,
        &ground_truth.left.shares2,
    ]);
    let right = side(&[
        &ground_truth.right.shares0,
        &ground_truth.right.shares1,
        &ground_truth.right.shares2,
    ]);
    let own: Vec<Vec<u32>> = (0..3)
        .map(|i| bucket_sums_2d(&mut prfs[i], &left[i], &right[i], sizes.len(), num_buckets))
        .collect();
    for i in 0..3 {
        let prev = pack(&own[(i + 2) % 3]);
        let next = pack(&own[(i + 1) % 3]);
        let opened = open_ring_element_broadcast(&own[i], &prev, &next).unwrap();
        let buckets: Vec<usize> = opened.into_iter().map(|b| b as usize).collect();
        assert_eq!(buckets, ground_truth_buckets);
    }
}

#[test]
fn test_2d_distances() {
    distances_2d(10, 0.375, 12, 93);
}

#[test]
fn test_2d_distances_reauth() {
    distances_2d(15, 0.5, 31, 94);
}

#[test]
fn exact_ground_truth_agrees_with_fractions() {
    let mut rng = StdRng::seed_from_u64(95);
    let thresholds = threshold_constants(10, 0.375);
    let sizes = vec![3_usize; 200];
    let (items, masks) = random_items(&mut rng, &sizes);
    let truth = anon_stats_1d::TestDistances::generate_ground_truth_input(&sizes, &items, &masks);
    let mut below = vec![0_usize; thresholds.len()];
    for group in &truth.distances {
        let fraction = |x: &[i16; 2]| 0.5 - (x[0] as f64) / (2.0 * x[1] as f64);
        let least = group
            .iter()
            .map(fraction)
            .fold(f64::INFINITY, |a, b| if b < a { b } else { a });
        assert_eq!(fraction(&nearest_distance(group)), least);
        for (i, t) in thresholds.iter().enumerate() {
            let border = 0.5 - (*t as f64) / (2.0 * 65536.0);
            assert_eq!(is_below_border(nearest_distance(group), *t), least < border);
            if least < border {
                below[i] += 1;
            }
        }
    }
    let mut expected = vec![below[0]];
    for pair in below.windows(2) {
        expected.push(pair[1] - pair[0]);
    }
    assert_eq!(truth.ground_truth_buckets(&thresholds), expected);
}

#[test]
fn borders_are_strict() {
    // code / mask = 1 / 4 lies on the border of the constant 2^16 / 4.
    assert!(!is_below_border([100, 400], 16384));
    assert!(is_below_border([101, 400], 16384));
    assert!(!is_below_border([99, 400], 16384));
    // Of equal distances either stands for the group.
    let nearest = nearest_distance(&vec![[1, 4], [100, 400], [0, 7]]);
    assert_eq!(nearest[0] as i32 * 4, nearest[1] as i32);
}

#[test]
fn bundles_keep_their_shape() {
    assert_eq!(
        split_bundles(&[2, 0, 1], &[7, 8, 9]),
        vec![vec![7, 8], vec![], vec![9]]
    );
    assert_eq!(signed_element(-1), 0xffff);
    let (s0, s1, s2) = share_distance([-5, 300], [11, 22, 33, 44]);
    let code = s0.code_dot.a.wrapping_add(s1.code_dot.a).wrapping_add(s2.code_dot.a);
    let mask = s0.mask_dot.a.wrapping_add(s1.mask_dot.a).wrapping_add(s2.mask_dot.a);
    assert_eq!((code as i16, mask), (-5, 300));
    assert_eq!(s1.code_dot.b, s0.code_dot.a);
    let bundles: Vec<DistanceBundle1D> = vec![vec![s0, s1], vec![], vec![s2]];
    let flat = flatten_bundles(&bundles);
    assert_eq!(flat.len(), 6);
    assert_eq!(flat[1], s0.mask_dot);
    assert_eq!(flat[4], s2.code_dot);
    let wide: Vec<Share<u32>> = (0..6).map(|i| Share::new(i, i + 10)).collect();
    let lifted = lift_bundles_1d(&bundles, &wide);
    assert_eq!(
        lifted.iter().map(|b| b.len()).collect::<Vec<_>>(),
        vec![2, 0, 1]
    );
    assert_eq!(lifted[2][0].code_dot, wide[4]);
    assert_eq!(lifted[2][0].mask_dot, wide[5]);
    let both = lift_bundles_2d(lifted.clone(), lifted.clone());
    assert_eq!(both[2].0, both[2].1);
    assert_eq!(both.len(), 3);
}

#[test]
fn face_buckets_begin_at_their_border() {
    assert_eq!(build_thresholds(3, 9, 3), vec![3, 6, 9]);
    assert_eq!(build_thresholds(3, 8, 3), vec![3, 6]);
    assert_eq!(build_thresholds(3, 2, 3), Vec::<i16>::new());
    assert_eq!(build_thresholds(32000, i16::MAX, 500), vec![32000, 32500]);
    let truth = anon_stats_face::TestDistances::generate_ground_truth_input(
        vec![2, 3, 5, 6, 8, 9],
        &[(1, 2); 6],
    );
    let buckets = truth.ground_truth_buckets(&[3, 6, 9]);
    assert_eq!(
        buckets,
        vec![
            FaceBucket {
                count: 2,
                from: 3,
                to: 6
            },
            FaceBucket {
                count: 2,
                from: 6,
                to: 9
            },
        ]
    );
    assert_eq!(bucket_results(&[1, 3, 5], &[3, 6, 9]), buckets);
    assert_eq!(bucket_results(&[], &[]), vec![]);
    assert_eq!(
        sum_shares(&[Share::new(1, 2), Share::new(u32::MAX, 5)]),
        Share::new(0, 7)
    );
}

#[test]
fn operations_choose_the_number_of_buckets() {
    let mut config = AnonStatsServerConfig::test_default();
    config.n_buckets_1d = 1;
    config.n_buckets_1d_reauth = 2;
    config.n_buckets_2d = 3;
    config.n_buckets_2d_reauth = 4;
    let uniqueness = Some(AnonStatsOperation::Uniqueness);
    let reauth = Some(AnonStatsOperation::Reauth);
    assert_eq!(n_buckets_1d_for(&config, None), 1);
    assert_eq!(n_buckets_1d_for(&config, uniqueness), 1);
    assert_eq!(n_buckets_1d_for(&config, reauth), 2);
    assert_eq!(n_buckets_2d_for(&config, None), 3);
    assert_eq!(n_buckets_2d_for(&config, uniqueness), 3);
    assert_eq!(n_buckets_2d_for(&config, reauth), 4);
}
