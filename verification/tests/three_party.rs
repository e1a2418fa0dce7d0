//! Three parties with replicated shares: products, bit injection, splitting, sign extraction,
//! lifting, comparison, selection and swapping, run step by step for all parties.

use ampc_core::adders::{add3_reduce, add3_request, CarryChain, TwoCarriesAdder};
use ampc_core::and_product::AndProduct;
use ampc_core::binary::{a2b_pre, and_many, and_many_send, open_bin, open_bin_message};
use ampc_core::bit_inject::{
    bit_inject_party0_finish, bit_inject_party0_send, bit_inject_party1_finish,
    bit_inject_party1_send, bit_inject_party2, inject_position,
};
use ampc_core::bit_slice::{
    pack_bits, pack_shares, transpose_pack_u64, unpack_shares, word_count,
};
use ampc_core::extract_msb::{
    extract_msb_batch, extract_msb_planes, lift, lift_carry_bits, lift_planes, mul_lift_2k,
    mul_lift_2k_many, single_extract_msb,
};
use ampc_core::fhd_ops::{
    cross_mul, fhd_greater_than_anon_stats_from_galois, fhd_greater_than_anon_stats_threshold,
    fhd_greater_than_threshold, fhd_greater_than_threshold_pre_lifted_masks, fuse_dots,
    FusedFhdDotShares,
};
use ampc_core::message::{pack, pack_vec, NetworkValue, ProtocolError, Wire};
use ampc_core::ops::{
    add_const, batch_signed_lift, batch_signed_lift_offset, batch_signed_lift_ring48, from_const, galois_ring_to_rep3,
    galois_ring_to_rep3_send, gte_zero_and_open_u16, lt_zero_and_open_u16, open_ring,
    open_ring_element_broadcast, open_ring_message, reshare_products, reshare_products_send,
    sub_pub,
};
use ampc_core::planes::{
    transposed_pack_and, transposed_pack_and_send, transposed_pack_xor,
    transposed_pack_xor_assign,
};
use ampc_core::player::Role;
use ampc_core::prefix_adder::{add2_request, PrefixAdder};
use ampc_core::prf::{Prf, PrfDraw};
use ampc_core::ring48::Ring48;
use ampc_core::ring::IntRing2k;
use ampc_core::select::{
    conditionally_select_distance, conditionally_select_distance_send,
    conditionally_select_distances_with_plain_ids,
    conditionally_select_distances_with_plain_ids_send,
    conditionally_select_distances_with_shared_ids,
    conditionally_select_distances_with_shared_ids_send, select_shared_slices_by_bits,
    select_shared_slices_by_bits_send, DistanceShare, IdDistance,
};
use ampc_core::shares::Share;
use ampc_core::swap::{
    check_swap, conditionally_swap_distances, conditionally_swap_distances_plain_ids,
    conditionally_swap_distances_plain_ids_send, conditionally_swap_distances_send,
};
use ampc_core::test_utils::create_array_sharing;
use ampc_core::two_way_split::{two_way_split, two_way_split_send, SplitSent};
use rand::distributions::{Distribution, Standard};
use rand::rngs::StdRng;
use rand::{Rng, SeedableRng};

fn setup_prfs() -> Vec<Prf> {
    let seeds: Vec<[u8; 16]> = (1..4_u8).map(|i| [i; 16]).collect();
    (0..3_usize)
        .map(|i| Prf::new(&seeds[i], &seeds[(i + 2) % 3]))
        .collect()
}

fn share_values<T: IntRing2k>(rng: &mut StdRng, values: &[T]) -> Vec<Vec<Share<T>>>
where
    Standard: Distribution<T>,
{
    let masks: Vec<(T, T)> = values.iter().map(|_| (rng.gen(), rng.gen())).collect();
    let shares = create_array_sharing(&masks, values);
    (0..3).map(|i| shares.of_party(i).clone()).collect()
}

/// Shares bits by exclusive or.
fn share_bits(rng: &mut StdRng, bits: &[bool]) -> Vec<Vec<Share<bool>>> {
    share_values(rng, bits)
}

fn open<T: IntRing2k + Wire + PartialEq + std::fmt::Debug>(shares: &[Vec<Share<T>>]) -> Vec<T> {
    let opened: Vec<Vec<T>> = (0..3)
        .map(|i| {
            let from_prev = open_ring_message(&shares[(i + 2) % 3]);
            open_ring(&shares[i], &from_prev).unwrap()
        })
        .collect();
    assert_eq!(opened[0], opened[1]);
    assert_eq!(opened[1], opened[2]);
    opened[0].clone()
}

fn open_bits(shares: &[Vec<Share<bool>>]) -> Vec<bool> {
    let opened: Vec<Vec<bool>> = (0..3)
        .map(|i| {
            let from_prev = open_bin_message(&shares[(i + 2) % 3]);
            open_bin(&shares[i], &from_prev).unwrap()
        })
        .collect();
    assert_eq!(opened[0], opened[1]);
    assert_eq!(opened[1], opened[2]);
    opened[0].clone()
}

fn run_and<T: IntRing2k + PrfDraw + Wire>(
    prfs: &mut [Prf],
    a: &[Vec<Share<T>>],
    b: &[Vec<Share<T>>],
) -> Vec<Vec<Share<T>>> {
    let own: Vec<Vec<T>> = (0..3)
        .map(|i| and_many_send(&mut prfs[i], &a[i], &b[i]).unwrap())
        .collect();
    (0..3)
        .map(|i| and_many(&own[i], &pack(&own[(i + 2) % 3])).unwrap())
        .collect()
}

/// The bitwise and of batches that are given plane by plane.
fn run_planes_and(
    prfs: &mut [Prf],
    requests: &[(Vec<Vec<Share<u64>>>, Vec<Vec<Share<u64>>>)],
) -> Vec<Vec<Vec<Share<u64>>>> {
    let own: Vec<Vec<u64>> = (0..3)
        .map(|i| {
            transposed_pack_and_send(&mut prfs[i], &requests[i].0, &requests[i].1).unwrap()
        })
        .collect();
    (0..3)
        .map(|i| transposed_pack_and(&requests[i].0, &own[i], &own[(i + 2) % 3]).unwrap())
        .collect()
}

fn run_bit_inject<T: IntRing2k + PrfDraw>(
    prfs: &mut [Prf],
    session_id: u32,
    bits: &[Vec<Share<bool>>],
) -> Vec<Vec<Share<T>>> {
    // The party at each position.
    let mut at = [0_usize; 3];
    for party in 0..3_usize {
        at[inject_position(Role::new(party), session_id).unwrap()] = party;
    }
    let zero = bit_inject_party0_send::<T>(&mut prfs[at[0]], &bits[at[0]]);
    let one = bit_inject_party1_send::<T>(&mut prfs[at[1]], &bits[at[1]]);
    let (two, shares_2) = bit_inject_party2(&mut prfs[at[2]], &bits[at[2]], &one.x).unwrap();
    let shares_0 = bit_inject_party0_finish(&bits[at[0]], &zero, &two.z);
    let shares_1 = bit_inject_party1_finish(&one, &zero.y);
    let mut out = vec![Vec::new(); 3];
    out[at[0]] = shares_0;
    out[at[1]] = shares_1;
    out[at[2]] = shares_2;
    out
}

fn run_two_way_split<T: IntRing2k + PrfDraw>(
    prfs: &mut [Prf],
    input: &[Vec<Share<T>>],
) -> Vec<(Vec<Share<T>>, Vec<Share<T>>)> {
    let sent: Vec<SplitSent<T>> = (0..3)
        .map(|i| two_way_split_send(Role::new(i), &mut prfs[i], &input[i]).unwrap())
        .collect();
    (0..3)
        .map(|i| two_way_split(Role::new(i), &input[i], &sent[i], &sent[(i + 2) % 3].t).unwrap())
        .collect()
}

fn run_extract_msb<T: IntRing2k + PrfDraw>(
    prfs: &mut [Prf],
    input: &[Vec<Share<T>>],
) -> Vec<Vec<Share<bool>>> {
    let len = input[0].len();
    let words = word_count(len);
    let planes: Vec<(Vec<Vec<Share<u64>>>, Vec<Vec<Share<u64>>>)> = run_two_way_split(prfs, input)
        .iter()
        .map(|(x1, x2)| extract_msb_planes(x1, x2))
        .collect();
    let requests: Vec<_> = planes
        .iter()
        .map(|(x1, x2)| add2_request(x1, x2).unwrap())
        .collect();
    let mut products = run_planes_and(prfs, &requests);
    let mut adders: Vec<PrefixAdder<Share<u64>>> = planes
        .iter()
        .map(|(x1, x2)| PrefixAdder::start(x1, x2, products.remove(0), words).unwrap())
        .collect();
    while adders[0].request().is_some() {
        let requests: Vec<_> = adders.iter().map(|a| a.request().unwrap()).collect();
        let mut products = run_planes_and(prfs, &requests);
        adders = adders
            .into_iter()
            .map(|a| a.absorb(&products.remove(0)).unwrap())
            .collect();
    }
    adders
        .into_iter()
        .map(|a| extract_msb_batch(&a.finish(), len))
        .collect()
}

fn run_carry_chains(prfs: &mut [Prf], chains: &mut [CarryChain<Share<u64>>]) {
    while chains[0].request().is_some() {
        let requests: Vec<_> = chains.iter().map(|c| c.request().unwrap()).collect();
        let lhs: Vec<Vec<Share<u64>>> = requests.iter().map(|r| r.0.clone()).collect();
        let rhs: Vec<Vec<Share<u64>>> = requests.iter().map(|r| r.1.clone()).collect();
        let products = run_and(prfs, &lhs, &rhs);
        for (chain, product) in chains.iter_mut().zip(&products) {
            chain.absorb(product).unwrap();
        }
    }
}

fn run_lift(prfs: &mut [Prf], shares: &[Vec<Share<u16>>]) -> Vec<Vec<Share<u32>>> {
    let len = shares[0].len();
    let words = word_count(len);
    let parts: Vec<_> = (0..3)
        .map(|i| lift_planes(Role::new(i), &transpose_pack_u64(&shares[i])).unwrap())
        .collect();
    let requests: Vec<_> = parts
        .iter()
        .map(|(x1, x2, x3)| add3_request(x1, x2, x3).unwrap())
        .collect();
    let products = run_planes_and(prfs, &requests);
    let mut adders: Vec<TwoCarriesAdder<Share<u64>>> = parts
        .iter()
        .zip(&products)
        .map(|((x1, x2, x3), p)| {
            let (s, c) = add3_reduce(x1, x2, x3, p).unwrap();
            TwoCarriesAdder::new(s, c, words)
        })
        .collect();
    while adders[0].chain.request().is_some() {
        let requests: Vec<_> = adders.iter().map(|a| a.chain.request().unwrap()).collect();
        let lhs: Vec<Vec<Share<u64>>> = requests.iter().map(|r| r.0.clone()).collect();
        let rhs: Vec<Vec<Share<u64>>> = requests.iter().map(|r| r.1.clone()).collect();
        let products = run_and(prfs, &lhs, &rhs);
        for (adder, product) in adders.iter_mut().zip(&products) {
            adder.chain.absorb(product).unwrap();
        }
    }
    let requests: Vec<_> = adders.iter().map(|a| a.top_request()).collect();
    let lhs: Vec<Vec<Share<u64>>> = requests.iter().map(|r| r.0.clone()).collect();
    let rhs: Vec<Vec<Share<u64>>> = requests.iter().map(|r| r.1.clone()).collect();
    let mut products = run_and(prfs, &lhs, &rhs);
    let carry_bits: Vec<Vec<Share<bool>>> = adders
        .into_iter()
        .map(|a| {
            let (lower, upper) = a.finish(products.remove(0));
            lift_carry_bits(&lower, &upper, len)
        })
        .collect();
    let carries = run_bit_inject::<u16>(prfs, 0, &carry_bits);
    (0..3)
        .map(|i| lift(&shares[i], &carries[i]).unwrap())
        .collect()
}

fn run_signed_lift(prfs: &mut [Prf], shares: &[Vec<Share<u16>>]) -> Vec<Vec<Share<u32>>> {
    let offset: Vec<Vec<Share<u16>>> = (0..3)
        .map(|i| batch_signed_lift_offset(Role::new(i), &shares[i]))
        .collect();
    let lifted = run_lift(prfs, &offset);
    (0..3)
        .map(|i| batch_signed_lift(Role::new(i), &lifted[i]))
        .collect()
}

fn bit_inject_check<T: IntRing2k + PrfDraw + Wire + PartialEq + std::fmt::Debug + From<bool>>() {
    let mut rng = StdRng::seed_from_u64(61);
    let mut bits: Vec<bool> = (0..10).map(|_| rng.gen_bool(0.5)).collect();
    bits.extend([false, true]);
    let shares = share_bits(&mut rng, &bits);
    for session_id in [0, 1, 2, u32::MAX] {
        let mut prfs = setup_prfs();
        let injected = run_bit_inject::<T>(&mut prfs, session_id, &shares);
        let expected: Vec<T> = bits.iter().map(|b| T::from(*b)).collect();
        assert_eq!(open(&injected), expected);
    }
}

#[test]
fn test_bit_inject_u16() {
    bit_inject_check::<u16>();
}

#[test]
fn test_bit_inject_u32() {
    bit_inject_check::<u32>();
}

#[test]
fn test_bit_inject_u64() {
    bit_inject_check::<u64>();
}

#[test]
fn bit_injection_refuses_other_roles_and_lengths() {
    assert_eq!(
        inject_position(Role::new(3), 0),
        Err(ProtocolError::UnsupportedRole)
    );
    assert_eq!(inject_position(Role::new(2), 2), Ok(1));
    let input = vec![Share::new(true, false)];
    let mut prfs = setup_prfs();
    assert_eq!(
        bit_inject_party2::<u16>(&mut prfs[0], &input, &[]).err(),
        Some(ProtocolError::LengthMismatch)
    );
}

/// Checks that the two parts of every element add up to it.
fn two_split_check<T>(values: &[T])
where
    T: IntRing2k + PrfDraw + PartialEq + std::fmt::Debug,
    Standard: Distribution<T>,
{
    let mut rng = StdRng::seed_from_u64(62);
    let shares = share_values(&mut rng, values);
    let mut prfs = setup_prfs();
    let res = run_two_way_split(&mut prfs, &shares);
    assert!(res.iter().all(|(x, y)| x.len() == values.len() && y.len() == values.len()));
    for (i, expected) in values.iter().enumerate() {
        let sum_1 = res[0].0[i].a.ring_xor(res[1].0[i].a).ring_xor(res[2].0[i].a);
        let sum_2 = res[0].1[i].a.ring_xor(res[1].1[i].a).ring_xor(res[2].1[i].a);
        assert_eq!(*expected, sum_1.ring_add(sum_2));
        // The copies of every part agree.
        for party in 0..3_usize {
            let prev = (party + 2) % 3;
            assert_eq!(res[party].0[i].b, res[prev].0[i].a);
            assert_eq!(res[party].1[i].b, res[prev].1[i].a);
        }
    }
}

#[test]
fn test_two_split_u16() {
    let mut rng = StdRng::seed_from_u64(63);
    two_split_check::<u16>(&(0..10).map(|_| rng.gen()).collect::<Vec<_>>());
    for len in 0..4 {
        two_split_check::<u16>(&vec![0xfffe; len]);
    }
}

#[test]
fn test_two_split_u32() {
    let mut rng = StdRng::seed_from_u64(64);
    two_split_check::<u32>(&(0..10).map(|_| rng.gen()).collect::<Vec<_>>());
}

#[test]
fn test_two_split_u64() {
    let mut rng = StdRng::seed_from_u64(65);
    two_split_check::<u64>(&(0..10).map(|_| rng.gen()).collect::<Vec<_>>());
}

#[test]
fn splits_refuse_other_roles_and_lengths() {
    let mut prfs = setup_prfs();
    let input = vec![Share::new(1_u16, 2); 9];
    assert_eq!(
        two_way_split_send(Role::new(3), &mut prfs[0], &input).err(),
        Some(ProtocolError::UnsupportedRole)
    );
    let sent = two_way_split_send(Role::new(0), &mut prfs[0], &input).unwrap();
    assert_eq!(
        two_way_split(Role::new(0), &input, &sent, &[]),
        Err(ProtocolError::LengthMismatch)
    );
}

#[test]
fn test_extract_msb_u16() {
    let mut rng = StdRng::seed_from_u64(66);
    let mut ints: Vec<u16> = (0..10).map(|_| rng.gen()).collect();
    ints.extend([0, 0x7fff, 0x8000, 0xffff]);
    let bits: Vec<bool> = ints.iter().map(|i| i >> 15 == 1).collect();
    let shares = share_values(&mut rng, &ints);
    let mut prfs = setup_prfs();
    assert_eq!(open_bits(&run_extract_msb(&mut prfs, &shares)), bits);
}

#[test]
fn test_extract_msb_u32() {
    let mut rng = StdRng::seed_from_u64(67);
    let mut ints: Vec<u32> = (0..100).map(|_| rng.gen()).collect();
    ints.extend([0, 0x7fff_ffff, 0x8000_0000, u32::MAX]);
    let bits: Vec<bool> = ints.iter().map(|i| i >> 31 == 1).collect();
    let shares = share_values(&mut rng, &ints);
    let mut prfs = setup_prfs();
    let msbs = run_extract_msb(&mut prfs, &shares);
    assert_eq!(open_bits(&msbs), bits);

    // The opened signs tell which values are below zero.
    for i in 0..3 {
        let from_prev = open_bin_message(&msbs[(i + 2) % 3]);
        assert_eq!(lt_zero_and_open_u16(&msbs[i], &from_prev).unwrap(), bits);
        let negated: Vec<bool> = bits.iter().map(|b| !b).collect();
        assert_eq!(gte_zero_and_open_u16(&msbs[i], &from_prev).unwrap(), negated);
    }

    let single = share_values(&mut rng, &[0x8000_0001_u32]);
    let words: Vec<Vec<Share<u64>>> = run_extract_msb(&mut prfs, &single)
        .iter()
        .map(|b| pack_shares(b))
        .collect();
    let bit: Vec<Vec<Share<bool>>> = words.iter().map(|w| vec![single_extract_msb(w)]).collect();
    assert_eq!(open_bits(&bit), vec![true]);
}

#[test]
fn lifting_keeps_the_values() {
    let mut rng = StdRng::seed_from_u64(68);
    let mut values: Vec<u16> = (0..80).map(|_| rng.gen()).collect();
    values.extend([0, 1, 0x7fff, 0x8000, 0xffff]);
    let shares = share_values(&mut rng, &values);
    let mut prfs = setup_prfs();
    let plain: Vec<u32> = values.iter().map(|v| *v as u32).collect();
    assert_eq!(open(&run_lift(&mut prfs, &shares)), plain);
    let signed: Vec<u32> = values.iter().map(|v| *v as i16 as i32 as u32).collect();
    assert_eq!(open(&run_signed_lift(&mut prfs, &shares)), signed);
    assert_eq!(
        lift(&shares[0], &[]).err(),
        Some(ProtocolError::LengthMismatch)
    );
    assert_eq!(
        lift_planes(Role::new(3), &[]).err(),
        Some(ProtocolError::UnsupportedRole)
    );
}

#[test]
fn local_multiplication_by_powers_of_two() {
    let mut rng = StdRng::seed_from_u64(69);
    let values: Vec<u16> = vec![0, 1, 0x7fff, 0x8000, 0xffff];
    let shares = share_values(&mut rng, &values);
    let lifted: Vec<Vec<Share<u32>>> = shares.iter().map(|s| mul_lift_2k_many::<16>(s)).collect();
    let expected: Vec<u32> = values.iter().map(|v| (*v as u32) << 16).collect();
    assert_eq!(open(&lifted), expected);
    assert_eq!(mul_lift_2k::<3>(&Share::new(5, 0xffff)), Share::new(40, 0x7fff8));
}

#[test]
fn and_products_and_opening() {
    let mut rng = StdRng::seed_from_u64(70);
    let xs: Vec<u64> = (0..7).map(|_| rng.gen()).collect();
    let ys: Vec<u64> = (0..7).map(|_| rng.gen()).collect();
    let share_xor = |rng: &mut StdRng, values: &[u64]| -> Vec<Vec<Share<u64>>> {
        let parts: Vec<[u64; 3]> = values
            .iter()
            .map(|v| {
                let (a, b): (u64, u64) = rng.gen();
                [a, b, v ^ a ^ b]
            })
            .collect();
        (0..3_usize)
            .map(|i| parts.iter().map(|p| Share::new(p[i], p[(i + 2) % 3])).collect())
            .collect()
    };
    let x = share_xor(&mut rng, &xs);
    let y = share_xor(&mut rng, &ys);
    let mut prfs = setup_prfs();
    let z = run_and(&mut prfs, &x, &y);
    for k in 0..7 {
        assert_eq!(z[0][k].a ^ z[1][k].a ^ z[2][k].a, xs[k] & ys[k]);
        assert_eq!(z[0][k].b, z[2][k].a);
    }
    assert_eq!(
        and_many_send(&mut prfs[0], &x[0], &y[0][1..]).err(),
        Some(ProtocolError::LengthMismatch)
    );
    assert_eq!(
        and_many::<u64>(&[1, 2], &pack(&[1_u64, 2, 3])).err(),
        Some(ProtocolError::LengthMismatch)
    );
    assert_eq!(
        and_many::<u64>(&[1, 2], &NetworkValue::RingElement8(1)).err(),
        Some(ProtocolError::WrongValueType)
    );
    // One element may come bare or as a vector, and a batch may be empty.
    let single = Ok(vec![Share::new(1_u64, 9)]);
    assert_eq!(and_many(&[1_u64], &pack(&[9_u64])), single);
    assert_eq!(and_many(&[1_u64], &pack_vec(&[9_u64])), single);
    assert_eq!(and_many::<u64>(&[], &pack_vec::<u64>(&[])), Ok(vec![]));
    let share = [Share::new(1_u32, 2)];
    assert_eq!(open_ring(&share, &pack(&[4_u32])), Ok(vec![7]));
    assert_eq!(open_ring(&share, &pack_vec(&[4_u32])), Ok(vec![7]));
    assert_eq!(open_ring::<u32>(&[], &pack_vec::<u32>(&[])), Ok(vec![]));
    assert_eq!(
        open_ring_element_broadcast(&[1_u16], &pack(&[2_u16]), &pack_vec(&[3_u16])),
        Ok(vec![6])
    );
}

#[test]
fn and_product_of_columns() {
    let mut rng = StdRng::seed_from_u64(71);
    let rows = 70_usize;
    for columns in 1..6_usize {
        let plain: Vec<Vec<bool>> = (0..columns)
            .map(|_| (0..rows).map(|_| rng.gen_bool(0.8)).collect())
            .collect();
        let shared: Vec<Vec<Vec<Share<bool>>>> =
            plain.iter().map(|c| share_bits(&mut rng, c)).collect();
        let mut prfs = setup_prfs();
        let mut products: Vec<AndProduct> = (0..3)
            .map(|i| {
                AndProduct::new(shared.iter().map(|c| c[i].clone()).collect(), rows).unwrap()
            })
            .collect();
        while products[0].request().is_some() {
            let requests: Vec<_> = products.iter().map(|p| p.request().unwrap()).collect();
            let lhs: Vec<Vec<Share<u64>>> = requests.iter().map(|r| r.0.clone()).collect();
            let rhs: Vec<Vec<Share<u64>>> = requests.iter().map(|r| r.1.clone()).collect();
            let words = run_and(&mut prfs, &lhs, &rhs);
            products = products
                .into_iter()
                .zip(&words)
                .map(|(p, w)| p.absorb(w).unwrap())
                .collect();
        }
        let result: Vec<Vec<Share<bool>>> = products.into_iter().map(|p| p.finish()).collect();
        let expected: Vec<bool> = (0..rows).map(|r| plain.iter().all(|c| c[r])).collect();
        assert_eq!(open_bits(&result), expected);
    }
    assert_eq!(
        AndProduct::new(vec![], 3).err(),
        Some(ProtocolError::EmptyInput)
    );
    assert_eq!(
        AndProduct::new(vec![vec![Share::new(true, false)]], 3).err(),
        Some(ProtocolError::LengthMismatch)
    );
}

#[test]
fn carry_chains_add_bit_planes() {
    let mut rng = StdRng::seed_from_u64(72);
    let xs: Vec<u16> = (0..66).map(|_| rng.gen()).collect();
    let ys: Vec<u16> = (0..66).map(|_| rng.gen()).collect();
    // Every bit of a value is shared by exclusive or.
    let share_xor = |rng: &mut StdRng, values: &[u16]| -> Vec<Vec<Share<u16>>> {
        let parts: Vec<[u16; 3]> = values
            .iter()
            .map(|v| {
                let (a, b): (u16, u16) = rng.gen();
                [a, b, v ^ a ^ b]
            })
            .collect();
        (0..3_usize)
            .map(|i| parts.iter().map(|p| Share::new(p[i], p[(i + 2) % 3])).collect())
            .collect()
    };
    let x = share_xor(&mut rng, &xs);
    let y = share_xor(&mut rng, &ys);
    let mut prfs = setup_prfs();
    let mut chains: Vec<CarryChain<Share<u64>>> = (0..3)
        .map(|i| {
            CarryChain::start(
                transpose_pack_u64(&x[i]),
                transpose_pack_u64(&y[i]),
                0,
                word_count(66),
            )
        })
        .collect();
    run_carry_chains(&mut prfs, &mut chains);
    let carries: Vec<Vec<Share<bool>>> =
        chains.iter().map(|c| unpack_shares(&c.carry, 66)).collect();
    let expected: Vec<bool> = xs
        .iter()
        .zip(&ys)
        .map(|(x, y)| *x as u32 + *y as u32 > 0xffff)
        .collect();
    assert_eq!(open_bits(&carries), expected);
}

#[test]
fn planes_combine_bit_by_bit() {
    let share = |a: u64, b: u64| Share::new(a, b);
    let x = vec![vec![share(1, 2)], vec![share(3, 4)]];
    let y = vec![vec![share(5, 6)], vec![share(7, 8)]];
    let sum = transposed_pack_xor(&x, &y);
    assert_eq!(sum, vec![vec![share(4, 4)], vec![share(4, 12)]]);
    let mut assigned = x.clone();
    transposed_pack_xor_assign(&mut assigned, &y);
    assert_eq!(assigned, sum);
    let mut prfs = setup_prfs();
    assert_eq!(
        transposed_pack_and_send(&mut prfs[0], &x, &y[1..]).err(),
        Some(ProtocolError::LengthMismatch)
    );
    assert_eq!(
        add3_request(&x, &y, &y).err(),
        Some(ProtocolError::TooFewBits)
    );
    assert_eq!(
        add3_request(&x, &y, &y[1..]).err(),
        Some(ProtocolError::LengthMismatch)
    );
}

#[test]
fn words_hold_the_bits_of_a_batch() {
    assert_eq!(word_count(0), 0);
    assert_eq!(word_count(64), 1);
    assert_eq!(word_count(65), 2);
    let mut bits = vec![false; 66];
    bits[0] = true;
    bits[63] = true;
    bits[65] = true;
    assert_eq!(pack_bits(&bits), vec![0x8000_0000_0000_0001, 2]);
    let shares: Vec<Share<bool>> = bits.iter().map(|b| Share::new(*b, !*b)).collect();
    let words = pack_shares(&shares);
    assert_eq!(words[1], Share::new(2, 1));
    assert_eq!(unpack_shares(&words, 66), shares);
    let planes = transpose_pack_u64(&[Share::new(5_u8, 2), Share::new(4, 0)]);
    assert_eq!(planes.len(), 8);
    assert_eq!(planes[0], vec![Share::new(1, 0)]);
    assert_eq!(planes[1], vec![Share::new(0, 1)]);
    assert_eq!(planes[2], vec![Share::new(3, 0)]);
}

#[test]
fn shares_of_constants_and_affine_operations() {
    let mut rng = StdRng::seed_from_u64(73);
    let constants: Vec<Vec<Share<u32>>> = (0..3)
        .map(|i| vec![from_const(77_u32, Role::new(i))])
        .collect();
    assert_eq!(open(&constants), vec![77]);
    let x = share_values(&mut rng, &[5_u32]);
    let shifted: Vec<Vec<Share<u32>>> = (0..3)
        .map(|i| vec![add_const(Role::new(i), x[i][0], 9)])
        .collect();
    assert_eq!(open(&shifted), vec![14]);
    let mut lowered = x.clone();
    for (i, s) in lowered.iter_mut().enumerate() {
        sub_pub(Role::new(i), &mut s[0], 6);
    }
    assert_eq!(open(&lowered), vec![u32::MAX]);
    let scaled: Vec<Vec<Share<u32>>> = x
        .iter()
        .map(|s| vec![s[0].times(3).plus(s[0]).minus(Share::zero())])
        .collect();
    assert_eq!(open(&scaled), vec![20]);
}

#[test]
fn arithmetic_parts_become_shares_of_their_own() {
    let mut rng = StdRng::seed_from_u64(74);
    let values = vec![0xabcd_u16];
    let x = share_values(&mut rng, &values);
    let parts: Vec<(Share<u16>, Share<u16>, Share<u16>)> = (0..3)
        .map(|i| a2b_pre(Role::new(i), x[i][0]).unwrap())
        .collect();
    let total = |pick: &dyn Fn(&(Share<u16>, Share<u16>, Share<u16>)) -> Share<u16>| -> u16 {
        parts.iter().map(|p| pick(p).a).fold(0, |acc, v| acc ^ v)
    };
    let sum = total(&|p| p.0)
        .wrapping_add(total(&|p| p.1))
        .wrapping_add(total(&|p| p.2));
    assert_eq!(sum, 0xabcd);
    assert_eq!(
        a2b_pre(Role::new(3), x[0][0]).err(),
        Some(ProtocolError::UnsupportedRole)
    );
}

#[test]
fn galois_dots_become_replicated_shares() {
    let dots: Vec<Vec<u16>> = vec![vec![1, 2, 3], vec![10, 20, 30], vec![100, 200, 0xffff]];
    let mut prfs = setup_prfs();
    let own: Vec<Vec<u16>> = (0..3)
        .map(|i| galois_ring_to_rep3_send(&mut prfs[i], &dots[i]))
        .collect();
    let shares: Vec<Vec<Share<u16>>> = (0..3)
        .map(|i| galois_ring_to_rep3(&own[i], &pack_vec(&own[(i + 2) % 3])).unwrap())
        .collect();
    assert_eq!(open(&shares), vec![111, 222, 32]);

    // A vector is taken whatever its length, a single element is not.
    assert_eq!(galois_ring_to_rep3(&[], &pack_vec::<u16>(&[])), Ok(vec![]));
    assert_eq!(
        galois_ring_to_rep3(&[4], &pack_vec(&[9_u16])),
        Ok(vec![Share::new(4, 9)])
    );
    assert_eq!(
        galois_ring_to_rep3(&[4], &pack(&[9_u16])),
        Err(ProtocolError::WrongValueType)
    );

    let broadcast: Vec<Vec<u16>> = (0..3)
        .map(|i| {
            open_ring_element_broadcast(
                &dots[i],
                &pack(&dots[(i + 2) % 3]),
                &pack(&dots[(i + 1) % 3]),
            )
            .unwrap()
        })
        .collect();
    assert_eq!(broadcast, vec![vec![111, 222, 32]; 3]);
}

#[test]
fn fused_dots_give_back_selected_shares() {
    let mut rng = StdRng::seed_from_u64(75);
    let values: Vec<u16> = (0..12).map(|_| rng.gen()).collect();
    let parts = share_values(&mut rng, &values);
    let mut prfs = setup_prfs();
    let own: Vec<Vec<u16>> = (0..3)
        .map(|i| {
            let local: Vec<u16> = parts[i].iter().map(|s| s.a).collect();
            fhd_greater_than_anon_stats_from_galois(&mut prfs[i], &local).unwrap()
        })
        .collect();
    let indices = vec![0, 5, 2, 5];
    let selected: Vec<(Vec<Share<u16>>, Vec<Share<u16>>)> = (0..3)
        .map(|i| {
            let fused = fuse_dots(own[i].clone(), own[(i + 2) % 3].clone()).unwrap();
            assert_eq!(fused.len(), 6);
            assert!(!fused.is_empty());
            assert_eq!(
                fused.select(&[6]).err(),
                Some(ProtocolError::IndexOutOfBounds)
            );
            fused.select(&indices).unwrap()
        })
        .collect();
    let codes: Vec<Vec<Share<u16>>> = selected.iter().map(|s| s.0.clone()).collect();
    let masks: Vec<Vec<Share<u16>>> = selected.iter().map(|s| s.1.clone()).collect();
    let expected: Vec<u16> = indices.iter().map(|i| values[2 * i]).collect();
    assert_eq!(open(&codes), expected);
    let expected: Vec<u16> = indices.iter().map(|i| values[2 * i + 1]).collect();
    assert_eq!(open(&masks), expected);
    assert_eq!(
        fhd_greater_than_anon_stats_from_galois(&mut prfs[0], &[1, 2, 3]).err(),
        Some(ProtocolError::OddLength)
    );
    assert_eq!(
        fuse_dots(vec![1, 2], vec![1]).err(),
        Some(ProtocolError::LengthMismatch)
    );
}

#[test]
fn test_replicated_cross_mul_lift() {
    let mut rng = StdRng::seed_from_u64(0);
    let four_items: Vec<u16> = vec![1, 2, 3, 4];
    let four_shares = share_values(&mut rng, &four_items);
    let mut prfs = setup_prfs();
    let lifted = run_signed_lift(&mut prfs, &four_shares);
    let own: Vec<Vec<u32>> = (0..3)
        .map(|i| {
            let s = &lifted[i];
            let first = DistanceShare {
                code_dot: s[0],
                mask_dot: s[1],
            };
            let second = DistanceShare {
                code_dot: s[2],
                mask_dot: s[3],
            };
            cross_mul(&mut prfs[i], &[(first, second)])
        })
        .collect();
    let out: Vec<Vec<Share<u32>>> = (0..3)
        .map(|i| reshare_products(&own[i], &own[(i + 2) % 3]))
        .collect();
    assert_eq!(open(&out), vec![2]);
}

/// Which distances are above the threshold of the anonymous statistics.
fn run_anon_stats_threshold(
    prfs: &mut [Prf],
    codes: &[Vec<Share<u16>>],
    masks: &[Vec<Share<u16>>],
) -> Vec<bool> {
    let lifted = run_lift(prfs, masks);
    let diffs: Vec<Vec<Share<u32>>> = (0..3)
        .map(|i| fhd_greater_than_anon_stats_threshold(&codes[i], &lifted[i]).unwrap())
        .collect();
    open_bits(&run_extract_msb(prfs, &diffs))
}

fn every_second(shares: &[Vec<Share<u16>>], first: usize) -> Vec<Vec<Share<u16>>> {
    shares
        .iter()
        .map(|s| s.iter().skip(first).step_by(2).copied().collect())
        .collect()
}

#[test]
fn direct_anon_threshold_matches_lifted_reference_randomized() {
    const N: usize = 4_097;
    let mut rng = StdRng::seed_from_u64(0x18_375);
    let flat_values: Vec<u16> = (0..2 * N).map(|_| rng.gen()).collect();
    let flat_shares = share_values(&mut rng, &flat_values);
    let codes = every_second(&flat_shares, 0);
    let masks = every_second(&flat_shares, 1);
    let mut prfs = setup_prfs();

    let lifted_masks = run_lift(&mut prfs, &masks);
    // (1 - 2 * 0.375) * 2^16
    let a: u32 = 16384;
    let diffs: Vec<Vec<Share<u32>>> = (0..3)
        .map(|i| {
            fhd_greater_than_threshold_pre_lifted_masks(&codes[i], &lifted_masks[i], a).unwrap()
        })
        .collect();
    let reference = open_bits(&run_extract_msb(&mut prfs, &diffs));
    let direct = run_anon_stats_threshold(&mut prfs, &codes, &masks);
    assert_eq!(reference, direct);

    for (i, bit) in direct.iter().enumerate() {
        // The difference in 18 bits.
        let code = flat_values[2 * i] as i16 as i32;
        let mask = flat_values[2 * i + 1] as i32;
        assert_eq!(*bit, ((4 * code - mask) >> 17) & 1 == 1, "code={code}, mask={mask}");
    }
}

#[test]
fn fused_galois_anon_threshold_matches_dense_rep3_and_selects_candidates() {
    const N: usize = 257;
    let mut rng = StdRng::seed_from_u64(0xf053_d375);
    let mut values = vec![
        125_u16,
        500_u16, // exact 0.375 threshold
        124,
        500, // immediately above threshold
        u16::MAX,
        200, // negative signed code dot
        10,
        0, // zero mask
    ];
    values.extend((values.len()..2 * N).map(|_| rng.gen::<u16>()));
    let additive_shares = share_values(&mut rng, &values);
    let selected_indices = vec![0, 1, 63, 64, N - 1, 64];
    let expected_selected_codes: Vec<u16> =
        selected_indices.iter().map(|&index| values[index * 2]).collect();
    let expected_selected_masks: Vec<u16> =
        selected_indices.iter().map(|&index| values[index * 2 + 1]).collect();
    let local_dots: Vec<Vec<u16>> = additive_shares
        .iter()
        .map(|shares| shares.iter().map(|share| share.a).collect())
        .collect();
    let mut prfs = setup_prfs();

    let own: Vec<Vec<u16>> = (0..3)
        .map(|i| galois_ring_to_rep3_send(&mut prfs[i], &local_dots[i]))
        .collect();
    let dense: Vec<Vec<Share<u16>>> = (0..3)
        .map(|i| galois_ring_to_rep3(&own[i], &pack_vec(&own[(i + 2) % 3])).unwrap())
        .collect();
    let dense_open = run_anon_stats_threshold(
        &mut prfs,
        &every_second(&dense, 0),
        &every_second(&dense, 1),
    );

    let own: Vec<Vec<u16>> = (0..3)
        .map(|i| fhd_greater_than_anon_stats_from_galois(&mut prfs[i], &local_dots[i]).unwrap())
        .collect();
    let retained: Vec<FusedFhdDotShares> = (0..3)
        .map(|i| fuse_dots(own[i].clone(), own[(i + 2) % 3].clone()).unwrap())
        .collect();
    for fused in &retained {
        assert_eq!(fused.len(), N);
        assert!(!fused.is_empty());
    }
    let all: Vec<(Vec<Share<u16>>, Vec<Share<u16>>)> =
        retained.iter().map(|fused| fused.split()).collect();
    let codes: Vec<Vec<Share<u16>>> = all.iter().map(|pair| pair.0.clone()).collect();
    let masks: Vec<Vec<Share<u16>>> = all.iter().map(|pair| pair.1.clone()).collect();
    let fused_open = run_anon_stats_threshold(&mut prfs, &codes, &masks);
    assert_eq!(dense_open, fused_open);
    assert_eq!(fused_open[..4], [false, true, true, false]);

    let selected: Vec<(Vec<Share<u16>>, Vec<Share<u16>>)> = retained
        .iter()
        .map(|fused| fused.select(&selected_indices).unwrap())
        .collect();
    let codes: Vec<Vec<Share<u16>>> = selected.iter().map(|pair| pair.0.clone()).collect();
    let masks: Vec<Vec<Share<u16>>> = selected.iter().map(|pair| pair.1.clone()).collect();
    assert_eq!(open(&codes), expected_selected_codes);
    assert_eq!(open(&masks), expected_selected_masks);
}

#[test]
fn signed_lifts_to_48_bits_take_the_offset_off() {
    let mut rng = StdRng::seed_from_u64(79);
    for value in [0_i16, 1, -1, i16::MAX, i16::MIN, 1234] {
        // Shares of the value with the offset, as a lift gives them.
        let sum = Ring48::masked((value as i32 + 0x8000) as u64);
        let (a, b) = (Ring48::masked(rng.gen()), Ring48::masked(rng.gen()));
        let c = sum.ring_sub(a).ring_sub(b);
        let shares = [Share::new(a, c), Share::new(b, a), Share::new(c, b)];
        let lifted: Vec<Share<Ring48>> = (0..3)
            .map(|i| batch_signed_lift_ring48(Role::new(i), &shares[i..=i])[0])
            .collect();
        for i in 0..3 {
            assert_eq!(lifted[i].b, lifted[(i + 2) % 3].a);
        }
        let opened = lifted[0].a.ring_add(lifted[1].a).ring_add(lifted[2].a);
        assert_eq!(opened.to_word(), value as i64 as u64 & 0xffff_ffff_ffff);
    }
}

#[test]
fn test_fhd_greater_than_threshold() {
    let mut rng = StdRng::seed_from_u64(44);

    // Known values of `(code_dot, mask_dot)` and whether their distance is above the threshold.
    // distance = (md - cd) / (2*md), threshold = 0.375.
    let test_cases: Vec<(u16, u16, bool)> = vec![
        // cd=100, md=500 -> 400/1000 = 0.4 > 0.375 -> true
        (100, 500, true),
        // cd=200, md=500 -> 300/1000 = 0.3 < 0.375 -> false
        (200, 500, false),
        // cd=125, md=500 -> 375/1000 = 0.375, not strictly greater -> false
        (125, 500, false),
        // cd=124, md=500 -> 376/1000 = 0.376 > 0.375 -> true
        (124, 500, true),
        // Large mask dot, well below threshold
        (3000, 4000, false), // 1000/8000 = 0.125
        // Large mask dot, well above threshold
        (100, 4000, true), // 3900/8000 = 0.4875
        // Negative code_dot (wrapping u16): cd = -1 -> 0xFFFF
        (u16::MAX, 200, true), // cd=-1, md=200 -> 201/400 = 0.5025
        // cd=0, md=100 -> 100/200 = 0.5 > 0.375 -> true
        (0, 100, true),
        // cd very close to md -> small distance
        (490, 500, false), // 10/1000 = 0.01
        // md = 0 -> treat as no match
        (10, 0, false),
    ];
    // (1 - 2 * 0.375) * 2^16
    let a: u32 = 16384;

    let flat_values: Vec<u16> = test_cases.iter().flat_map(|(cd, md, _)| [*cd, *md]).collect();
    let flat_shares = share_values(&mut rng, &flat_values);
    let n = test_cases.len();
    let mut prfs = setup_prfs();
    let lifted = run_signed_lift(&mut prfs, &flat_shares);
    let diffs: Vec<Vec<Share<u32>>> = lifted
        .iter()
        .map(|s| {
            let distances: Vec<DistanceShare<u32>> = (0..n)
                .map(|j| DistanceShare {
                    code_dot: s[2 * j],
                    mask_dot: s[2 * j + 1],
                })
                .collect();
            fhd_greater_than_threshold(&distances, a)
        })
        .collect();
    let generic = open_bits(&run_extract_msb(&mut prfs, &diffs));

    let masks: Vec<Vec<Share<u16>>> = flat_shares
        .iter()
        .map(|s| s.iter().skip(1).step_by(2).copied().collect())
        .collect();
    let lifted_masks = run_lift(&mut prfs, &masks);
    let diffs: Vec<Vec<Share<u32>>> = (0..3)
        .map(|i| {
            let codes: Vec<Share<u16>> = flat_shares[i].iter().step_by(2).copied().collect();
            assert_eq!(
                fhd_greater_than_threshold_pre_lifted_masks(&codes[1..], &lifted_masks[i], a).err(),
                Some(ProtocolError::LengthMismatch)
            );
            fhd_greater_than_threshold_pre_lifted_masks(&codes, &lifted_masks[i], a).unwrap()
        })
        .collect();
    let direct = open_bits(&run_extract_msb(&mut prfs, &diffs));
    assert_eq!(generic, direct);
    let codes: Vec<Vec<Share<u16>>> = flat_shares
        .iter()
        .map(|s| s.iter().step_by(2).copied().collect())
        .collect();
    assert_eq!(
        fhd_greater_than_anon_stats_threshold(&codes[0][1..], &lifted_masks[0]).err(),
        Some(ProtocolError::LengthMismatch)
    );
    let anon_direct = run_anon_stats_threshold(&mut prfs, &codes, &masks);
    assert_eq!(generic, anon_direct);

    for (i, (cd, md, expected)) in test_cases.into_iter().enumerate() {
        let code = cd as i16 as f64;
        let mask = md as f64;
        let reference = md != 0 && (mask - code) / (2.0 * mask) > 0.375;
        assert_eq!(generic[i], reference, "cd={cd}, md={md}");
        assert_eq!(generic[i], expected, "cd={cd}, md={md}");
    }
}

/// Opens identifiers, code dots and mask dots.
fn open_distances(results: &[Vec<IdDistance<u32>>]) -> Vec<(u32, u32, u32)> {
    let ids: Vec<Vec<Share<u32>>> = results
        .iter()
        .map(|r| r.iter().map(|(id, _)| *id).collect())
        .collect();
    let codes: Vec<Vec<Share<u32>>> = results
        .iter()
        .map(|r| r.iter().map(|(_, d)| d.code_dot).collect())
        .collect();
    let masks: Vec<Vec<Share<u32>>> = results
        .iter()
        .map(|r| r.iter().map(|(_, d)| d.mask_dot).collect())
        .collect();
    open(&ids)
        .into_iter()
        .zip(open(&codes))
        .zip(open(&masks))
        .map(|((id, code), mask)| (id, code, mask))
        .collect()
}

fn distance(code: Share<u32>, mask: Share<u32>) -> DistanceShare<u32> {
    DistanceShare {
        code_dot: code,
        mask_dot: mask,
    }
}

#[test]
fn identifiers_are_selected_in_larger_rings() {
    let mut rng = StdRng::seed_from_u64(80);
    let ids: [(u32, u32); 4] = [(3, 9), (9, 3), (0, u32::MAX), (u32::MAX, 0)];
    for bit in [0_u64, 1] {
        let bits = share_values(&mut rng, &[bit; 4]);
        let dots = share_values(&mut rng, &[5_u64, 6, 7, 8]);
        let mut prfs = setup_prfs();
        let entries = |i: usize, left: bool| -> Vec<(u32, DistanceShare<u64>)> {
            let at = if left { 0 } else { 2 };
            let distance = DistanceShare {
                code_dot: dots[i][at],
                mask_dot: dots[i][at + 1],
            };
            let id = |pair: &(u32, u32)| if left { pair.0 } else { pair.1 };
            ids.iter().map(|pair| (id(pair), distance)).collect()
        };
        let own: Vec<Vec<u64>> = (0..3)
            .map(|i| {
                conditionally_select_distances_with_plain_ids_send(
                    &mut prfs[i],
                    &entries(i, true),
                    &entries(i, false),
                    &bits[i],
                )
                .unwrap()
            })
            .collect();
        let selected: Vec<Vec<Share<u64>>> = (0..3)
            .map(|i| {
                conditionally_select_distances_with_plain_ids(
                    Role::new(i),
                    &entries(i, true),
                    &entries(i, false),
                    &bits[i],
                    &own[i],
                    &own[(i + 2) % 3],
                )
                .iter()
                .map(|entry| entry.0)
                .collect()
            })
            .collect();
        let expected: Vec<u64> = ids
            .iter()
            .map(|pair| if bit == 1 { pair.0 as u64 } else { pair.1 as u64 })
            .collect();
        assert_eq!(open(&selected), expected);
    }
}

#[test]
fn test_conditionally_select_distances_with_plain_ids() {
    let mut rng = StdRng::seed_from_u64(44);

    // Two distance pairs with plaintext ids
    // When control bit = 1, select left; when 0, select right.
    let left_ids: Vec<u32> = vec![10, 20];
    let right_ids: Vec<u32> = vec![30, 40];
    // left code, left mask, right code, right mask, control bits: [1, 0] -> select left for
    // first, right for second
    let all_vals: Vec<u32> = vec![100, 200, 500, 600, 300, 400, 700, 800, 1, 0];
    let shares = share_values(&mut rng, &all_vals);
    let n = 2_usize;
    let left: Vec<Vec<(u32, DistanceShare<u32>)>> = shares
        .iter()
        .map(|s| (0..n).map(|j| (left_ids[j], distance(s[j], s[n + j]))).collect())
        .collect();
    let right: Vec<Vec<(u32, DistanceShare<u32>)>> = shares
        .iter()
        .map(|s| {
            (0..n)
                .map(|j| (right_ids[j], distance(s[2 * n + j], s[3 * n + j])))
                .collect()
        })
        .collect();
    let control: Vec<Vec<Share<u32>>> = shares.iter().map(|s| s[4 * n..].to_vec()).collect();
    let mut prfs = setup_prfs();
    let own: Vec<Vec<u32>> = (0..3)
        .map(|i| {
            conditionally_select_distances_with_plain_ids_send(
                &mut prfs[i],
                &left[i],
                &right[i],
                &control[i],
            )
            .unwrap()
        })
        .collect();
    let results: Vec<Vec<IdDistance<u32>>> = (0..3)
        .map(|i| {
            conditionally_select_distances_with_plain_ids(
                Role::new(i),
                &left[i],
                &right[i],
                &control[i],
                &own[i],
                &own[(i + 2) % 3],
            )
        })
        .collect();
    // control bit 1 -> left selected: id=10, code=100, mask=500
    // control bit 0 -> right selected: id=40, code=400, mask=800
    assert_eq!(
        open_distances(&results),
        vec![(10, 100, 500), (40, 400, 800)]
    );
    assert_eq!(
        conditionally_select_distances_with_plain_ids_send(
            &mut prfs[0],
            &left[0],
            &right[0][1..],
            &control[0]
        )
        .err(),
        Some(ProtocolError::LengthMismatch)
    );
}

#[test]
fn test_conditionally_select_distances_with_shared_ids() {
    let mut rng = StdRng::seed_from_u64(45);

    // (id, code_dot, mask_dot) for left and right, plus control bits
    let vals: Vec<u32> = vec![
        10, 100, 500, // left[0]: id, code, mask
        20, 200, 600, // left[1]
        30, 300, 700, // right[0]
        40, 400, 800, // right[1]
        0, 1, // control bits
    ];
    let shares = share_values(&mut rng, &vals);
    let left: Vec<Vec<IdDistance<u32>>> = shares
        .iter()
        .map(|s| vec![(s[0], distance(s[1], s[2])), (s[3], distance(s[4], s[5]))])
        .collect();
    let right: Vec<Vec<IdDistance<u32>>> = shares
        .iter()
        .map(|s| vec![(s[6], distance(s[7], s[8])), (s[9], distance(s[10], s[11]))])
        .collect();
    let mut prfs = setup_prfs();
    let own: Vec<Vec<u32>> = (0..3)
        .map(|i| {
            conditionally_select_distances_with_shared_ids_send(
                &mut prfs[i],
                &left[i],
                &right[i],
                &shares[i][12..],
            )
            .unwrap()
        })
        .collect();
    let results: Vec<Vec<IdDistance<u32>>> = (0..3)
        .map(|i| {
            conditionally_select_distances_with_shared_ids(&right[i], &own[i], &own[(i + 2) % 3])
        })
        .collect();
    // control=0 -> right: id=30, code=300, mask=700
    // control=1 -> left: id=20, code=200, mask=600
    assert_eq!(
        open_distances(&results),
        vec![(30, 300, 700), (20, 200, 600)]
    );
    assert_eq!(
        conditionally_select_distances_with_shared_ids_send(
            &mut prfs[0],
            &left[0],
            &right[0],
            &shares[0][13..]
        )
        .err(),
        Some(ProtocolError::LengthMismatch)
    );
}

#[test]
fn test_conditionally_swap_distances_plain_ids() {
    let mut rng = StdRng::seed_from_u64(46);

    // List: [(10, (100, 500)), (20, (200, 600)), (30, (300, 700)), (40, (400, 800))]
    // Non-overlapping swap indices: [(0, 1), (2, 3)]
    // Swap-when-zero bits: [0, 1]
    //   bit=0 for (0,1) -> swap positions 0 and 1
    //   bit=1 for (2,3) -> no swap
    let list_ids: Vec<u32> = vec![10, 20, 30, 40];
    let all_vals: Vec<u32> = vec![100, 200, 300, 400, 500, 600, 700, 800];
    let shares = share_values(&mut rng, &all_vals);
    let bit_shares = share_bits(&mut rng, &[false, true]);
    let n = 4_usize;
    let list: Vec<Vec<(u32, DistanceShare<u32>)>> = shares
        .iter()
        .map(|s| (0..n).map(|j| (list_ids[j], distance(s[j], s[n + j]))).collect())
        .collect();
    let indices = vec![(0_usize, 1_usize), (2, 3)];
    let mut prfs = setup_prfs();
    let bits = run_bit_inject::<u32>(&mut prfs, 0, &bit_shares);
    let own: Vec<Vec<u32>> = (0..3)
        .map(|i| {
            conditionally_swap_distances_plain_ids_send(&mut prfs[i], &bits[i], &list[i], &indices)
                .unwrap()
        })
        .collect();
    let results: Vec<Vec<IdDistance<u32>>> = (0..3)
        .map(|i| {
            conditionally_swap_distances_plain_ids(
                Role::new(i),
                &bits[i],
                &list[i],
                &indices,
                &own[i],
                &own[(i + 2) % 3],
            )
        })
        .collect();
    assert_eq!(
        open_distances(&results),
        vec![
            (20, 200, 600),
            (10, 100, 500),
            (30, 300, 700),
            (40, 400, 800)
        ]
    );
}

#[test]
fn test_conditionally_swap_distances() {
    let mut rng = StdRng::seed_from_u64(47);

    // List: [(id=10, code=100, mask=500), (id=20, code=200, mask=600), (id=30, code=300, mask=700)]
    // Swap indices: [(0, 2)]
    // Swap-when-zero bits: [0] -> swap positions 0 and 2
    let vals: Vec<u32> = vec![
        10, 100, 500, // item 0
        20, 200, 600, // item 1
        30, 300, 700, // item 2
    ];
    let shares = share_values(&mut rng, &vals);
    let bit_shares = share_bits(&mut rng, &[false]);
    let list: Vec<Vec<IdDistance<u32>>> = shares
        .iter()
        .map(|s| {
            vec![
                (s[0], distance(s[1], s[2])),
                (s[3], distance(s[4], s[5])),
                (s[6], distance(s[7], s[8])),
            ]
        })
        .collect();
    let indices = vec![(0_usize, 2_usize)];
    let mut prfs = setup_prfs();
    let bits = run_bit_inject::<u32>(&mut prfs, 0, &bit_shares);
    let own: Vec<Vec<u32>> = (0..3)
        .map(|i| {
            conditionally_swap_distances_send(&mut prfs[i], &bits[i], &list[i], &indices).unwrap()
        })
        .collect();
    let results: Vec<Vec<IdDistance<u32>>> = (0..3)
        .map(|i| conditionally_swap_distances(&list[i], &indices, &own[i], &own[(i + 2) % 3]))
        .collect();
    // bit=0 -> swap positions 0 and 2
    assert_eq!(
        open_distances(&results),
        vec![(30, 300, 700), (20, 200, 600), (10, 100, 500)]
    );

    assert_eq!(check_swap(1, &indices, 3), Ok(()));
    assert_eq!(
        check_swap(2, &indices, 3),
        Err(ProtocolError::LengthMismatch)
    );
    assert_eq!(
        check_swap(1, &indices, 2),
        Err(ProtocolError::IndexOutOfBounds)
    );
}

#[test]
fn selection_of_distances_and_slices() {
    let mut rng = StdRng::seed_from_u64(76);
    // Two pairs, then the bits that select the second or the first of a pair.
    let vals: Vec<u32> = vec![1, 2, 3, 4, 5, 6, 7, 8, 1, 0];
    let shares = share_values(&mut rng, &vals);
    let pairs: Vec<Vec<(DistanceShare<u32>, DistanceShare<u32>)>> = shares
        .iter()
        .map(|s| {
            vec![
                (distance(s[0], s[1]), distance(s[2], s[3])),
                (distance(s[4], s[5]), distance(s[6], s[7])),
            ]
        })
        .collect();
    let mut prfs = setup_prfs();
    let own: Vec<Vec<u32>> = (0..3)
        .map(|i| {
            conditionally_select_distance_send(&mut prfs[i], &pairs[i], &shares[i][8..]).unwrap()
        })
        .collect();
    let results: Vec<Vec<IdDistance<u32>>> = (0..3)
        .map(|i| {
            conditionally_select_distance(&pairs[i], &own[i], &own[(i + 2) % 3])
                .into_iter()
                .map(|d| (Share::zero(), d))
                .collect()
        })
        .collect();
    assert_eq!(open_distances(&results), vec![(0, 1, 2), (0, 7, 8)]);

    let left: Vec<Vec<Share<u32>>> = shares.iter().map(|s| s[0..4].to_vec()).collect();
    let right: Vec<Vec<Share<u32>>> = shares.iter().map(|s| s[4..8].to_vec()).collect();
    let own: Vec<Vec<u32>> = (0..3)
        .map(|i| {
            select_shared_slices_by_bits_send(
                &mut prfs[i],
                &left[i],
                &right[i],
                &shares[i][8..],
                2,
            )
            .unwrap()
        })
        .collect();
    let slices: Vec<Vec<Share<u32>>> = (0..3)
        .map(|i| select_shared_slices_by_bits(&right[i], &own[i], &own[(i + 2) % 3]))
        .collect();
    assert_eq!(open(&slices), vec![1, 2, 7, 8]);
    assert_eq!(
        select_shared_slices_by_bits_send(&mut prfs[0], &left[0], &right[0], &shares[0][8..], 3)
            .err(),
        Some(ProtocolError::LengthMismatch)
    );
}

#[test]
fn products_are_reshared() {
    let mut rng = StdRng::seed_from_u64(77);
    let xs: Vec<u64> = (0..5).map(|_| rng.gen()).collect();
    let ys: Vec<u64> = (0..5).map(|_| rng.gen()).collect();
    let x = share_values(&mut rng, &xs);
    let y = share_values(&mut rng, &ys);
    let mut prfs = setup_prfs();
    let own: Vec<Vec<u64>> = (0..3)
        .map(|i| {
            let parts: Vec<u64> = x[i].iter().zip(&y[i]).map(|(a, b)| a.product(*b)).collect();
            reshare_products_send(&mut prfs[i], &parts)
        })
        .collect();
    let shares: Vec<Vec<Share<u64>>> = (0..3)
        .map(|i| reshare_products(&own[i], &own[(i + 2) % 3]))
        .collect();
    let expected: Vec<u64> = xs.iter().zip(&ys).map(|(a, b)| a.wrapping_mul(*b)).collect();
    assert_eq!(open(&shares), expected);
}
