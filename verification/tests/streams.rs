//! Keyed streams, the keys that the parties hold, and what is drawn from them.

use std::collections::{HashMap, HashSet};

use ampc_core::aes_stream::{draw_masks, draw_seed, AesStream};
use ampc_core::comparison_randomness::{draw_factors, draw_mask_bits, draw_rotation};
use ampc_core::message::{NetworkValue, ProtocolError};
use ampc_core::ops::{setup_replicated_prf, setup_shared_seed};
use ampc_core::player::Role;
use ampc_core::prf::{draw_batch, rejection_bound, seed_to_rng, shuffle, Prf, PrfDraw, PrfRng};
use ampc_core::prf_keys::{
    five_party_roles, PairwisePrfKeys, PartyPair, ThresholdPrfKeys, FIVE_PARTY_COUNT,
};
use rand::Rng;
use rand::SeedableRng;
use rand_core::RngCore;
use statrs::distribution::{ChiSquared, ContinuousCDF};

type PrfSeed = [u8; 16];

fn seed(first: u8) -> PrfSeed {
    let mut s = [0_u8; 16];
    s[0] = first;
    s
}

fn chi_squared_test(counters: &[u32], expected: u32) -> bool {
    let degrees_of_freedom = counters.len() - 1;
    let expected_f = expected as f64;
    let chi2: f64 = counters
        .iter()
        .map(|count| {
            let diff = *count as f64 - expected_f;
            diff * diff / expected_f
        })
        .sum();

    // Significance level
    let alpha = 1e-6;
    let chi_squared_dist = ChiSquared::new(degrees_of_freedom as f64).unwrap();
    let critical_value = chi_squared_dist.inverse_cdf(1.0 - alpha);

    chi2 < critical_value
}

fn residues_are_uniform(prf: &mut Prf, modulus: u32) {
    // Expected count for values in each bin
    let expected: u32 = 1000;
    let mut counters_a = vec![0_u32; modulus as usize];
    let mut counters_b = vec![0_u32; modulus as usize];
    let num_samples = modulus * expected;
    for _ in 0..num_samples {
        let (v_a, v_b) = prf.gen_u32_mod(modulus).unwrap();
        counters_a[v_a as usize] += 1;
        counters_b[v_b as usize] += 1;
    }
    assert!(chi_squared_test(&counters_a, expected));
    assert!(chi_squared_test(&counters_b, expected));
}

#[test]
fn test_gen_u32_mod() {
    let mut prf = Prf::new(&seed(17), &seed(42));
    residues_are_uniform(&mut prf, 2);
    residues_are_uniform(&mut prf, 7);
    residues_are_uniform(&mut prf, 101);
}

fn permutations_are_uniform(prf: &mut Prf, size: u32) {
    // Expected count for each permutation
    let expected: u32 = 100;
    let num_bins: u32 = (2..=size).product();
    let num_samples = num_bins * expected / 2;

    let mut perm_stats = HashMap::new();
    for _ in 0..num_samples {
        let perm = prf.gen_permutation(size).unwrap();
        *perm_stats.entry(perm.0).or_insert(0_u32) += 1;
        *perm_stats.entry(perm.1).or_insert(0_u32) += 1;
    }

    // Check that all permutations have been generated.
    assert_eq!(perm_stats.len() as u32, num_bins);

    let counters: Vec<u32> = perm_stats.values().cloned().collect();
    assert!(chi_squared_test(&counters, expected));
}

#[test]
fn test_gen_permutation() {
    let mut prf = Prf::new(&seed(3), &seed(9));
    permutations_are_uniform(&mut prf, 2);
    permutations_are_uniform(&mut prf, 4);
    permutations_are_uniform(&mut prf, 5);
}

#[test]
fn test_party_pair_excluding_gives_six_disjoint_pairs() {
    for own in 0..FIVE_PARTY_COUNT {
        let own_role = Role::new(own as usize);
        let pairs = PartyPair::excluding(own_role);
        assert_eq!(pairs.len(), 6);
        assert!(pairs.iter().all(|pair| !pair.contains(own_role)));

        let unique: HashSet<_> = pairs.iter().collect();
        assert_eq!(unique.len(), 6, "pairs must be pairwise distinct");
    }

    // Every one of the 10 possible pairs is owned by exactly 3 of the 5 parties.
    let mut owner_counts: HashMap<PartyPair, u32> = HashMap::new();
    for own in 0..FIVE_PARTY_COUNT {
        for pair in PartyPair::excluding(Role::new(own as usize)) {
            *owner_counts.entry(pair).or_insert(0) += 1;
        }
    }
    assert_eq!(owner_counts.len(), 10);
    assert!(owner_counts.values().all(|&count| count == 3));
}

#[test]
fn test_threshold_prf_keys_from_seeds_rejects_wrong_key_set() {
    let own_role = Role::new(0);
    // Missing key set (empty) should be rejected.
    assert!(ThresholdPrfKeys::from_seeds(own_role, &[]).is_err());

    // A key set that includes a pair containing own_role should be rejected.
    let mut seeds: Vec<(PartyPair, PrfSeed)> = PartyPair::excluding(Role::new(1))
        .into_iter()
        .map(|pair| (pair, [0u8; 16]))
        .collect();
    assert!(ThresholdPrfKeys::from_seeds(own_role, &seeds).is_err());

    // The correct key set is accepted.
    seeds = PartyPair::excluding(own_role)
        .into_iter()
        .map(|pair| (pair, [0u8; 16]))
        .collect();
    assert!(ThresholdPrfKeys::from_seeds(own_role, &seeds).is_ok());
}

#[test]
fn test_pairwise_prf_keys_from_seeds_rejects_wrong_key_set() {
    let own_role = Role::new(0);
    assert!(PairwisePrfKeys::from_seeds(own_role, &[]).is_err());

    // Including a key for `own_role` itself should be rejected.
    let mut seeds: Vec<(Role, PrfSeed)> = (0..FIVE_PARTY_COUNT)
        .map(|i| (Role::new(i as usize), [0u8; 16]))
        .collect();
    assert!(PairwisePrfKeys::from_seeds(own_role, &seeds).is_err());

    seeds.retain(|(role, _)| *role != own_role);
    assert!(PairwisePrfKeys::from_seeds(own_role, &seeds).is_ok());
}

#[test]
fn test_setup_replicated_prf() {
    let seeds: Vec<PrfSeed> = (0..3).map(seed).collect();
    // Every party hands its seed to the next one, so the parties hold
    // P0: [seed_0, seed_2]
    // P1: [seed_1, seed_0]
    // P2: [seed_2, seed_1]
    for party in 0..3_usize {
        let prev = (party + 2) % 3;
        let received = NetworkValue::PrfKey(seeds[prev]);
        let mut prf = setup_replicated_prf(&seeds[party], &received).unwrap();
        let mut expected = Prf::new(&seeds[party], &seeds[prev]);
        assert_eq!(
            draw_batch::<u64>(prf.get_my_prf(), 3),
            draw_batch::<u64>(expected.get_my_prf(), 3)
        );
        assert_eq!(
            draw_batch::<u64>(prf.get_prev_prf(), 3),
            draw_batch::<u64>(expected.get_prev_prf(), 3)
        );
    }
    assert_eq!(
        setup_replicated_prf(&seeds[0], &NetworkValue::RingElement16(3)).err(),
        Some(ProtocolError::WrongValueType)
    );
}

#[test]
fn test_setup_shared_seed() {
    let seeds: Vec<PrfSeed> = (0..3).map(seed).collect();
    let results: Vec<PrfSeed> = (0..3_usize)
        .map(|party| {
            let prev = NetworkValue::PrfKey(seeds[(party + 2) % 3]);
            let next = NetworkValue::PrfKey(seeds[(party + 1) % 3]);
            setup_shared_seed(&seeds[party], &prev, &next).unwrap()
        })
        .collect();

    // All parties should compute the same shared seed
    assert_eq!(results[0], results[1]);
    assert_eq!(results[1], results[2]);

    // The shared seed should be XOR of all three seeds
    let expected: PrfSeed = std::array::from_fn(|i| seeds[0][i] ^ seeds[1][i] ^ seeds[2][i]);
    assert_eq!(results[0], expected);
}

#[test]
fn stream_words_are_those_of_the_cipher() {
    let key = Prf::expand_seed(&seed(5));
    let mut reference = rand_chacha::ChaCha8Rng::from_seed(key);
    let mut rng = seed_to_rng(&seed(5));
    for _ in 0..70 {
        assert_eq!(rng.next_word(), reference.gen::<u32>());
    }
    // A draw of 64 bits takes the low word first.
    assert_eq!(u64::draw(&mut rng), reference.gen::<u64>());
    assert_eq!(u32::draw(&mut rng), reference.gen::<u32>());
    assert_eq!(u16::draw(&mut rng), reference.gen::<u16>());
    assert_eq!(u8::draw(&mut rng), reference.gen::<u8>());
    assert_eq!(bool::draw(&mut rng), reference.gen::<bool>());
}

#[test]
fn streams_go_on_past_64_bit_positions() {
    let key = Prf::expand_seed(&seed(6));
    let mut reference = rand_chacha::ChaCha8Rng::from_seed(key);
    let start: u128 = (1 << 64) - 3;
    reference.set_word_pos(start);
    let mut rng = PrfRng { key, pos: start };
    for _ in 0..8 {
        assert_eq!(rng.next_word(), reference.gen::<u32>());
    }
    assert_eq!(rng.pos, (1 << 64) + 5);
    assert_eq!(rng.next_below(1000), reference.gen_range(0..1000_u64));

    // At its end a stream begins again.
    let mut rng = PrfRng { key, pos: (1 << 68) - 1 };
    let mut first = rand_chacha::ChaCha8Rng::from_seed(key);
    rng.next_word();
    assert_eq!(rng.pos, 0);
    assert_eq!(rng.next_word(), first.gen::<u32>());
}

#[test]
fn batches_are_drawn_word_by_word() {
    let mut prf = Prf::new(&seed(8), &seed(9));
    let mut single = Prf::new(&seed(8), &seed(9));
    let n = 20_000;
    let (mine, prev) = prf.gen_rands_batch::<u64>(n);
    for i in 0..n {
        assert_eq!(single.gen_rands::<u64>(), (mine[i], prev[i]));
    }
    assert_eq!(prf.my_prf.pos, single.my_prf.pos);
    let (mine, prev) = prf.gen_rands_batch::<bool>(33);
    for i in 0..33 {
        assert_eq!(single.gen_rands::<bool>(), (mine[i], prev[i]));
    }
}

#[test]
fn a_seed_is_expanded_by_its_digest() {
    let s = seed(200);
    assert_eq!(Prf::expand_seed(&s), *blake3::hash(&s).as_bytes());
    assert_ne!(Prf::expand_seed(&s), Prf::expand_seed(&seed(201)));
    assert_ne!(Prf::expand_seed(&s)[0..16], s[0..16]);
}

#[test]
fn bounded_draws_match_the_sampler() {
    let key = Prf::expand_seed(&seed(77));
    let mut reference = rand_chacha::ChaCha8Rng::from_seed(key);
    let mut rng = seed_to_rng(&seed(77));
    for bound in [1_u64, 2, 7, 33, 1000, u64::MAX] {
        for _ in 0..20 {
            let drawn = rng.next_below(bound);
            assert!(drawn < bound);
            assert_eq!(drawn, reference.gen_range(0..bound));
        }
    }
}

#[test]
fn zero_shares_of_three_parties_cancel() {
    let seeds: Vec<PrfSeed> = (10..13).map(seed).collect();
    let mut prfs: Vec<Prf> = (0..3_usize)
        .map(|i| Prf::new(&seeds[i], &seeds[(i + 2) % 3]))
        .collect();
    for _ in 0..10 {
        let sum = prfs
            .iter_mut()
            .map(|p| p.gen_zero_share::<u32>())
            .fold(0_u32, |acc, x| acc.wrapping_add(x));
        assert_eq!(sum, 0);
        let xor = prfs
            .iter_mut()
            .map(|p| p.gen_binary_zero_share::<u64>())
            .fold(0_u64, |acc, x| acc ^ x);
        assert_eq!(xor, 0);
    }
    let single = prfs[0].gen_zero_share::<u64>();
    assert_ne!(single, 0);
}

#[test]
fn draws_of_neighbours_agree() {
    let mut first = Prf::new(&seed(1), &seed(0));
    let mut second = Prf::new(&seed(2), &seed(1));
    let mine: Vec<u16> = first.gen_rands_mine(12);
    let theirs: Vec<u16> = second.gen_rands_prev(12);
    assert_eq!(mine, theirs);

    let (a, _) = first.gen_rands::<u64>();
    let (_, b) = second.gen_rands::<u64>();
    assert_eq!(a, b);

    let (own, _) = first.gen_rands_batch::<u8>(5);
    let (_, prev) = second.gen_rands_batch::<u8>(5);
    assert_eq!(own, prev);

    let (p_own, _) = first.gen_permutation(9).unwrap();
    let (_, p_prev) = second.gen_permutation(9).unwrap();
    assert_eq!(p_own, p_prev);
}

#[test]
fn residues_reject_a_zero_modulus() {
    let mut prf = Prf::new(&seed(1), &seed(2));
    assert_eq!(prf.gen_u32_mod(0).err(), Some(ProtocolError::ZeroModulus));
    assert_eq!(prf.gen_u32_mod(1), Ok((0, 0)));
    // The draws up to the bound cover every residue equally often.
    assert_eq!((rejection_bound(7) + 1) % 7, 0);
    assert!(u64::MAX - rejection_bound(7) < 7);
}

#[test]
fn shuffles_follow_their_choices() {
    assert_eq!(shuffle(0, &[]), Vec::<u32>::new());
    assert_eq!(shuffle(1, &[]), vec![0]);
    // Every place keeps its own entry.
    assert_eq!(shuffle(4, &[1, 2, 3]), vec![0, 1, 2, 3]);
    let all_first = shuffle(4, &[0, 0, 0]);
    let mut sorted = all_first.clone();
    sorted.sort();
    assert_eq!(sorted, vec![0, 1, 2, 3]);
    assert_ne!(all_first, vec![0, 1, 2, 3]);
}

#[test]
fn permutations_of_no_and_one_element() {
    let mut prf = Prf::new(&seed(1), &seed(2));
    assert_eq!(prf.gen_permutation(0).unwrap(), (vec![], vec![]));
    assert_eq!(prf.gen_permutation(1).unwrap(), (vec![0], vec![0]));
}

#[test]
fn keys_are_found_by_their_parties() {
    let own = Role::new(2);
    let seeds: Vec<(PartyPair, PrfSeed)> = PartyPair::excluding(own)
        .into_iter()
        .enumerate()
        .map(|(i, pair)| (pair, seed(i as u8)))
        .collect();
    let mut keys = ThresholdPrfKeys::from_seeds(own, &seeds).unwrap();
    assert_eq!(keys.own_role(), own);
    assert_eq!(keys.owned_pairs(), PartyPair::excluding(own));
    assert!(keys.get_mut(Role::new(2), Role::new(3)).is_none());
    assert!(keys.get_mut(Role::new(3), Role::new(3)).is_none());
    for (i, (pair, s)) in seeds.iter().enumerate() {
        let (a, b) = pair.parties();
        assert_eq!(PartyPair::new(b, a), *pair);
        let expected = draw_batch::<u64>(&mut seed_to_rng(s), 2);
        let rng: &mut PrfRng = keys.get_mut(b, a).unwrap();
        assert_eq!(vec![u64::draw(rng)], expected[0..1].to_vec(), "key {i}");
        // The stream goes on where it stopped, whichever way round the pair is given.
        let rng: &mut PrfRng = keys.get_mut(a, b).unwrap();
        assert_eq!(vec![u64::draw(rng)], expected[1..2].to_vec(), "key {i}");
    }

    let pairwise: Vec<(Role, PrfSeed)> = five_party_roles()
        .into_iter()
        .filter(|r| *r != own)
        .map(|r| (r, seed(r.index() as u8)))
        .collect();
    let mut keys = PairwisePrfKeys::from_seeds(own, &pairwise).unwrap();
    assert_eq!(keys.own_role(), own);
    assert_eq!(
        keys.parties(),
        vec![Role::new(0), Role::new(1), Role::new(3), Role::new(4)]
    );
    assert!(keys.get_mut(own).is_none());
    let rng = keys.get_mut(Role::new(4)).unwrap();
    assert_eq!(u64::draw(rng), u64::draw(&mut seed_to_rng(&seed(4))));
}

#[test]
fn key_sets_with_repeated_or_foreign_parties_are_refused() {
    let own = Role::new(0);
    let mut seeds: Vec<(PartyPair, PrfSeed)> = PartyPair::excluding(own)
        .into_iter()
        .map(|pair| (pair, [0u8; 16]))
        .collect();
    seeds[0] = seeds[1];
    assert_eq!(
        ThresholdPrfKeys::from_seeds(own, &seeds).err(),
        Some(ProtocolError::WrongKeySet)
    );
    let foreign: Vec<(Role, PrfSeed)> = (1..4)
        .chain(5..6)
        .map(|i| (Role::new(i), [0u8; 16]))
        .collect();
    assert_eq!(
        PairwisePrfKeys::from_seeds(own, &foreign).err(),
        Some(ProtocolError::WrongKeySet)
    );
}

#[test]
fn aes_streams_read_the_cipher_stream() {
    let s = seed(31);
    let mut reference = <aes_prng::AesRng as rand_core::SeedableRng>::from_seed(s);
    let mut stream = AesStream::from_seed(&s);
    for i in 0..40 {
        if i % 3 == 0 {
            assert_eq!(stream.next_u64(), reference.next_u64());
        } else {
            assert_eq!(stream.next_u32(), reference.next_u32());
        }
    }
    // 16-bit masks are the low halves of 32-bit words.
    let masks: Vec<u16> = draw_masks(&mut stream, 4);
    let expected: Vec<u16> = (0..4).map(|_| reference.next_u32() as u16).collect();
    assert_eq!(masks, expected);
    let wide: Vec<u64> = draw_masks(&mut stream, 3);
    let expected: Vec<u64> = (0..3).map(|_| reference.next_u64()).collect();
    assert_eq!(wide, expected);
    let drawn = draw_seed(&mut stream);
    let expected: PrfSeed = std::array::from_fn(|_| reference.next_u32() as u8);
    assert_eq!(drawn, expected);
    assert_ne!(
        AesStream::from_seed(&seed(1)).next_u64(),
        AesStream::from_seed(&seed(2)).next_u64()
    );
}

#[test]
fn comparison_randomness_is_in_range() {
    let mut rng = seed_to_rng(&seed(90));
    let bits = draw_mask_bits(&mut rng, 40);
    assert_eq!(bits.len(), 40);
    assert!(bits.contains(&true) && bits.contains(&false));

    let factors = draw_factors(&mut rng, 67, 200).unwrap();
    assert_eq!(factors.len(), 200);
    assert!(factors.iter().all(|f| f.modulus == 67 && 0 < f.value && f.value < 67));
    assert!(factors.iter().any(|f| f.value == 66));

    let rotations: HashSet<usize> = (0..200).map(|_| draw_rotation(&mut rng, 8)).collect();
    assert_eq!(rotations.len(), 8);
    assert!(rotations.iter().all(|r| *r < 8));

    // The same seed gives the same randomness.
    let mut again = seed_to_rng(&seed(90));
    assert_eq!(draw_mask_bits(&mut again, 40), bits);
}
