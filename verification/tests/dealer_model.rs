//! Two compute parties and a dealer: comparison of shared with public numbers and extraction of
//! most significant bits, run step by step for all parties.

use ampc_core::batched_msb_extraction::{
    bitlt_3pc_batched_finish, bitlt_3pc_batched_mask, bitlt_3pc_batched_test, finish_msbs,
    low_parts, mask_values, masked_msb_shares, transpose_dealer_values,
};
use ampc_core::batched_preprocessing::{
    offline_shares_vec_for_role_additive_3pc, VecOfflineRandomSharesAdditive3pc,
};
use ampc_core::binary::{open_bin, open_bin_message};
use ampc_core::comparison_randomness::{draw_factors, draw_mask_bits, draw_rotation};
use ampc_core::matrix::{column_of, transpose};
use ampc_core::message::{pack, NetworkValue, ProtocolError};
use ampc_core::msb_dealer_helpers::{
    bin_to_primefield16, check_field, combine_binary_shares, combine_prime16_shares, combine_seeds,
    open_additive_share, open_additive_share_bit, open_additive_share_message,
    primefield16_to_bin_one_hot, receive_one_hot, receive_primes, send_binary_shares_to_dealer,
    send_prime16_shares_to_dealer, setup_shared_seed_dealer_model, shared_seed_exchange, Exchange,
};
use ampc_core::msb_offline_randomness::{
    create_single_sharing_additive, element_of_bits, offline_shares_for_role_additive_3pc,
    OfflineRandomSharesAdditive3pc,
};
use ampc_core::msb_preprocessing::{
    add2_to_rep_binary, add2_to_rep_binary_send, bin_to_primefield, bitlt, bitlt_mask, bitlt_test,
    combine_prime_shares, extract_msb_rand, extract_msb_rand_mask, extract_msb_rand_unmask,
    offline_shares_for_role, open_additive_share_u8, primefield_to_bin_one_hot, receive_mod19,
    rep_to_add2, send_prime_shares_to_dealer, OfflineRandomShares, MOD19,
};
use ampc_core::msb_preprocessing_additive::{
    bitlt_3pc_finish, bitlt_3pc_mask, bitlt_3pc_test, finish_msb, low_part, mask_value,
    masked_msb_share,
};
use ampc_core::ops::{open_ring, open_ring_message};
use ampc_core::player::Role;
use ampc_core::prf::{seed_to_rng, Prf};
use ampc_core::primefield::PrimeElement;
use ampc_core::ring::IntRing2k;
use ampc_core::shares::Share;
use ampc_core::test_utils::create_single_sharing;
use rand::rngs::StdRng;
use rand::{Rng, SeedableRng};

fn role(i: usize) -> Role {
    Role::new(i)
}

fn sent(exchange: Exchange) -> NetworkValue {
    match exchange {
        Exchange::SendPrev(msg) | Exchange::SendNext(msg) => msg,
        other => panic!("unexpected step {other:?}"),
    }
}

fn sent_both(exchange: Exchange) -> (NetworkValue, NetworkValue) {
    match exchange {
        Exchange::SendBoth { next, prev } => (next, prev),
        other => panic!("unexpected step {other:?}"),
    }
}

/// The dealer combines the bits of the compute parties and shares them over a prime field.
fn deal_bits(
    rng: &mut StdRng,
    bits_0: &[bool],
    bits_1: &[bool],
    p: u16,
) -> (Vec<PrimeElement>, Vec<PrimeElement>) {
    let single = bits_0.len() == 1;
    let from_0 = sent(send_binary_shares_to_dealer(role(0), bits_0).unwrap());
    let from_1 = sent(send_binary_shares_to_dealer(role(1), bits_1).unwrap());
    let values = combine_binary_shares(&from_1, &from_0, single).unwrap();
    let rands: Vec<PrimeElement> = values
        .iter()
        .map(|_| PrimeElement::new(rng.gen_range(0..p), p))
        .collect();
    let (to_0, to_1) = sent_both(if p == MOD19 {
        bin_to_primefield(role(2), &values, &rands).unwrap()
    } else {
        bin_to_primefield16(role(2), &values, &rands, p).unwrap()
    });
    if p == MOD19 {
        (
            receive_mod19(&to_0, single).unwrap(),
            receive_mod19(&to_1, single).unwrap(),
        )
    } else {
        (
            receive_primes(&to_0, single).unwrap(),
            receive_primes(&to_1, single).unwrap(),
        )
    }
}

/// The dealer learns the test values and marks the one that is zero.
fn deal_marks(rng: &mut StdRng, values: &[PrimeElement]) -> (Vec<bool>, Vec<bool>) {
    let single = values.len() == 1;
    let rands: Vec<bool> = values.iter().map(|_| rng.gen()).collect();
    let exchange = if values[0].modulus == MOD19 {
        primefield_to_bin_one_hot(role(2), values, &rands).unwrap()
    } else {
        primefield16_to_bin_one_hot(role(2), values, &rands).unwrap()
    };
    let (to_0, to_1) = sent_both(exchange);
    (
        receive_one_hot(&to_0, single).unwrap(),
        receive_one_hot(&to_1, single).unwrap(),
    )
}

/// The dealer combines the test values of the compute parties.
fn deal_tests(
    rng: &mut StdRng,
    test_0: &[PrimeElement],
    test_1: &[PrimeElement],
) -> (Vec<bool>, Vec<bool>) {
    let p = test_0[0].modulus;
    let single = test_0.len() == 1;
    let values = if p == MOD19 {
        let from_0 = sent(send_prime_shares_to_dealer(role(0), test_0).unwrap());
        let from_1 = sent(send_prime_shares_to_dealer(role(1), test_1).unwrap());
        combine_prime_shares(&from_1, &from_0, single).unwrap()
    } else {
        let from_0 = sent(send_prime16_shares_to_dealer(role(0), test_0).unwrap());
        let from_1 = sent(send_prime16_shares_to_dealer(role(1), test_1).unwrap());
        combine_prime16_shares(&from_1, &from_0, single).unwrap()
    };
    deal_marks(rng, &values)
}

/// What the compute parties draw from the seed that they share.
fn shared_randomness(
    rng: &mut StdRng,
    places: usize,
    p: u16,
) -> (Vec<bool>, Vec<PrimeElement>, usize) {
    let (seed_0, seed_1): ([u8; 16], [u8; 16]) = (rng.gen(), rng.gen());
    let from_0 = sent(shared_seed_exchange(role(0), seed_0).unwrap());
    let from_1 = sent(shared_seed_exchange(role(1), seed_1).unwrap());
    let at_0 = setup_shared_seed_dealer_model(role(0), &seed_0, &from_1).unwrap();
    let at_1 = setup_shared_seed_dealer_model(role(1), &seed_1, &from_0).unwrap();
    assert_eq!(at_0, at_1);
    assert_eq!(at_0, combine_seeds(&seed_0, &seed_1));
    let mut stream = seed_to_rng(&at_0);
    let masks = draw_mask_bits(&mut stream, places);
    let factors = draw_factors(&mut stream, p, places).unwrap();
    let shift = draw_rotation(&mut stream, places - 1);
    (masks, factors, shift)
}

/// Shares of whether the shared number is smaller than the public one.
fn run_bitlt<T: IntRing2k>(
    rng: &mut StdRng,
    shares_0: &[bool],
    shares_1: &[bool],
    public: T,
) -> Vec<bool> {
    let places = shares_0.len() + 1;
    let (masks, factors, shift) = shared_randomness(rng, places, MOD19);
    let bits_0 = bitlt_mask(role(0), shares_0, public, &masks);
    let bits_1 = bitlt_mask(role(1), shares_1, public, &masks);
    let (dealt_0, dealt_1) = deal_bits(rng, &bits_0, &bits_1, MOD19);
    let test_0 = bitlt_test(role(0), &dealt_0, &masks, &factors, shift);
    let test_1 = bitlt_test(role(1), &dealt_1, &masks, &factors, shift);
    let (marks_0, marks_1) = deal_tests(rng, &test_0, &test_1);
    vec![
        bitlt(role(0), &marks_0, public, shift),
        bitlt(role(1), &marks_1, public, shift),
        bitlt(role(2), &vec![false; places], public, shift),
    ]
}

/// Shares of whether the public number is smaller than the shared one.
fn run_bitlt_3pc<T: IntRing2k>(
    rng: &mut StdRng,
    shares_0: &[bool],
    shares_1: &[bool],
    public: T,
    p: u16,
) -> Vec<bool> {
    let places = shares_0.len() + 1;
    let (masks, factors, shift) = shared_randomness(rng, places, p);
    let bits_0 = bitlt_3pc_mask(role(0), shares_0, public, &masks);
    let bits_1 = bitlt_3pc_mask(role(1), shares_1, public, &masks);
    let (dealt_0, dealt_1) = deal_bits(rng, &bits_0, &bits_1, p);
    let test_0 = bitlt_3pc_test(role(0), &dealt_0, &masks, &factors, shift, p);
    let test_1 = bitlt_3pc_test(role(1), &dealt_1, &masks, &factors, shift, p);
    let (marks_0, marks_1) = deal_tests(rng, &test_0, &test_1);
    vec![
        bitlt_3pc_finish(role(0), &marks_0, public, shift),
        bitlt_3pc_finish(role(1), &marks_1, public, shift),
        bitlt_3pc_finish(role(2), &vec![false; places], public, shift),
    ]
}

fn open_bit(shares: &[bool]) -> bool {
    let opened: Vec<bool> = (0..3)
        .map(|i| {
            let prev = pack(&shares[(i + 2) % 3..(i + 2) % 3 + 1]);
            let next = pack(&shares[(i + 1) % 3..(i + 1) % 3 + 1]);
            open_additive_share_bit(shares[i], &prev, &next).unwrap()
        })
        .collect();
    assert_eq!(opened[0], opened[1]);
    assert_eq!(opened[1], opened[2]);
    opened[0]
}

/// The bits of a number, most significant bit first.
fn bits_of(value: u32, len: usize) -> Vec<bool> {
    (0..len).rev().map(|i| (value >> i) & 1 == 1).collect()
}

fn split_bits(rng: &mut StdRng, bits: &[bool]) -> (Vec<bool>, Vec<bool>) {
    bits.iter()
        .map(|b| create_single_sharing_additive::<bool>(*b, rng.gen()))
        .unzip()
}

#[test]
fn test_bitlt() {
    let mut rng = StdRng::seed_from_u64(81);
    let mut cases: Vec<(u8, u8)> = (0..60).map(|_| rng.gen()).collect();
    cases.extend([(0, 0), (7, 7), (255, 255), (0, 255), (255, 0), (127, 128), (6, 7)]);
    for (private_value, public_value) in cases {
        let (shares_0, shares_1) = split_bits(&mut rng, &bits_of(private_value as u32, 8));
        let result = run_bitlt(&mut rng, &shares_0, &shares_1, public_value);
        assert!(!result[2]);
        assert_eq!(
            open_bit(&result),
            private_value < public_value,
            "{private_value} < {public_value}"
        );
    }
}

#[test]
fn public_numbers_are_compared_with_shared_ones() {
    let mut rng = StdRng::seed_from_u64(82);
    let mut cases: Vec<(u16, u16)> = (0..60).map(|_| rng.gen()).collect();
    cases.extend([(0, 0), (65535, 65535), (500, 500), (0, 65535), (65535, 0)]);
    for (private_value, public_value) in cases {
        let (shares_0, shares_1) = split_bits(&mut rng, &bits_of(private_value as u32, 16));
        let result = run_bitlt_3pc(&mut rng, &shares_0, &shares_1, public_value, 37);
        assert_eq!(open_bit(&result), public_value < private_value);
    }
}

fn share_u8(rng: &mut StdRng, value: u8) -> Vec<Share<u8>> {
    let (s0, s1, s2) = create_single_sharing(rng.gen(), rng.gen(), value);
    vec![s0, s1, s2]
}

fn open_shares(shares: &[Share<u8>]) -> u8 {
    let opened: Vec<u8> = (0..3)
        .map(|i| {
            let msg = open_ring_message(&shares[(i + 2) % 3..(i + 2) % 3 + 1]);
            open_ring(&shares[i..i + 1], &msg).unwrap()[0]
        })
        .collect();
    assert_eq!(opened[0], opened[1]);
    assert_eq!(opened[1], opened[2]);
    opened[0]
}

/// Turns additive bit shares into replicated ones.
fn run_add2_to_rep(prfs: &mut [Prf], shares: &[bool]) -> Vec<Share<bool>> {
    let own: Vec<bool> = (0..3)
        .map(|i| add2_to_rep_binary_send(role(i), &mut prfs[i], shares[i]).unwrap())
        .collect();
    (0..3)
        .map(|i| {
            let msg = NetworkValue::RingElementBit(own[(i + 2) % 3]);
            add2_to_rep_binary(own[i], &msg).unwrap()
        })
        .collect()
}

fn setup_prfs() -> Vec<Prf> {
    let seeds: Vec<[u8; 16]> = (1..4_u8).map(|i| [i; 16]).collect();
    (0..3_usize)
        .map(|i| Prf::new(&seeds[i], &seeds[(i + 2) % 3]))
        .collect()
}

#[test]
fn test_extract_msb_rand() {
    let mut rng = StdRng::seed_from_u64(83);
    let mut prfs = setup_prfs();
    // the pre-generated randomness
    let offline: Vec<OfflineRandomShares<u8>> =
        (0..3).map(|i| offline_shares_for_role(role(i)).unwrap()).collect();
    for value in 0..=255_u8 {
        let x = share_u8(&mut rng, value);
        let masked: Vec<Share<u8>> = (0..3)
            .map(|i| extract_msb_rand_mask(x[i], &offline[i]))
            .collect();
        let c_prime = low_part(open_shares(&masked));
        // The low bits of the mask, as additive shares of the compute parties.
        let low_bits: Vec<Vec<bool>> = (0..2)
            .map(|i| {
                offline[i].r_bits[1..]
                    .iter()
                    .map(|b| rep_to_add2(role(i), *b).unwrap())
                    .collect()
            })
            .collect();
        let borrow = run_bitlt_3pc(&mut rng, &low_bits[0], &low_bits[1], c_prime, MOD19);
        let borrow = run_add2_to_rep(&mut prfs, &borrow);
        let e_shares: Vec<Share<u8>> = (0..3)
            .map(|i| extract_msb_rand_unmask(role(i), x[i], &offline[i], c_prime, borrow[i]))
            .collect();
        let e = open_shares(&e_shares);
        let msb: Vec<Share<u8>> = (0..3)
            .map(|i| extract_msb_rand(role(i), &offline[i], e))
            .collect();
        assert_eq!(open_shares(&msb), (value >> 7) & 1, "value {value}");
    }
    assert_eq!(
        offline_shares_for_role(role(3)).err(),
        Some(ProtocolError::UnsupportedRole)
    );
}

#[test]
fn test_rep_to_add2() {
    let mut rng = StdRng::seed_from_u64(84);
    for _ in 0..20 {
        let value: u8 = rng.gen();
        let shares = share_u8(&mut rng, value);
        let out: Vec<u8> = (0..3)
            .map(|i| rep_to_add2(role(i), shares[i]).unwrap())
            .collect();
        assert_eq!(out[2], 0);
        for i in 0..3 {
            let prev = NetworkValue::RingElement8(out[(i + 2) % 3]);
            let next = NetworkValue::RingElement8(out[(i + 1) % 3]);
            assert_eq!(open_additive_share_u8(out[i], &prev, &next), Ok(value));
        }
    }
    assert_eq!(
        rep_to_add2(role(3), Share::new(1_u8, 2)),
        Err(ProtocolError::UnsupportedRole)
    );
}

#[test]
fn test_add2_to_rep() {
    let mut rng = StdRng::seed_from_u64(85);
    let mut prfs = setup_prfs();
    for _ in 0..20 {
        let value: bool = rng.gen();
        // Two-party additive sharing of the bit; the dealer gets zero.
        let (s0, s1) = create_single_sharing_additive(value, rng.gen());
        let out = run_add2_to_rep(&mut prfs, &[s0, s1, false]);
        for i in 0..3 {
            let msg = open_bin_message(&out[(i + 2) % 3..(i + 2) % 3 + 1]);
            assert_eq!(open_bin(&out[i..i + 1], &msg), Ok(vec![value]));
        }
    }
    assert_eq!(
        add2_to_rep_binary_send(role(3), &mut prfs[0], true),
        Err(ProtocolError::UnsupportedRole)
    );
    assert_eq!(
        add2_to_rep_binary(true, &NetworkValue::RingElement8(1)),
        Err(ProtocolError::WrongValueType)
    );
}

fn additive_open<T: IntRing2k + ampc_core::message::Wire>(shares: &[Vec<T>]) -> Vec<Vec<T>> {
    (0..3)
        .map(|i| {
            let prev = open_additive_share_message(&shares[(i + 2) % 3]);
            let next = open_additive_share_message(&shares[(i + 1) % 3]);
            open_additive_share(&shares[i], &prev, &next).unwrap()
        })
        .collect()
}

#[test]
fn test_extract_msb_rand_additive() {
    let modulus = 67; // primefield modulus
    let mut rng = StdRng::seed_from_u64(86);
    let len = 100usize; // test size
    let mut ints: Vec<u32> = (0..len).map(|_| rng.gen()).collect();
    ints.extend([0, 0x7fff_ffff, 0x8000_0000, u32::MAX]);
    let expected: Vec<u32> = ints.iter().map(|x| (*x >> 31) & 1).collect();
    let mut out: Vec<Vec<u32>> = vec![Vec::new(); 3];
    for value in &ints {
        let (a, b): (u32, u32) = rng.gen();
        let x = [a, b, value.wrapping_sub(a).wrapping_sub(b)];
        let bits: Vec<bool> = (0..32).map(|_| rng.gen()).collect();
        let first: Vec<bool> = (0..32).map(|_| rng.gen()).collect();
        let offline: Vec<OfflineRandomSharesAdditive3pc<u32>> =
            offline_shares_for_role_additive_3pc(&bits, &first, rng.gen(), rng.gen(), rng.gen());
        let masked: Vec<Vec<u32>> = (0..3).map(|i| vec![mask_value(x[i], &offline[i])]).collect();
        let c_prime = low_part(additive_open(&masked)[0][0]);
        let borrow = run_bitlt_3pc(
            &mut rng,
            &offline[0].r_bits[1..],
            &offline[1].r_bits[1..],
            c_prime,
            modulus,
        );
        let e_shares: Vec<Vec<u32>> = (0..3)
            .map(|i| vec![masked_msb_share(role(i), x[i], &offline[i], c_prime, borrow[i])])
            .collect();
        let e = additive_open(&e_shares)[0][0];
        for (i, column) in out.iter_mut().enumerate() {
            column.push(finish_msb(role(i), &offline[i], e));
        }
    }
    let opened = additive_open(&out);
    assert_eq!(opened.len(), 3);
    assert_eq!(opened[0], opened[1]);
    assert_eq!(opened[1], opened[2]);
    assert_eq!(opened[0], expected);
}

#[test]
fn test_extract_msb_batch_rand_additive() {
    let modulus = 37; // primefield modulus
    let mut rng = StdRng::seed_from_u64(87);
    let len = 100usize; // test size
    let ints: Vec<u16> = (0..len).map(|_| rng.gen()).collect();
    let expected: Vec<u16> = ints.iter().map(|x| (*x >> 15) & 1).collect();
    let mut x: Vec<Vec<u16>> = vec![Vec::new(); 3];
    for value in &ints {
        let (a, b): (u16, u16) = rng.gen();
        x[0].push(a);
        x[1].push(b);
        x[2].push(value.wrapping_sub(a).wrapping_sub(b));
    }
    let mut rows = |width: usize| -> Vec<Vec<bool>> {
        (0..len)
            .map(|_| (0..width).map(|_| rng.gen()).collect())
            .collect()
    };
    let bits = rows(16);
    let first = rows(16);
    let r_masks: Vec<u16> = (0..len).map(|_| rng.gen()).collect();
    let b_values: Vec<bool> = (0..len).map(|_| rng.gen()).collect();
    let b_masks: Vec<u16> = (0..len).map(|_| rng.gen()).collect();
    let offline: Vec<VecOfflineRandomSharesAdditive3pc<u16>> =
        offline_shares_vec_for_role_additive_3pc(&bits, &first, &r_masks, &b_values, &b_masks);
    assert!(offline.iter().all(|o| o.r_bits.len() == 16 && o.r_bits[0].len() == len));

    let masked: Vec<Vec<u16>> = (0..3).map(|i| mask_values(&x[i], &offline[i])).collect();
    let c_primes = low_parts(&additive_open(&masked)[0]);

    // The batch of comparisons, one row per place.
    let places = 16_usize;
    let masks: Vec<Vec<bool>> = (0..places)
        .map(|_| (0..len).map(|_| rng.gen()).collect())
        .collect();
    let (_, factors, shift) = shared_randomness(&mut rng, places, modulus);
    let rows_0 = bitlt_3pc_batched_mask(role(0), &offline[0].r_bits[1..], &c_primes, &masks);
    let rows_1 = bitlt_3pc_batched_mask(role(1), &offline[1].r_bits[1..], &c_primes, &masks);
    let mut dealt_0 = Vec::new();
    let mut dealt_1 = Vec::new();
    for (row_0, row_1) in rows_0.iter().zip(&rows_1) {
        let (d0, d1) = deal_bits(&mut rng, row_0, row_1, modulus);
        dealt_0.push(d0);
        dealt_1.push(d1);
    }
    let test_0 =
        bitlt_3pc_batched_test(role(0), &dealt_0, &masks, &factors, shift, modulus, len);
    let test_1 =
        bitlt_3pc_batched_test(role(1), &dealt_1, &masks, &factors, shift, modulus, len);
    let values: Vec<Vec<PrimeElement>> = test_0
        .iter()
        .zip(&test_1)
        .map(|(row_0, row_1)| {
            let from_0 = sent(send_prime16_shares_to_dealer(role(0), row_0).unwrap());
            let from_1 = sent(send_prime16_shares_to_dealer(role(1), row_1).unwrap());
            combine_prime16_shares(&from_1, &from_0, false).unwrap()
        })
        .collect();
    let mut marks_0 = Vec::new();
    let mut marks_1 = Vec::new();
    for element in transpose_dealer_values(&values, len) {
        let (m0, m1) = deal_marks(&mut rng, &element);
        marks_0.push(m0);
        marks_1.push(m1);
    }
    let borrow = [
        bitlt_3pc_batched_finish(role(0), &marks_0, &c_primes, places - 1, shift),
        bitlt_3pc_batched_finish(role(1), &marks_1, &c_primes, places - 1, shift),
        vec![false; len],
    ];
    let e_shares: Vec<Vec<u16>> = (0..3)
        .map(|i| masked_msb_shares(role(i), &x[i], &offline[i], &c_primes, &borrow[i]))
        .collect();
    let e = additive_open(&e_shares);
    let out: Vec<Vec<u16>> = (0..3)
        .map(|i| finish_msbs(role(i), &offline[i], &e[i]))
        .collect();
    let opened = additive_open(&out);
    assert_eq!(opened[0], opened[1]);
    assert_eq!(opened[1], opened[2]);
    assert_eq!(opened[0], expected);
}

#[test]
fn dealt_randomness_belongs_together() {
    let bits = bits_of(0b1011_0110, 8);
    let first = bits_of(0b0101_0101, 8);
    assert_eq!(element_of_bits::<u8>(&bits), 182);
    let offline = offline_shares_for_role_additive_3pc::<u8>(&bits, &first, 200, true, 7);
    assert_eq!(offline.len(), 3);
    let r = offline.iter().fold(0_u8, |acc, o| acc.wrapping_add(o.r));
    assert_eq!(r, 182);
    let b = offline.iter().fold(0_u8, |acc, o| acc.wrapping_add(o.b_bit));
    assert_eq!(b, 1);
    for (i, bit) in bits.iter().enumerate() {
        assert_eq!(
            offline[0].r_bits[i] ^ offline[1].r_bits[i] ^ offline[2].r_bits[i],
            *bit
        );
    }
    // The fixed randomness shares the same element.
    let fixed: Vec<OfflineRandomShares<u8>> =
        (0..3).map(|i| offline_shares_for_role(role(i)).unwrap()).collect();
    let r = fixed.iter().fold(0_u8, |acc, o| acc.wrapping_add(o.r.a));
    assert_eq!(r, 182);
    for (i, bit) in bits.iter().enumerate() {
        let shared = fixed.iter().fold(false, |acc, o| acc ^ o.r_bits[i].a);
        assert_eq!(shared, *bit);
    }
}

#[test]
fn steps_refuse_other_roles_and_messages() {
    assert_eq!(
        shared_seed_exchange(role(2), [0; 16]).err(),
        Some(ProtocolError::UnsupportedRole)
    );
    assert_eq!(
        setup_shared_seed_dealer_model(role(2), &[0; 16], &NetworkValue::PrfKey([1; 16])),
        Err(ProtocolError::UnsupportedRole)
    );
    assert_eq!(
        setup_shared_seed_dealer_model(role(0), &[0; 16], &NetworkValue::RingElement8(1)),
        Err(ProtocolError::WrongValueType)
    );
    assert_eq!(
        send_binary_shares_to_dealer(role(3), &[true]).err(),
        Some(ProtocolError::UnsupportedRole)
    );
    assert!(matches!(
        send_binary_shares_to_dealer(role(2), &[]),
        Ok(Exchange::ReceiveBoth)
    ));
    assert!(matches!(
        bin_to_primefield16(role(0), &[], &[], 37),
        Ok(Exchange::ReceivePrev)
    ));
    assert!(matches!(
        primefield16_to_bin_one_hot(role(1), &[], &[]),
        Ok(Exchange::ReceiveNext)
    ));
    assert_eq!(
        combine_binary_shares(&pack(&[true, false]), &pack(&[1_u8, 2]), false),
        Err(ProtocolError::WrongValueType)
    );
    // Elements are taken of whatever field they are, and added in it.
    let foreign = pack(&[PrimeElement::new(13, 19), PrimeElement::new(4, 19)]);
    let usual = pack(&[PrimeElement::new(13, 37), PrimeElement::new(4, 37)]);
    let taken = receive_primes(&foreign, false).unwrap();
    assert_eq!(taken, vec![PrimeElement::new(13, 19), PrimeElement::new(4, 19)]);
    assert!(check_field(&taken, 19));
    assert!(!check_field(&taken, 37));
    assert_eq!(
        combine_prime16_shares(&foreign, &foreign, false),
        Ok(vec![PrimeElement::new(7, 19), PrimeElement::new(8, 19)])
    );
    assert_eq!(
        combine_prime16_shares(&foreign, &usual, false),
        Err(ProtocolError::WrongModulus)
    );
    assert_eq!(
        combine_prime16_shares(&usual, &pack(&[1_u8, 2]), false),
        Err(ProtocolError::WrongValueType)
    );
    assert_eq!(
        receive_mod19(&pack(&[PrimeElement::new(3, 37)]), true),
        Err(ProtocolError::WrongModulus)
    );
    assert_eq!(
        receive_one_hot(&pack(&[true, false]), true),
        Err(ProtocolError::WrongValueType)
    );
}

#[test]
fn columns_and_rows_change_places() {
    let rows = vec![vec![1, 2, 3], vec![4, 5, 6]];
    assert_eq!(column_of(&rows, 1, 3), vec![2, 5]);
    assert_eq!(transpose(&rows, 3), vec![vec![1, 4], vec![2, 5], vec![3, 6]]);
}
