//! Dealing of replicated shares among five parties, resharing and addition, run step by step for
//! all parties.

use ampc_core::dealer_5pc::{
    awaits_dealer, dealer_rss5_arithmetic, dealer_rss5_boolean, dealer_rss5_boolean_all,
    receive_dealer_correction, select_correction_pair_and_recipients, slot_pair, RssShare,
    ShareType,
};
use ampc_core::message::{pack_vec, NetworkValue, ProtocolError, Wire};
use ampc_core::player::Role;
use ampc_core::prf::{draw_batch, PrfDraw};
use ampc_core::prf_keys::{five_party_roles, PairwisePrfKeys, PartyPair, ThresholdPrfKeys};
use ampc_core::ring::IntRing2k;
use ampc_core::rss5_adder::transpose_planes;
use ampc_core::rss5_binary::{full_adder_operands, full_adder_reduce};
use ampc_core::rss5_ops::{
    and_many, dealer_three_party_additive_as_boolean_rss5_batches, join_batches, receive_reshared,
    reshare_five_to_three_additive_canonical, reshare_five_to_three_party_additive,
    FiveToThreeRoles, Reshared,
};
use ampc_core::rss5_reconstruction::rss5_reconstruction;
use ampc_core::test_utils::{create_array_sharing_additive_5party, reconstruct_additive_shares};
use rand::rngs::StdRng;
use rand::{Rng, SeedableRng};

const PARTIES: usize = 5;

fn fixed_keys(role: Role) -> ThresholdPrfKeys {
    let seeds: Vec<(PartyPair, [u8; 16])> = PartyPair::excluding(role)
        .into_iter()
        .map(|pair| {
            let (i, j) = pair.parties();
            let mut seed = [0; 16];
            seed[0] = i.index() as u8;
            seed[1] = j.index() as u8;
            (pair, seed)
        })
        .collect();
    ThresholdPrfKeys::from_seeds(role, &seeds).unwrap()
}

fn all_fixed_keys() -> Vec<ThresholdPrfKeys> {
    (0..PARTIES).map(|i| fixed_keys(Role::new(i))).collect()
}

fn fixed_pairwise_keys(role: Role) -> PairwisePrfKeys {
    let seeds: Vec<(Role, [u8; 16])> = five_party_roles()
        .into_iter()
        .filter(|other| *other != role)
        .map(|other| {
            let pair = PartyPair::new(role, other);
            let mut seed = [7; 16];
            seed[0] = pair.parties().0.index() as u8;
            seed[1] = pair.parties().1.index() as u8;
            (other, seed)
        })
        .collect();
    PairwisePrfKeys::from_seeds(role, &seeds).unwrap()
}

fn assert_same_prf_state(actual: &mut ThresholdPrfKeys, expected: &mut ThresholdPrfKeys) {
    assert_eq!(actual.own_role(), expected.own_role());
    for pair in PartyPair::excluding(actual.own_role()) {
        let (i, j) = pair.parties();
        assert_eq!(
            draw_batch::<u64>(actual.get_mut(i, j).unwrap(), 4),
            draw_batch::<u64>(expected.get_mut(i, j).unwrap(), 4),
            "PRF streams diverged for {pair:?}"
        );
    }
}

type Dealt<T> = Result<(Vec<RssShare<T>>, Option<Vec<T>>), ProtocolError>;

fn deal_half<T: IntRing2k + PrfDraw>(
    kind: ShareType,
    role: Role,
    threshold: &mut ThresholdPrfKeys,
    dealer: Role,
    len: usize,
    inputs: Option<Vec<T>>,
) -> Dealt<T> {
    match kind {
        ShareType::Arithmetic => dealer_rss5_arithmetic(role, threshold, dealer, len, inputs),
        ShareType::Boolean => dealer_rss5_boolean(role, threshold, dealer, len, inputs),
    }
}

/// Delivers the correction of a dealing.
fn deliver<T: IntRing2k + Wire>(
    dealer: Role,
    halves: Vec<(Vec<RssShare<T>>, Option<Vec<T>>)>,
) -> Vec<(Role, Vec<RssShare<T>>)> {
    let correction = halves[dealer.index()].1.clone().unwrap();
    let (pair, recipients) = select_correction_pair_and_recipients(dealer).unwrap();
    assert!(!pair.contains(dealer));
    halves
        .into_iter()
        .enumerate()
        .map(|(i, (mut shares, own))| {
            let role = Role::new(i);
            assert_eq!(own.is_some(), role == dealer);
            assert_eq!(awaits_dealer(role, dealer), recipients.contains(&role));
            if awaits_dealer(role, dealer) {
                let msg = pack_vec(&correction);
                receive_dealer_correction(role, dealer, &mut shares, &msg).unwrap();
            }
            (role, shares)
        })
        .collect()
}

/// Deals the values of one party to all five.
fn deal<T: IntRing2k + PrfDraw + Wire>(
    kind: ShareType,
    keys: &mut [ThresholdPrfKeys],
    dealer: Role,
    values: &[T],
) -> Vec<(Role, Vec<RssShare<T>>)> {
    let halves = keys
        .iter_mut()
        .enumerate()
        .map(|(i, threshold)| {
            let role = Role::new(i);
            let inputs = if role == dealer {
                Some(values.to_vec())
            } else {
                None
            };
            deal_half(kind, role, threshold, dealer, values.len(), inputs).unwrap()
        })
        .collect();
    deliver(dealer, halves)
}

/// Delivers the corrections of a round in which every party deals: the batches of every party.
fn deliver_all(
    halves: Vec<(Vec<Vec<RssShare<u64>>>, Vec<u64>)>,
) -> Vec<Vec<Vec<RssShare<u64>>>> {
    let corrections: Vec<Vec<u64>> = halves.iter().map(|(_, c)| c.clone()).collect();
    halves
        .into_iter()
        .enumerate()
        .map(|(i, (mut batches, _))| {
            for (dealer, batch) in five_party_roles().into_iter().zip(batches.iter_mut()) {
                if awaits_dealer(Role::new(i), dealer) {
                    let msg = pack_vec(&corrections[dealer.index()]);
                    receive_dealer_correction(Role::new(i), dealer, batch, &msg).unwrap();
                }
            }
            batches
        })
        .collect()
}

fn run_and_many(
    keys: &mut [ThresholdPrfKeys],
    lhs: &[Vec<RssShare<u64>>],
    rhs: &[Vec<RssShare<u64>>],
) -> Vec<Vec<RssShare<u64>>> {
    let halves = keys
        .iter_mut()
        .enumerate()
        .map(|(i, threshold)| {
            and_many(Role::new(i), threshold, &lhs[i], &rhs[i])
                .unwrap()
                .unwrap()
        })
        .collect();
    deliver_all(halves)
        .iter()
        .map(|batches| join_batches(batches, lhs[0].len()))
        .collect()
}

#[test]
fn matches_sequential_dealers_and_preserves_prf_state() {
    let mut rng = StdRng::seed_from_u64(54);
    let cases: Vec<Vec<Vec<u64>>> = [1_usize, 2, 63, 64, 65, 129]
        .into_iter()
        .map(|len| {
            (0..PARTIES)
                .map(|_| (0..len).map(|_| rng.gen()).collect())
                .collect()
        })
        .collect();
    let mut actual_prf = all_fixed_keys();
    let mut reference_prf = all_fixed_keys();
    for (case, values) in cases.iter().enumerate() {
        // Interleave 16-bit dealing without resetting the streams.
        let dealer = Role::new(case % PARTIES);
        let expected = deal(
            ShareType::Boolean,
            &mut reference_prf,
            dealer,
            &[0xa55a_u16; 3],
        );
        let actual = deal(
            ShareType::Boolean,
            &mut actual_prf,
            dealer,
            &[0xa55a_u16; 3],
        );
        assert_eq!(actual, expected);

        let expected: Vec<Vec<(Role, Vec<RssShare<u64>>)>> = five_party_roles()
            .into_iter()
            .map(|dealer| {
                deal(
                    ShareType::Boolean,
                    &mut reference_prf,
                    dealer,
                    &values[dealer.index()],
                )
            })
            .collect();
        let halves = actual_prf
            .iter_mut()
            .enumerate()
            .map(|(i, threshold)| {
                dealer_rss5_boolean_all(
                    Role::new(i),
                    &five_party_roles(),
                    threshold,
                    values[i].clone(),
                )
                .unwrap()
            })
            .collect();
        let actual = deliver_all(halves);
        for (i, batches) in actual.iter().enumerate() {
            for (d, batch) in batches.iter().enumerate() {
                assert_eq!(*batch, expected[d][i].1);
            }
        }
        for (actual, reference) in actual_prf.iter_mut().zip(reference_prf.iter_mut()) {
            assert_same_prf_state(actual, reference);
        }
        for dealer in five_party_roles() {
            let views: Vec<(Role, Vec<RssShare<u64>>)> = actual
                .iter()
                .enumerate()
                .map(|(i, batches)| (Role::new(i), batches[dealer.index()].clone()))
                .collect();
            assert_eq!(
                rss5_reconstruction(&views, ShareType::Boolean).unwrap(),
                values[dealer.index()],
            );
        }
    }
}

#[test]
fn invalid_inputs_do_not_consume_prfs_or_communicate() {
    for (len, owner, role, replace_role, expected) in [
        (0_usize, 0_usize, 0_usize, false, ProtocolError::EmptyInput),
        (1, 1, 0, false, ProtocolError::WrongKeySet),
        (1, 0, 0, true, ProtocolError::InvalidRoles),
        (1, 0, 5, false, ProtocolError::InvalidRoles),
    ] {
        let mut roles = five_party_roles().to_vec();
        if replace_role {
            roles[4] = Role::new(5);
        }
        let mut prf = fixed_keys(Role::new(owner));
        let mut untouched = fixed_keys(Role::new(owner));
        let error =
            dealer_rss5_boolean_all(Role::new(role), &roles, &mut prf, vec![0; len]).unwrap_err();
        assert_eq!(error, expected);
        assert_same_prf_state(&mut prf, &mut untouched);
    }
}

#[test]
fn correction_errors_are_propagated() {
    let role = Role::new(3); // Receives corrections under the existing routing.
    let dealers: Vec<Role> = five_party_roles()
        .into_iter()
        .filter(|dealer| awaits_dealer(role, *dealer))
        .collect();
    assert!(!dealers.is_empty());
    for (response, expected) in [
        (NetworkValue::PrfKey([0; 16]), ProtocolError::WrongValueType),
        (pack_vec::<u64>(&[]), ProtocolError::LengthMismatch),
    ] {
        let (mut batches, _) = dealer_rss5_boolean_all(
            role,
            &five_party_roles(),
            &mut fixed_keys(role),
            vec![42],
        )
        .unwrap();
        let batch = &mut batches[dealers[0].index()];
        let before = batch.clone();
        assert_eq!(
            receive_dealer_correction(role, dealers[0], batch, &response),
            Err(expected)
        );
        assert_eq!(*batch, before);
    }
}

#[test]
fn invalid_dealer_inputs_rejected_before_communication_or_prf_use() {
    let own_role = Role::new(0);
    let mut threshold = fixed_keys(own_role);
    let mut untouched = fixed_keys(own_role);

    for share_type in [ShareType::Arithmetic, ShareType::Boolean] {
        let cases = [
            (own_role, 0_usize, None, ProtocolError::EmptyInput),
            (own_role, 1, None, ProtocolError::MissingInput),
            (own_role, 1, Some(vec![]), ProtocolError::LengthMismatch),
            (
                own_role,
                1,
                Some(vec![7_u16; 2]),
                ProtocolError::LengthMismatch,
            ),
            (
                Role::new(1),
                1,
                Some(vec![7_u16]),
                ProtocolError::UnexpectedInput,
            ),
            (Role::new(1), 1, Some(vec![]), ProtocolError::UnexpectedInput),
        ];
        for (dealer, batch_len, inputs, expected) in cases {
            let result = deal_half(
                share_type,
                own_role,
                &mut threshold,
                dealer,
                batch_len,
                inputs,
            );
            assert_eq!(result.unwrap_err(), expected);
        }
    }

    // Rejected calls must leave all shared random streams untouched.
    for i in 0..PARTIES {
        for j in i + 1..PARTIES {
            if let Some(rng) = threshold.get_mut(Role::new(i), Role::new(j)) {
                let expected = untouched.get_mut(Role::new(i), Role::new(j)).unwrap();
                assert_eq!(u64::draw(rng), u64::draw(expected));
            }
        }
    }
}

fn check_reconstruction_batch_validation(
    shares: &[(Role, Vec<RssShare<u16>>)],
    share_type: ShareType,
) {
    let empty_batches: Vec<(Role, Vec<RssShare<u16>>)> =
        shares.iter().map(|(role, _)| (*role, vec![])).collect();
    for empty in [&[][..], empty_batches.as_slice()] {
        assert_eq!(
            rss5_reconstruction::<u16>(empty, share_type).unwrap_err(),
            ProtocolError::EmptyInput
        );
    }

    let mut mismatched = shares.to_vec();
    mismatched[1].1.pop();
    assert_eq!(
        rss5_reconstruction(&mismatched, share_type).unwrap_err(),
        ProtocolError::LengthMismatch
    );
}

/// Deals one value and a batch, with streams that go on between the two.
fn round_trip(
    kind: ShareType,
    dealer: Role,
    scalar: u16,
    batch: &[u16],
) -> Vec<Vec<(Role, Vec<RssShare<u16>>)>> {
    let mut keys = all_fixed_keys();
    for (i, threshold) in keys.iter_mut().enumerate() {
        assert_eq!(
            deal_half::<u16>(kind, Role::new(i), threshold, dealer, 0, None).unwrap_err(),
            ProtocolError::EmptyInput
        );
    }
    let single = deal(kind, &mut keys, dealer, &[scalar]);
    assert!(single.iter().all(|(_, shares)| shares.len() == 1));
    let many = deal(kind, &mut keys, dealer, batch);
    vec![single, many]
}

#[test]
fn arithmetic_single_element_and_batch_round_trip() {
    let expected_batch = vec![0, 1, u16::MAX, 12_345];
    let results = round_trip(ShareType::Arithmetic, Role::new(0), 42, &expected_batch);

    assert_eq!(
        rss5_reconstruction(&results[0], ShareType::Arithmetic).unwrap(),
        vec![42]
    );
    assert_eq!(
        rss5_reconstruction(&results[1], ShareType::Arithmetic).unwrap(),
        expected_batch
    );
    check_reconstruction_batch_validation(&results[1], ShareType::Arithmetic);
}

#[test]
fn boolean_single_element_and_batch_round_trip() {
    let expected_batch = vec![0, 0xffff, 0x1234, 0xaaaa];
    let results = round_trip(ShareType::Boolean, Role::new(3), 0xa55a, &expected_batch);

    assert_eq!(
        rss5_reconstruction(&results[0], ShareType::Boolean).unwrap(),
        vec![0xa55a]
    );
    assert_eq!(
        rss5_reconstruction(&results[1], ShareType::Boolean).unwrap(),
        expected_batch
    );
    check_reconstruction_batch_validation(&results[1], ShareType::Boolean);
}

#[test]
fn dealer_rss5_many_instances() {
    // Vary batch sizes for the same dealer, then rotate through the
    // remaining dealers. Alternate arithmetic and boolean throughout.
    let rounds: [(usize, ShareType, &[u16]); 7] = [
        (0, ShareType::Arithmetic, &[42]),
        (
            0,
            ShareType::Boolean,
            &[0, 1, 2, 3, 0x1234, 0xaaaa, u16::MAX],
        ),
        (0, ShareType::Arithmetic, &[u16::MAX, 7]),
        (1, ShareType::Boolean, &[0xa55a, 0, 1]),
        (2, ShareType::Arithmetic, &[12345]),
        (
            3,
            ShareType::Boolean,
            &[0, 1, 2, 3, 0x1234, 0xaaaa, u16::MAX],
        ),
        (4, ShareType::Arithmetic, &[0, u16::MAX]),
    ];
    // The same streams serve all rounds: fresh ones would hide that they diverge.
    let mut keys = all_fixed_keys();
    for (index, (dealer, share_type, values)) in rounds.into_iter().enumerate() {
        let shares = deal(share_type, &mut keys, Role::new(dealer), values);
        assert!(shares.iter().all(|(_, s)| s.len() == values.len()));
        // Reconstruction checks that all replicated pieces still agree:
        // this verifies that the streams are in step as well as the plain result.
        assert_eq!(
            rss5_reconstruction(&shares, share_type).unwrap(),
            values.to_vec(),
            "round {index}, dealer {dealer}"
        );
    }
}

#[test]
fn reconstruction_names_what_is_wrong() {
    let mut keys = all_fixed_keys();
    let shares = deal(ShareType::Arithmetic, &mut keys, Role::new(2), &[5_u16, 6]);

    let mut reordered = shares.clone();
    reordered.swap(0, 4);
    reordered.swap(1, 3);
    assert_eq!(
        rss5_reconstruction(&reordered, ShareType::Arithmetic),
        Ok(vec![5, 6])
    );

    assert_eq!(
        rss5_reconstruction(&shares[..4], ShareType::Arithmetic),
        Err(ProtocolError::InvalidRoles)
    );
    let mut repeated = shares.clone();
    repeated[1].0 = Role::new(0);
    assert_eq!(
        rss5_reconstruction(&repeated, ShareType::Arithmetic),
        Err(ProtocolError::InvalidRoles)
    );
    for slot in 0..6 {
        let mut wrong = shares.clone();
        wrong[3].1[1].slots[slot] = wrong[3].1[1].slots[slot].wrapping_add(1);
        assert_eq!(
            rss5_reconstruction(&wrong, ShareType::Arithmetic),
            Err(ProtocolError::InconsistentShares)
        );
    }
}

#[test]
fn slots_follow_the_pairs_that_a_party_is_not_in() {
    for party in 0..PARTIES {
        let expected: Vec<(usize, usize)> = PartyPair::excluding(Role::new(party))
            .into_iter()
            .map(|pair| (pair.parties().0.index(), pair.parties().1.index()))
            .collect();
        let slots: Vec<(usize, usize)> = (0..6).map(|slot| slot_pair(party, slot)).collect();
        assert_eq!(slots, expected);
    }
    assert_eq!(
        select_correction_pair_and_recipients(Role::new(5)).err(),
        Some(ProtocolError::InvalidRoles)
    );
    assert_eq!(ShareType::Arithmetic.unmask(3_u16, 5), 3_u16.wrapping_sub(5));
    assert_eq!(ShareType::Arithmetic.combine(u16::MAX, 5), 4);
    assert_eq!(ShareType::Boolean.unmask(3_u16, 5), 6);
    assert_eq!(ShareType::Boolean.combine(3_u16, 5), 6);
}

#[test]
fn test_correction_routes_are_distributed() {
    let roles = FiveToThreeRoles::canonical();
    let [r0, r1, r2] = roles.receivers;
    let [s0, s1] = roles.senders;

    assert_eq!(roles.sender_route(s0), Some(([r0, r2], r1)));
    assert_eq!(roles.sender_route(s1), Some(([r0, r1], r2)));
    assert_eq!(roles.sender_route(r0), None);
}

#[test]
fn test_invalid_role_assignment_rejected() {
    // Overlapping recipient/resharer role.
    let roles = FiveToThreeRoles {
        receivers: [Role::new(0), Role::new(1), Role::new(2)],
        senders: [Role::new(2), Role::new(3)],
    };
    assert!(roles.validate().is_err());

    // Too few distinct roles (only covers 4 of 5).
    let roles = FiveToThreeRoles {
        receivers: [Role::new(0), Role::new(0), Role::new(1)],
        senders: [Role::new(2), Role::new(3)],
    };
    assert!(roles.validate().is_err());

    assert!(FiveToThreeRoles::canonical().validate().is_ok());
}

fn create_additive_shares(rng: &mut StdRng, values: &[u16]) -> Vec<Vec<u16>> {
    let masks: Vec<[u16; 4]> = values.iter().map(|_| rng.gen()).collect();
    let shares = create_array_sharing_additive_5party(&masks, values);
    (0..PARTIES).map(|i| shares.of_party(i).clone()).collect()
}

/// Reshares additive shares of five parties to the three receivers; the others get nothing.
fn run_reshare(roles: &FiveToThreeRoles, per_party: &[Vec<u16>]) -> Vec<(Role, Vec<u16>)> {
    let halves: Vec<Reshared<u16>> = per_party
        .iter()
        .enumerate()
        .map(|(i, shares)| {
            let mut pairwise = fixed_pairwise_keys(Role::new(i));
            reshare_five_to_three_party_additive(&mut pairwise, roles, shares).unwrap()
        })
        .collect();
    let mut sent: Vec<Option<(Role, Vec<u16>)>> = vec![None; PARTIES];
    for (i, half) in halves.iter().enumerate() {
        if let Reshared::Send { to, values } = half {
            sent[i] = Some((*to, values.clone()));
        }
    }
    halves
        .into_iter()
        .enumerate()
        .map(|(i, half)| {
            let role = Role::new(i);
            let shares = match half {
                Reshared::Send { .. } => vec![],
                Reshared::Done { values } => values,
                Reshared::Await { from, partial } => {
                    let (to, values) = sent[from.index()].clone().unwrap();
                    assert_eq!(to, role);
                    receive_reshared(&partial, &pack_vec(&values)).unwrap()
                }
            };
            (role, shares)
        })
        .collect()
}

/// Reconstructs the values from the additive shares of the three receivers.
fn reconstruct_three_party_additive_shares(recipient_shares: &[(Role, Vec<u16>)]) -> Vec<u16> {
    let columns: Vec<&Vec<u16>> = recipient_shares
        .iter()
        .map(|(_, v)| v)
        .filter(|v| !v.is_empty())
        .collect();
    assert_eq!(columns.len(), 3);
    (0..columns[0].len())
        .map(|i| {
            let column: Vec<u16> = columns.iter().map(|v| v[i]).collect();
            reconstruct_additive_shares(&column)
        })
        .collect()
}

#[test]
fn test_reshare_five_to_three_additive_canonical() {
    let mut rng = StdRng::seed_from_u64(48);
    let values: Vec<u16> = vec![42, 1000, 65535, 11, 0, 12345];
    let per_party_shares = create_additive_shares(&mut rng, &values);
    let roles = FiveToThreeRoles::canonical();

    let results = run_reshare(&roles, &per_party_shares);

    for (role, shares) in &results {
        if roles.senders.contains(role) {
            assert!(
                shares.is_empty(),
                "sender {role:?} should hold no output share"
            );
        } else {
            assert_eq!(shares.len(), values.len());
        }
    }

    let reconstructed = reconstruct_three_party_additive_shares(&results);
    assert_eq!(reconstructed, values);

    // The shorthand does the same with the canonical roles.
    let mut pairwise = fixed_pairwise_keys(Role::new(0));
    match reshare_five_to_three_additive_canonical(&mut pairwise, &per_party_shares[0]).unwrap() {
        Reshared::Done { values } => assert_eq!(values, results[0].1),
        other => panic!("unexpected step {other:?}"),
    }
    assert_eq!(
        reshare_five_to_three_additive_canonical::<u16>(&mut pairwise, &[]).err(),
        Some(ProtocolError::EmptyInput)
    );
    assert_eq!(
        receive_reshared::<u16>(&[1, 2], &pack_vec(&[1_u16])),
        Err(ProtocolError::LengthMismatch)
    );
}

#[test]
fn test_reshare_five_to_three_additive_rotated_roles() {
    let mut rng = StdRng::seed_from_u64(49);
    let values: Vec<u16> = vec![7, 12345];
    let per_party_shares = create_additive_shares(&mut rng, &values);
    // Rotate: P2,P3,P4 as recipients, P0,P1 as resharers.
    let roles = FiveToThreeRoles {
        receivers: [Role::new(2), Role::new(3), Role::new(4)],
        senders: [Role::new(0), Role::new(1)],
    };

    let results = run_reshare(&roles, &per_party_shares);
    let reconstructed = reconstruct_three_party_additive_shares(&results);
    assert_eq!(reconstructed, values);
}

/// Deals the additive shares of the receivers, one batch for each receiver.
fn run_boolean_batches(
    keys: &mut [ThresholdPrfKeys],
    roles: &FiveToThreeRoles,
    additive: &[Vec<u16>],
    len: usize,
) -> Vec<Vec<(Role, Vec<RssShare<u16>>)>> {
    let mut halves: Vec<Vec<(Vec<RssShare<u16>>, Option<Vec<u16>>)>> = keys
        .iter_mut()
        .enumerate()
        .map(|(i, threshold)| {
            dealer_three_party_additive_as_boolean_rss5_batches(
                Role::new(i),
                threshold,
                roles,
                &additive[i],
                len,
            )
            .unwrap()
        })
        .collect();
    roles
        .receivers
        .into_iter()
        .map(|dealer| {
            let of_dealer = halves.iter_mut().map(|h| h.remove(0)).collect();
            deliver(dealer, of_dealer)
        })
        .collect()
}

#[test]
fn three_party_additive_reshare_as_boolean_rss5() {
    let mut rng = StdRng::seed_from_u64(50);
    // Five batch values are dealt by each of the three dealers.
    let values: Vec<u16> = vec![0, 1, 42, 0x1234, u16::MAX];
    let per_party_shares = create_additive_shares(&mut rng, &values);
    let roles = FiveToThreeRoles::canonical();
    let additive: Vec<Vec<u16>> = run_reshare(&roles, &per_party_shares)
        .into_iter()
        .map(|(_, shares)| shares)
        .collect();
    let mut keys = all_fixed_keys();
    let batches = run_boolean_batches(&mut keys, &roles, &additive, values.len());
    for (dealer, batch) in roles.receivers.into_iter().zip(&batches) {
        assert_eq!(
            rss5_reconstruction(batch, ShareType::Boolean).unwrap(),
            additive[dealer.index()]
        );
    }
}

#[test]
fn boolean_batches_reject_wrong_inputs() {
    let roles = FiveToThreeRoles::canonical();
    let mut keys = fixed_keys(Role::new(0));
    let mut call = |role: usize, roles: &FiveToThreeRoles, shares: &[u16], len: usize| {
        dealer_three_party_additive_as_boolean_rss5_batches(
            Role::new(role),
            &mut keys,
            roles,
            shares,
            len,
        )
        .err()
    };
    let overlapping = FiveToThreeRoles {
        receivers: [Role::new(0), Role::new(1), Role::new(2)],
        senders: [Role::new(2), Role::new(3)],
    };
    assert_eq!(
        call(0, &overlapping, &[1], 1),
        Some(ProtocolError::InvalidRoles)
    );
    assert_eq!(call(0, &roles, &[], 0), Some(ProtocolError::EmptyInput));
    assert_eq!(call(1, &roles, &[1], 1), Some(ProtocolError::WrongKeySet));
    assert_eq!(
        call(0, &roles, &[1, 2], 1),
        Some(ProtocolError::LengthMismatch)
    );
    assert_eq!(call(0, &roles, &[1], 1), None);
    let mut sender_keys = fixed_keys(Role::new(4));
    assert_eq!(
        dealer_three_party_additive_as_boolean_rss5_batches::<u16>(
            Role::new(4),
            &mut sender_keys,
            &roles,
            &[1],
            1
        )
        .err(),
        Some(ProtocolError::UnexpectedInput)
    );
}

#[test]
fn and_many_multiplies_bit_by_bit() {
    let mut rng = StdRng::seed_from_u64(51);
    let xs: Vec<u64> = (0..9).map(|_| rng.gen()).collect();
    let ys: Vec<u64> = (0..9).map(|_| rng.gen()).collect();
    let mut keys = all_fixed_keys();
    let x: Vec<Vec<RssShare<u64>>> = deal(ShareType::Boolean, &mut keys, Role::new(1), &xs)
        .into_iter()
        .map(|(_, s)| s)
        .collect();
    let y: Vec<Vec<RssShare<u64>>> = deal(ShareType::Boolean, &mut keys, Role::new(4), &ys)
        .into_iter()
        .map(|(_, s)| s)
        .collect();
    let z: Vec<(Role, Vec<RssShare<u64>>)> = run_and_many(&mut keys, &x, &y)
        .into_iter()
        .enumerate()
        .map(|(i, s)| (Role::new(i), s))
        .collect();
    let expected: Vec<u64> = xs.iter().zip(&ys).map(|(a, b)| a & b).collect();
    assert_eq!(rss5_reconstruction(&z, ShareType::Boolean), Ok(expected));

    let mut own = fixed_keys(Role::new(0));
    assert_eq!(
        and_many(Role::new(0), &mut own, &x[0], &y[0][1..]).err(),
        Some(ProtocolError::LengthMismatch)
    );
    assert_eq!(and_many(Role::new(0), &mut own, &[], &[]), Ok(None));
    assert_eq!(
        and_many(Role::new(1), &mut own, &x[0], &y[0]).err(),
        Some(ProtocolError::WrongKeySet)
    );
    assert_eq!(
        and_many(Role::new(6), &mut own, &x[0], &y[0]).err(),
        Some(ProtocolError::UnsupportedRole)
    );
}

/// The planes of a batch of shares of 16-bit values.
fn share_planes(shares: &[RssShare<u16>]) -> [Vec<RssShare<u64>>; 16] {
    let per_slot: Vec<Vec<Vec<u64>>> = (0..6)
        .map(|slot| {
            let values: Vec<u16> = shares.iter().map(|s| s.slots[slot]).collect();
            transpose_planes(&values)
        })
        .collect();
    std::array::from_fn(|plane| {
        (0..per_slot[0][plane].len())
            .map(|word| RssShare {
                slots: std::array::from_fn(|slot| per_slot[slot][plane][word]),
            })
            .collect()
    })
}

/// The values behind the planes of all parties.
fn reconstruct_planes(per_party: &[Vec<Vec<RssShare<u64>>>], len: usize) -> Vec<u16> {
    let mut out = vec![0_u16; len];
    for plane in 0..16 {
        let views: Vec<(Role, Vec<RssShare<u64>>)> = per_party
            .iter()
            .enumerate()
            .map(|(i, planes)| (Role::new(i), planes[plane].clone()))
            .collect();
        let words = rss5_reconstruction(&views, ShareType::Boolean).unwrap();
        for (i, out) in out.iter_mut().enumerate() {
            *out |= (((words[i / 64] >> (i % 64)) & 1) as u16) << plane;
        }
    }
    out
}

#[test]
fn test_rss5_full_adder_reduce() {
    const K: usize = 10000;
    let mut rng = StdRng::seed_from_u64(53);

    let empty: [Vec<RssShare<u64>>; 16] = std::array::from_fn(|_| Vec::new());
    let (lhs, rhs) = full_adder_operands(&empty, &empty, &empty).unwrap();
    assert!(lhs.is_empty() && rhs.is_empty());
    let (a, b) = full_adder_reduce(&empty, &empty, &empty, &[]).unwrap();
    // Both output summands must have empty vectors in every bit plane.
    assert!(a.iter().chain(&b).all(Vec::is_empty));

    // One packed share only in plane 15 of the third summand.
    let mut malformed: [Vec<RssShare<u64>>; 16] = std::array::from_fn(|_| Vec::new());
    malformed[15].push(RssShare { slots: [0; 6] });
    assert!(full_adder_operands(&empty, &empty, &malformed).is_err());

    let mut keys = all_fixed_keys();
    // A partial packed word, a full word, a word boundary, and a large batch.
    for (case, len) in [1, 64, 65, K].into_iter().enumerate() {
        let values: Vec<[u16; 3]> = (0..len).map(|_| rng.gen()).collect();
        // Rotate the dealers between batches and keep the streams.
        let roles = FiveToThreeRoles {
            receivers: std::array::from_fn(|i| Role::new((i + case) % 5)),
            senders: std::array::from_fn(|i| Role::new((i + 3 + case) % 5)),
        };
        let additive: Vec<Vec<u16>> = five_party_roles()
            .into_iter()
            .map(|role| {
                match roles.receivers.iter().position(|r| *r == role) {
                    Some(summand) => values.iter().map(|v| v[summand]).collect(),
                    None => vec![],
                }
            })
            .collect();
        let batches = run_boolean_batches(&mut keys, &roles, &additive, len);
        let planes: Vec<[[Vec<RssShare<u64>>; 16]; 3]> = (0..PARTIES)
            .map(|i| std::array::from_fn(|summand| share_planes(&batches[summand][i].1)))
            .collect();
        let mut lhs = Vec::new();
        let mut rhs = Vec::new();
        for [x, y, z] in &planes {
            let (l, r) = full_adder_operands(x, y, z).unwrap();
            lhs.push(l);
            rhs.push(r);
        }
        let products = run_and_many(&mut keys, &lhs, &rhs);
        let mut sums = Vec::new();
        let mut carries = Vec::new();
        for ([x, y, z], product) in planes.iter().zip(&products) {
            assert!(full_adder_reduce(x, y, z, &product[1..]).is_err());
            let (a, b) = full_adder_reduce(x, y, z, product).unwrap();
            sums.push(a);
            carries.push(b);
        }
        let a = reconstruct_planes(&sums, len);
        let b = reconstruct_planes(&carries, len);
        for (i, value) in values.iter().enumerate() {
            let expected = value[0].wrapping_add(value[1]).wrapping_add(value[2]);
            assert_eq!(a[i].wrapping_add(b[i]), expected);
            // The sum plane is the exclusive or, and no carry goes into the lowest bit.
            assert_eq!(a[i], value[0] ^ value[1] ^ value[2]);
            assert_eq!(b[i] & 1, 0);
        }
    }
}
