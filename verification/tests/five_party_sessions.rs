//! Five parties that hold replicated shares: sessions, sharing, multiplication, opening and
//! comparison, run step by step for all parties.

use ampc_core::dealer_5pc::ShareType;
use ampc_core::message::{pack_vec, NetworkValue, ProtocolError};
use ampc_core::rss5::{
    and_local, corr_receivers, corr_set, holders, open_provider, reconstruct_rss, set_contains,
    set_index, Share5, Topology, NUM_PARTIES, NUM_SETS, SETS,
};
use ampc_core::rss5_adder::{
    chunk_planes, share_adder_input, sub_pub, transpose_planes, AdderInput, MsbExtraction, PLANES,
};
use ampc_core::rss5_open::{lt_zero_and_open_u16, open_bit_plane, plane_to_bools};
use ampc_core::rss5_session::{
    receive_addends, redistribute, setup_rss5_messages, setup_rss5_session, Redistributed,
    Rss5Session,
};
use ampc_core::rss5_words::join_sharings;
use rand::rngs::StdRng;
use rand::{Rng, SeedableRng};

/// Delivers the seeds of all parties in the order of the setup steps.
fn make_sessions() -> Vec<Rss5Session> {
    let seeds: Vec<[u8; 16]> = (0..NUM_PARTIES).map(|i| [i as u8 + 1; 16]).collect();
    let mut outgoing: Vec<Vec<(usize, [u8; 16])>> = (0..NUM_PARTIES)
        .map(|p| setup_rss5_messages(p, &seeds[p]))
        .collect();
    let mut inboxes: Vec<Vec<NetworkValue>> = (0..NUM_PARTIES).map(|_| Vec::new()).collect();
    for step in 0..2 * NUM_SETS {
        let (sender, receivers): (usize, Vec<usize>) = if step < NUM_SETS {
            let h = holders(step);
            (h[0], h[1..].to_vec())
        } else {
            let (a, b) = SETS[step - NUM_SETS];
            (a, vec![b])
        };
        for receiver in receivers {
            let (to, seed) = outgoing[sender].remove(0);
            assert_eq!(to, receiver);
            inboxes[to].push(NetworkValue::PrfKey(seed));
        }
    }
    assert!(outgoing.iter().all(|m| m.is_empty()));
    (0..NUM_PARTIES)
        .map(|p| setup_rss5_session(NUM_PARTIES, p, &seeds[p], &inboxes[p]).unwrap())
        .collect()
}

/// Random additive sharing of the given values, one vector per party.
fn additive_sharing(rng: &mut StdRng, values: &[u16]) -> Vec<Vec<u16>> {
    let mut parts: Vec<Vec<u16>> = vec![Vec::new(); NUM_PARTIES];
    for &v in values {
        let r: [u16; 4] = rng.gen();
        let last = r.iter().fold(v, |acc, x| acc.wrapping_sub(*x));
        for (p, part) in parts.iter_mut().enumerate() {
            part.push(if p < 4 { r[p] } else { last });
        }
    }
    parts
}

/// Random sharing of words by exclusive or, one vector per party.
fn xor_sharing(rng: &mut StdRng, values: &[u64]) -> Vec<Vec<u64>> {
    let mut parts: Vec<Vec<u64>> = vec![Vec::new(); NUM_PARTIES];
    for &v in values {
        let r: [u64; 4] = rng.gen();
        let last = r.iter().fold(v, |acc, x| acc ^ x);
        for (p, part) in parts.iter_mut().enumerate() {
            part.push(if p < 4 { r[p] } else { last });
        }
    }
    parts
}

/// Redistributes additive shares: the addends of parties 0, 1 and 2.
fn run_redistribute(sessions: &mut [Rss5Session], parts: &[Vec<u16>]) -> Vec<AdderInput> {
    let halves: Vec<Redistributed<u16>> = sessions
        .iter_mut()
        .zip(parts)
        .map(|(sess, part)| redistribute(sess, part))
        .collect();
    let mut sent: Vec<Option<Vec<u16>>> = vec![None; NUM_PARTIES];
    for (p, half) in halves.iter().enumerate() {
        if let Redistributed::Send { values, .. } = half {
            sent[p] = Some(values.clone());
        }
    }
    halves
        .into_iter()
        .zip(parts)
        .map(|(half, part)| {
            let value = match half {
                Redistributed::Send { .. } => None,
                Redistributed::Done { values } => Some(values),
                Redistributed::Await { from, partial } => {
                    let msg = pack_vec(sent[from].as_ref().unwrap());
                    Some(receive_addends(ShareType::Arithmetic, &partial, &msg).unwrap())
                }
            };
            AdderInput {
                len: part.len(),
                value,
            }
        })
        .collect()
}

/// Delivers the corrections of a sharing.
fn deliver(
    sessions: &[Rss5Session],
    sharer: usize,
    dealt: Vec<(Vec<Share5<u64>>, Option<Vec<u64>>)>,
) -> Vec<Vec<Share5<u64>>> {
    let correction = dealt[sharer].1.clone().unwrap();
    assert_eq!(dealt.iter().filter(|(_, c)| c.is_some()).count(), 1);
    dealt
        .into_iter()
        .enumerate()
        .map(|(p, (mut shares, _))| {
            if sessions[p].awaits_correction(sharer) {
                let msg = pack_vec(&correction);
                sessions[p]
                    .receive_correction(sharer, &mut shares, &msg)
                    .unwrap();
            }
            shares
        })
        .collect()
}

/// Shares words that one party knows.
fn run_share_words(
    sessions: &mut [Rss5Session],
    sharer: usize,
    words: &[u64],
) -> Vec<Vec<Share5<u64>>> {
    let dealt: Vec<(Vec<Share5<u64>>, Option<Vec<u64>>)> = sessions
        .iter_mut()
        .enumerate()
        .map(|(p, sess)| {
            let own = if p == sharer {
                Some(words.to_vec())
            } else {
                None
            };
            sess.input_share_words(sharer, words.len(), own)
        })
        .collect();
    deliver(sessions, sharer, dealt)
}

/// Turns words that all parties share by exclusive or into replicated shares.
fn run_reshare(sessions: &mut [Rss5Session], parts: &[Vec<u64>]) -> Vec<Vec<Share5<u64>>> {
    let halves: Vec<Redistributed<u64>> = sessions
        .iter_mut()
        .zip(parts)
        .map(|(sess, part)| sess.redistribute_words(part))
        .collect();
    let mut sent: Vec<Option<Vec<u64>>> = vec![None; NUM_PARTIES];
    for (p, half) in halves.iter().enumerate() {
        if let Redistributed::Send { values, .. } = half {
            sent[p] = Some(values.clone());
        }
    }
    let addends: Vec<Option<Vec<u64>>> = halves
        .into_iter()
        .map(|half| match half {
            Redistributed::Send { .. } => None,
            Redistributed::Done { values } => Some(values),
            Redistributed::Await { from, partial } => {
                let msg = pack_vec(sent[from].as_ref().unwrap());
                Some(receive_addends(ShareType::Boolean, &partial, &msg).unwrap())
            }
        })
        .collect();
    let shared: Vec<Vec<Vec<Share5<u64>>>> = (0..3)
        .map(|sharer| run_share_words(sessions, sharer, addends[sharer].as_ref().unwrap()))
        .collect();
    (0..NUM_PARTIES)
        .map(|p| join_sharings(&shared[0][p], &shared[1][p], &shared[2][p]))
        .collect()
}

/// The bitwise and of two batches of shared words.
fn run_and_words(
    sessions: &mut [Rss5Session],
    x: &[Vec<Share5<u64>>],
    y: &[Vec<Share5<u64>>],
) -> Vec<Vec<Share5<u64>>> {
    let local: Vec<Vec<u64>> = (0..NUM_PARTIES)
        .map(|p| sessions[p].and_words_local(&x[p], &y[p]))
        .collect();
    run_reshare(sessions, &local)
}

/// The messages of an opening that a party receives, in the order of their senders.
fn open_messages(
    sessions: &[Rss5Session],
    planes: &[Vec<Share5<u64>>],
    receiver: usize,
) -> Vec<NetworkValue> {
    (0..NUM_PARTIES)
        .filter(|p| *p != receiver)
        .filter_map(|p| sessions[p].open_message(&planes[p], receiver))
        .map(|words| pack_vec(&words))
        .collect()
}

/// Reconstructs the values of bit planes.
fn reconstruct_value(per_party: &[Vec<Vec<Share5<u64>>>], n: usize) -> Vec<u16> {
    let mut out = vec![0u16; n];
    for k in 0..PLANES {
        let plane_shares: Vec<Vec<Share5<u64>>> = per_party.iter().map(|v| v[k].clone()).collect();
        let words = reconstruct_rss(&plane_shares);
        for (i, out) in out.iter_mut().enumerate() {
            let bit = (words[i / 64] >> (i % 64)) & 1;
            *out |= (bit as u16) << k;
        }
    }
    out
}

/// Shares the addends of one party bit by bit.
fn run_share_input(
    sessions: &mut [Rss5Session],
    inputs: &[AdderInput],
    sharer: usize,
) -> Vec<Vec<Vec<Share5<u64>>>> {
    let words = inputs[0].len.div_ceil(64);
    let dealt: Vec<(Vec<Share5<u64>>, Option<Vec<u64>>)> = sessions
        .iter_mut()
        .zip(inputs)
        .map(|(sess, input)| share_adder_input(sess, input, sharer))
        .collect();
    deliver(sessions, sharer, dealt)
        .iter()
        .map(|flat| chunk_planes(flat, PLANES, words))
        .collect()
}

#[test]
fn topology_covers_all_products() {
    // every ordered component pair is assigned to exactly one party
    let topos: Vec<Topology> = (0..NUM_PARTIES).map(Topology::new).collect();
    let total: usize = topos.iter().map(|t| t.and_pairs.len()).sum();
    assert_eq!(total, NUM_SETS * NUM_SETS);
    // every open provider holds the component it provides, and every
    // party receives all 4 components it misses
    for t in 0..NUM_SETS {
        assert!(!set_contains(t, open_provider(t)));
    }
    for p in 0..NUM_PARTIES {
        let received: usize = (0..NUM_SETS)
            .filter(|&t| set_contains(t, p) && open_provider(t) != p)
            .count();
        assert_eq!(received, NUM_PARTIES - 1);
    }
}

#[test]
fn redistribute_and_share_reconstructs() {
    const N: usize = 100;
    let mut rng = StdRng::seed_from_u64(1);
    let values: Vec<u16> = (0..N).map(|_| rng.gen()).collect();
    let parts = additive_sharing(&mut rng, &values);
    let mut sessions = make_sessions();
    // The three redistributed addends must sum to the original values,
    // and their shared bit-planes must reconstruct to the same addends.
    let inputs = run_redistribute(&mut sessions, &parts);
    let mut sum = vec![0u16; N];
    for (p, input) in inputs.iter().enumerate() {
        if p < 3 {
            for (s, &a) in sum.iter_mut().zip(input.value().unwrap().iter()) {
                *s = s.wrapping_add(a);
            }
        } else {
            assert!(input.value().is_none());
        }
    }
    assert_eq!(sum, values);
    // reconstruct each shared adder input and compare to the clear addend
    for j in 0..3 {
        let per_party = run_share_input(&mut sessions, &inputs, j);
        let reconstructed = reconstruct_value(&per_party, N);
        assert_eq!(reconstructed, inputs[j].value().unwrap());
    }
}

#[test]
fn and_words_correct() {
    const N: usize = 50;
    let mut rng = StdRng::seed_from_u64(2);
    let xs: Vec<u64> = (0..N).map(|_| rng.gen()).collect();
    let ys: Vec<u64> = (0..N).map(|_| rng.gen()).collect();
    // sharings of x and y as u64 words by exclusive or
    let px = xor_sharing(&mut rng, &xs);
    let py = xor_sharing(&mut rng, &ys);
    let mut sessions = make_sessions();
    let x = run_reshare(&mut sessions, &px);
    let y = run_reshare(&mut sessions, &py);
    assert_eq!(reconstruct_rss(&x), xs);
    let shares = run_and_words(&mut sessions, &x, &y);
    let expected: Vec<u64> = xs.iter().zip(ys.iter()).map(|(x, y)| x & y).collect();
    assert_eq!(reconstruct_rss(&shares), expected);
}

#[test]
fn open_matches_reconstruction() {
    const N: usize = 130; // not a multiple of 64 to exercise padding
    let mut rng = StdRng::seed_from_u64(3);
    let words = N.div_ceil(64);
    let xs: Vec<u64> = (0..words).map(|_| rng.gen()).collect();
    let parts = xor_sharing(&mut rng, &xs);
    let mut sessions = make_sessions();
    let planes = run_reshare(&mut sessions, &parts);
    let expected: Vec<bool> = (0..N).map(|i| (xs[i / 64] >> (i % 64)) & 1 == 1).collect();
    for p in 0..NUM_PARTIES {
        let received = open_messages(&sessions, &planes, p);
        let opened = open_bit_plane(&sessions[p], &planes[p], N, &received).unwrap();
        assert_eq!(opened, expected);
    }
    assert_eq!(plane_to_bools(&xs, N), expected);
}

#[test]
fn lt_threshold_pipeline() {
    const N: usize = 200;
    const THRESHOLD: u16 = 1000;
    let mut rng = StdRng::seed_from_u64(4);
    let mut values: Vec<u16> = (0..N - 5).map(|_| rng.gen::<i16>() as u16).collect();
    values.extend([999, 1000, 1001, 0x8000, 0x7fff]);
    let parts = additive_sharing(&mut rng, &values);
    let mut sessions = make_sessions();
    let mut inputs = run_redistribute(&mut sessions, &parts);
    for (sess, input) in sessions.iter().zip(inputs.iter_mut()) {
        sub_pub(sess, input, THRESHOLD);
    }
    let words = N.div_ceil(64);
    let shared: Vec<Vec<Vec<Vec<Share5<u64>>>>> = (0..3)
        .map(|j| run_share_input(&mut sessions, &inputs, j))
        .collect();
    let mut extractions: Vec<MsbExtraction<Share5<u64>>> = (0..NUM_PARTIES)
        .map(|p| {
            let values = (0..3).map(|j| shared[j][p].clone()).collect();
            MsbExtraction::start(values, words).unwrap()
        })
        .collect();
    while extractions[0].request().is_some() {
        let requests: Vec<_> = extractions.iter().map(|e| e.request().unwrap()).collect();
        let planes = requests[0].0.len();
        let lhs: Vec<Vec<Share5<u64>>> = requests.iter().map(|(l, _)| l.concat()).collect();
        let rhs: Vec<Vec<Share5<u64>>> = requests.iter().map(|(_, r)| r.concat()).collect();
        let products = run_and_words(&mut sessions, &lhs, &rhs);
        for (extraction, product) in extractions.iter_mut().zip(&products) {
            let product = chunk_planes(product, planes, words);
            // Products of another shape change nothing.
            assert_eq!(
                extraction.absorb(&product[1..]),
                Err(ProtocolError::LengthMismatch)
            );
            extraction.absorb(&product).unwrap();
        }
    }
    let msb: Vec<Vec<Share5<u64>>> = extractions.iter().map(|e| e.result()).collect();
    let expected: Vec<bool> = values
        .iter()
        .map(|&v| (v.wrapping_sub(THRESHOLD) as i16) < 0)
        .collect();
    for p in 0..NUM_PARTIES {
        let received = open_messages(&sessions, &msb, p);
        let opened = lt_zero_and_open_u16(&sessions[p], &msb[p], &inputs[p], &received).unwrap();
        assert_eq!(opened, expected);
    }
}

#[test]
fn components_of_local_products_cover_the_whole_product() {
    let mut rng = StdRng::seed_from_u64(5);
    let x: [u64; 10] = rng.gen();
    let y: [u64; 10] = rng.gen();
    let view = |p: usize, parts: &[u64; 10]| -> Share5<u64> {
        let topo = Topology::new(p);
        let mut share = Share5::zero();
        for (slot, t) in topo.held.iter().enumerate() {
            share.c[slot] = parts[*t];
            assert_eq!(topo.local_idx[*t], Some(slot));
        }
        share
    };
    let product = (0..NUM_PARTIES)
        .map(|p| and_local(&Topology::new(p), &view(p, &x), &view(p, &y)))
        .fold(0_u64, |acc, z| acc ^ z);
    let (vx, vy) = (
        x.iter().fold(0, |a, b| a ^ b),
        y.iter().fold(0, |a, b| a ^ b),
    );
    assert_eq!(product, vx & vy);
    // Shares combine component by component.
    let sum: Vec<Vec<Share5<u64>>> = (0..NUM_PARTIES)
        .map(|p| vec![view(p, &x).xor(view(p, &y))])
        .collect();
    assert_eq!(reconstruct_rss(&sum), vec![vx ^ vy]);
}

#[test]
fn components_are_numbered_by_the_pairs_that_lack_them() {
    assert_eq!(SETS[0], (0, 1));
    assert_eq!(SETS[9], (3, 4));
    for (t, (a, b)) in SETS.iter().enumerate() {
        assert_eq!(set_index(*a, *b), t);
        assert_eq!(set_index(*b, *a), t);
        let h = holders(t);
        assert_eq!(h.len(), 3);
        assert!(!h.contains(a) && !h.contains(b));
    }
    for i in 0..NUM_PARTIES {
        let [r0, r1] = corr_receivers(i);
        let t = corr_set(i);
        assert!(!set_contains(t, i) && !set_contains(t, r0) && !set_contains(t, r1));
        assert!(r0 != r1 && r0 != i && r1 != i);
    }
}

#[test]
fn sessions_need_five_parties_and_all_keys() {
    let seed = [9_u8; 16];
    assert_eq!(
        setup_rss5_session(3, 0, &seed, &[]).err(),
        Some(ProtocolError::InvalidRoles)
    );
    assert_eq!(
        setup_rss5_session(5, 1, &seed, &[]).err(),
        Some(ProtocolError::LengthMismatch)
    );
    // The first party draws every key that it needs with others itself but those of the
    // components whose first holder comes before it: there are none.
    assert!(setup_rss5_session(5, 0, &seed, &[]).is_ok());
    let mut received = Vec::new();
    loop {
        received.push(NetworkValue::RingElement16(1));
        let refused = setup_rss5_session(5, 4, &seed, &received).err();
        if refused == Some(ProtocolError::WrongValueType) {
            break;
        }
        assert_eq!(refused, Some(ProtocolError::LengthMismatch));
        assert!(received.len() < 40);
    }
}

#[test]
fn streams_of_a_session_stay_in_step() {
    let mut sessions = make_sessions();
    let drawn: Vec<u64> = sessions[1].draw_pair_mask(1, 3, 6);
    let again: Vec<u64> = sessions[3].draw_pair_mask(3, 1, 6);
    assert_eq!(drawn, again);
    let next: Vec<u64> = sessions[1].draw_pair_mask(1, 3, 6);
    assert_ne!(next, drawn);
    // Sharing works after the parties drew other things in the same order.
    for sharer in 0..NUM_PARTIES {
        let words = vec![sharer as u64, u64::MAX, 0, 77];
        let shares = run_share_words(&mut sessions, sharer, &words);
        assert_eq!(reconstruct_rss(&shares), words);
    }
}

#[test]
fn wrong_messages_are_refused_and_leave_the_shares() {
    let mut sessions = make_sessions();
    let sharer = 0;
    let receiver = corr_receivers(sharer)[0];
    let (mut shares, correction) = sessions[receiver].input_share_words(sharer, 2, None);
    assert_eq!(correction, None);
    let before = shares.clone();
    assert!(sessions[receiver].awaits_correction(sharer));
    assert_eq!(
        sessions[receiver].receive_correction(sharer, &mut shares, &pack_vec(&[1_u64])),
        Err(ProtocolError::LengthMismatch)
    );
    assert_eq!(shares, before);
    assert_eq!(
        sessions[receiver].receive_correction(sharer, &mut shares, &pack_vec(&[1_u16, 2])),
        Err(ProtocolError::WrongValueType)
    );
    assert_eq!(shares, before);

    assert_eq!(
        receive_addends::<u16>(ShareType::Arithmetic, &[1, 2], &pack_vec(&[3_u16])),
        Err(ProtocolError::LengthMismatch)
    );
    assert_eq!(
        receive_addends::<u16>(ShareType::Arithmetic, &[1, 2], &pack_vec(&[3_u16, u16::MAX])),
        Ok(vec![4, 1])
    );
    assert_eq!(
        open_bit_plane(&sessions[0], &before, 2, &[]),
        Err(ProtocolError::LengthMismatch)
    );
}

#[test]
fn bit_planes_hold_the_bits_of_the_values() {
    let values: Vec<u16> = (0..70).map(|i| i * 931 + 5).collect();
    let planes = transpose_planes(&values);
    assert_eq!(planes.len(), PLANES);
    for (i, v) in values.iter().enumerate() {
        for (k, plane) in planes.iter().enumerate() {
            assert_eq!(plane.len(), 2);
            assert_eq!((plane[i / 64] >> (i % 64)) & 1, ((v >> k) & 1) as u64);
        }
    }
    assert_eq!(
        MsbExtraction::<Share5<u64>>::start(vec![], 1).err(),
        Some(ProtocolError::TooFewInputs)
    );
}
