//! What the components, masks and refusals of the five-party protocols are.
//!
//! The laws speak of counts, sums and single drawn values: which components a party holds and at
//! which slot, which values mask a dealt or shared batch, and which messages are refused.

use crate::aes_stream::{aes_u32, aes_u64, drawn_masks, AesView};
use crate::counting::{lemma_count_step, lemma_counts};
use crate::dealer_5pc::{all_of, deal_mask, keys_after, RssShare, ShareType};
use crate::message::{expected_vec, NetworkValue};
use crate::player::Role;
use crate::prf::{PrfDraw, PrfRng};
use crate::prf_keys::PartyPair;
use crate::ring::IntRing2k;
use crate::ring_lemmas::{bit, group_bits, lemma_absorb};
use crate::rss5::{
    and_sum, assignee, consistent5, correction_set, held_sets, holders_of, in_set, index_of_set,
    lemma_three_holders, part, parts_of, provider_of, slot_of, xor_all, Share5,
};
use crate::rss5_open::{held, opened_words, provided, providers_before, provides_any};
use crate::rss5_reconstruction::length_error;
use crate::rss5_session::{
    received_before, sampled_before, sampled_seed, seed_messages, step_member, step_receivers,
    step_sampler, SessionView,
};
use crate::rss5_words::{correction, dealt_word, mask_at};
use vstd::prelude::*;

verus! {

/// A bit of the exclusive or of components is set exactly if it is set in an odd number of them.
pub proof fn lemma_xor_of_components<T: IntRing2k>(s: Seq<T>, n: nat, i: nat)
    requires
        n <= s.len(),
        i < T::bits(),
    ensures
        bit(xor_all(s, n), i) == (Set::new(|t: int| 0 <= t < n && bit(s[t], i)).len() % 2 == 1),
    decreases n,
{
    broadcast use group_bits;

    let f = |t: int| bit(s[t], i);
    lemma_count_step(f, n);
    assert(Set::new(|t: int| 0 <= t < n && f(t)) =~= Set::new(
        |t: int| 0 <= t < n && bit(s[t], i),
    ));
    if n > 0 {
        lemma_xor_of_components(s, (n - 1) as nat, i);
        assert(Set::new(|t: int| 0 <= t < n - 1 && f(t)) =~= Set::new(
            |t: int| 0 <= t < ((n - 1) as nat) && bit(s[t], i),
        ));
    }
}

/// Components of an arithmetic sharing add up in the ring.
pub proof fn lemma_sum_of_components<T: IntRing2k>(s: Seq<T>, n: nat)
    requires
        n <= s.len(),
    ensures
        all_of(ShareType::Arithmetic, s, n) == T::of_int(
            s.take(n as int).fold_left(0int, |m: int, x: T| m + x.val()),
        ),
    decreases n,
{
    if n > 0 {
        lemma_sum_of_components(s, (n - 1) as nat);
        let add_up = |m: int, x: T| m + x.val();
        assert(s.take(n as int).drop_last() =~= s.take(n - 1));
        lemma_absorb::<T>(s.take(n - 1).fold_left(0int, add_up), s[n - 1].val());
    }
}

/// One more product that a party computes is added to its part of a bitwise and; no product gives
/// zero.
pub proof fn lemma_and_of_one_more<T: IntRing2k>(
    pairs: Seq<(usize, usize)>,
    more: (usize, usize),
    x: Share5<T>,
    y: Share5<T>,
)
    ensures
        and_sum(Seq::empty(), x, y) == T::of_int(0),
        and_sum(pairs.push(more), x, y) == and_sum(pairs, x, y).bxor(
            x.c@[more.0 as int].band(y.c@[more.1 as int]),
        ),
{
    assert(pairs.push(more).drop_last() =~= pairs);
}

/// The party that computes a product is the first one that holds both factors.
pub proof fn lemma_first_with_both(s: int, r: int)
    requires
        0 <= s < 10,
        0 <= r < 10,
    ensures
        0 <= assignee(s, r) < 5,
        !in_set(s, assignee(s, r)) && !in_set(r, assignee(s, r)),
        forall|q: int| 0 <= q < assignee(s, r) ==> #[trigger] in_set(s, q) || in_set(r, q),
{
}

/// The party that provides a component is the first one that holds it.
pub proof fn lemma_first_holder(t: int)
    requires
        0 <= t < 10,
    ensures
        0 <= provider_of(t) < 5,
        !in_set(t, provider_of(t)),
        forall|q: int| 0 <= q < provider_of(t) ==> in_set(t, q),
{
    reveal_with_fuel(holders_of, 6);
}

/// The component that carries the correction of a party is that of the two parties after it.
pub proof fn lemma_correction_component(i: int)
    requires
        0 <= i < 5,
    ensures
        0 <= correction_set(i) < 10,
        in_set(correction_set(i), (i + 1) % 5),
        in_set(correction_set(i), (i + 2) % 5),
        !in_set(correction_set(i), i),
{
}

/// A party keeps the components that it holds in order: the slot of a component is the number of
/// components before it that the party holds.
pub proof fn lemma_slot_counts(p: int, t: nat)
    ensures
        slot_of(p, t as int) == Set::new(|u: int| 0 <= u < t && !in_set(u, p)).len(),
{
    let f = |u: int| !in_set(u, p);
    lemma_counts(f, |u: int| held_sets(p, u as nat).len() as int, t);
    assert(Set::new(|u: int| 0 <= u < t && f(u)) =~= Set::new(
        |u: int| 0 <= u < t && !in_set(u, p),
    ));
}

/// A party holds exactly the components of the pairs that it is not part of, in order.
pub proof fn lemma_held_components(p: int, n: nat)
    requires
        n <= 10,
    ensures
        forall|t: usize| #[trigger]
            held_sets(p, n).contains(t) == (t < n && !in_set(t as int, p)),
        forall|i: int, j: int|
            0 <= i < j < held_sets(p, n).len() ==> #[trigger] held_sets(p, n)[i]
                < #[trigger] held_sets(p, n)[j],
    decreases n,
{
    if n > 0 {
        lemma_held_components(p, (n - 1) as nat);
        let (before, after) = (held_sets(p, (n - 1) as nat), held_sets(p, n));
        assert forall|t: usize| #[trigger] after.contains(t) == (t < n && !in_set(
            t as int,
            p,
        )) by {
            if before.contains(t) {
                let i = choose|i: int| 0 <= i < before.len() && before[i] == t;
                assert(after[i] == t);
            }
            if t == n - 1 && !in_set(t as int, p) {
                assert(after[after.len() - 1] == t);
            }
            if after.contains(t) {
                let i = choose|i: int| 0 <= i < after.len() && after[i] == t;
                if i < before.len() {
                    assert(before[i] == t);
                    assert(before.contains(t));
                }
            }
        }
        assert forall|i: int, j: int| 0 <= i < j < after.len() implies #[trigger] after[i]
            < #[trigger] after[j] by {
            assert(after[i] == before[i]);
            if j < before.len() {
                assert(after[j] == before[j]);
            } else {
                assert(before.contains(before[i]));
            }
        }
    }
}

/// Shares of five parties fit together exactly if any two parties that hold a component have the
/// same value for it.
pub proof fn lemma_fit_together<T: IntRing2k>(shares: Seq<Share5<T>>)
    requires
        shares.len() == 5,
    ensures
        consistent5(shares) == (forall|p: int, q: int, t: int|
            0 <= p < 5 && 0 <= q < 5 && 0 <= t < 10 && !in_set(t, p) && !in_set(t, q)
                ==> #[trigger] part(p, shares[p], t) == #[trigger] part(q, shares[q], t)),
        forall|p: int, t: int| #[trigger]
            part(p, shares[p], t) == shares[p].c@[slot_of(p, t)],
{
    let agree = forall|p: int, q: int, t: int|
        0 <= p < 5 && 0 <= q < 5 && 0 <= t < 10 && !in_set(t, p) && !in_set(t, q)
            ==> #[trigger] part(p, shares[p], t) == #[trigger] part(q, shares[q], t);
    if consistent5(shares) {
        assert forall|p: int, q: int, t: int|
            0 <= p < 5 && 0 <= q < 5 && 0 <= t < 10 && !in_set(t, p) && !in_set(
                t,
                q,
            ) implies #[trigger] part(p, shares[p], t) == #[trigger] part(q, shares[q], t) by {
            assert(crate::rss5::holds_parts(p, shares[p], parts_of(shares)));
            assert(crate::rss5::holds_parts(q, shares[q], parts_of(shares)));
            assert(part(p, shares[p], t) == parts_of(shares)[t]);
            assert(part(q, shares[q], t) == parts_of(shares)[t]);
        }
    }
    if agree {
        assert forall|p: int| 0 <= p < 5 implies crate::rss5::holds_parts(
            p,
            #[trigger] shares[p],
            parts_of(shares),
        ) by {
            assert forall|t: int| 0 <= t < 10 && !in_set(t, p) implies part(p, shares[p], t)
                == #[trigger] parts_of(shares)[t] by {
                lemma_three_holders(t);
                let q = provider_of(t);
                assert(part(p, shares[p], t) == part(q, shares[q], t));
            }
        }
    }
}

/// The mask of a dealt component is the value that its stream gives at the place of the entry. The
/// components that the dealer does not hold, and the one that carries its correction, have none.
pub proof fn lemma_mask_of_dealing<T: IntRing2k + PrfDraw>(
    keys: Seq<(PartyPair, PrfRng)>,
    role: int,
    dealer: int,
    n: nat,
    t: int,
    k: int,
)
    requires
        0 <= dealer < 5,
        0 <= t < 10,
        0 <= k < n,
    ensures
        ({
            let carries = t == if dealer == 0 {
                4int
            } else if dealer == 1 {
                1int
            } else {
                0int
            };
            let mask = deal_mask::<T>(keys, role, dealer, n, t, k);
            &&& in_set(t, dealer) || carries ==> mask == T::of_int(0)
            &&& !in_set(t, dealer) && !carries ==> mask == T::drawn(
                keys[slot_of(role, t)].1.advanced(k * T::words()),
            )
        }),
{
}

/// Dealing a batch reads on the streams of the masked components and leaves the others alone.
pub proof fn lemma_keys_of_dealing<T: PrfDraw>(
    keys: Seq<(PartyPair, PrfRng)>,
    role: int,
    dealer: int,
    n: nat,
    i: int,
)
    requires
        0 <= dealer < 5,
        0 <= i < keys.len(),
    ensures
        ({
            let t = held_sets(role, 10)[i] as int;
            let carries = t == if dealer == 0 {
                4int
            } else if dealer == 1 {
                1int
            } else {
                0int
            };
            let after = keys_after::<T>(keys, role, dealer, n);
            &&& after.len() == keys.len()
            &&& after[i].0 == keys[i].0
            &&& in_set(t, dealer) || carries ==> after[i].1 == keys[i].1
            &&& !in_set(t, dealer) && !carries ==> after[i].1 == keys[i].1.advanced(
                n * T::words(),
            )
        }),
{
}

/// The mask of a shared word is the value that the stream of its component gives at the place of
/// the word. The correction is the word with all masks taken off, and stands in the component that
/// has no mask.
pub proof fn lemma_mask_of_sharing(
    streams: Seq<Option<AesView>>,
    sharer: int,
    values: Seq<u64>,
    t: int,
    k: int,
    corr: u64,
)
    requires
        0 <= sharer < 5,
        0 <= t < 10,
        0 <= k < values.len(),
    ensures
        ({
            let n = values.len();
            let carries = t == index_of_set((sharer + 1) % 5, (sharer + 2) % 5);
            let mask = mask_at(streams, sharer, n, t, k);
            &&& in_set(t, sharer) || carries ==> mask == 0
            &&& !in_set(t, sharer) && !carries ==> mask == aes_u64(
                streams[t]->0.seed,
                streams[t]->0.draws + Seq::new(k as nat, |j: int| true),
            )
            &&& carries ==> dealt_word(streams, sharer, n, t, k, corr) == corr
            &&& !carries ==> dealt_word(streams, sharer, n, t, k, corr) == mask
            &&& correction(streams, sharer, values, k) == values[k] ^ xor_all(
                Seq::new(10, |u: int| mask_at(streams, sharer, n, u, k)),
                10,
            )
        }),
{
    assert(Seq::new(10, |u: int| mask_at(streams, sharer, values.len(), u, k))
        =~= crate::rss5_words::masks_at(streams, sharer, values.len(), k));
}

/// Sharing a batch of words reads on the streams of the masked components that the party holds and
/// leaves everything else alone.
pub proof fn lemma_streams_of_sharing(view: SessionView, sharer: int, len: nat, t: int)
    requires
        0 <= sharer < 5,
        0 <= t < 10,
    ensures
        ({
            let after = view.shared_words(sharer, len);
            let reads = !in_set(t, view.party) && !in_set(t, sharer) && t != index_of_set(
                (sharer + 1) % 5,
                (sharer + 2) % 5,
            );
            &&& after.party == view.party && after.pairs == view.pairs
            &&& after.streams.len() == 10
            &&& !reads ==> after.streams[t] == view.streams[t]
            &&& reads ==> after.streams[t] == Some(
                (AesView {
                    seed: view.streams[t]->0.seed,
                    draws: view.streams[t]->0.draws + Seq::new(len, |j: int| true),
                }),
            )
        }),
{
}

/// The masks of a redistribution come from the streams that pairs of parties share: the first ones
/// of parties 0 and 4, of parties 1 and 3 and of party 2 from three different pairs, the second ones
/// of parties 2 and 4 from a fourth, and those of party 3 from the pair of parties 2 and 3.
pub proof fn lemma_masks_of_redistribution<T: crate::aes_stream::AesDraw>(
    view: SessionView,
    n: nat,
)
    requires
        0 <= view.party < 5,
    ensures
        view.party == 0 || view.party == 4 ==> view.masks_1::<T>(n) == drawn_masks::<T>(
            view.pairs[3]->0,
            n,
        ),
        view.party == 1 || view.party == 3 ==> view.masks_1::<T>(n) == drawn_masks::<T>(
            view.pairs[5]->0,
            n,
        ),
        view.party == 2 ==> view.masks_1::<T>(n) == drawn_masks::<T>(view.pairs[7]->0, n),
        view.party == 3 ==> view.masks_2::<T>(n) == drawn_masks::<T>(view.pairs[7]->0, n),
        view.party == 2 || view.party == 4 ==> view.masks_2::<T>(n) == drawn_masks::<T>(
            view.pairs[8]->0,
            n,
        ),
{
}

/// The seeds that a party samples are read off one stream, byte after byte: byte `j` of seed `k` is
/// the low byte of the value after the first `16 k + j`.
pub proof fn lemma_sampled_bytes(my_seed: Seq<u8>, k: nat, j: int)
    requires
        0 <= j < 16,
    ensures
        sampled_seed(my_seed, k).len() == 16,
        sampled_seed(my_seed, k)[j] == aes_u32(
            my_seed,
            Seq::new((16 * k + j) as nat, |i: int| false),
        ) % 0x100,
{
    let start = AesView { seed: my_seed, draws: Seq::<bool>::empty() };
    let at = start.after(false, 16 * k).after(false, j as nat);
    assert(at.draws =~= Seq::new((16 * k + j) as nat, |i: int| false));
}

/// In the first ten steps of the setup the first holder of a component draws a seed for its holders,
/// in the other ten the first party of a pair draws one for the pair.
pub proof fn lemma_setup_steps(s: int, q: int)
    requires
        0 <= s < 20,
        0 <= q < 5,
    ensures
        s < 10 ==> step_member(s, q) == !in_set(s, q),
        s >= 10 ==> step_member(s, q) == in_set(s - 10, q),
        0 <= step_sampler(s) < 5,
        step_member(s, step_sampler(s)),
        step_member(s, q) ==> step_sampler(s) <= q,
{
    if s < 10 {
        lemma_first_holder(s);
    }
}

/// How many seeds a party has drawn, and how many it has received, before a step of the setup.
pub proof fn lemma_seeds_counted(p: int, n: nat)
    ensures
        sampled_before(p, n) == Set::new(|s: int| 0 <= s < n && step_sampler(s) == p).len(),
        received_before(p, n) == Set::new(
            |s: int| 0 <= s < n && step_sampler(s) != p && step_member(s, p),
        ).len(),
{
    let f = |s: int| step_sampler(s) == p;
    let g = |s: int| step_sampler(s) != p && step_member(s, p);
    lemma_counts(f, |k: int| sampled_before(p, k as nat) as int, n);
    lemma_counts(g, |k: int| received_before(p, k as nat) as int, n);
    assert(Set::new(|s: int| 0 <= s < n && f(s)) =~= Set::new(
        |s: int| 0 <= s < n && step_sampler(s) == p,
    ));
    assert(Set::new(|s: int| 0 <= s < n && g(s)) =~= Set::new(
        |s: int| 0 <= s < n && step_sampler(s) != p && step_member(s, p),
    ));
}

/// The party that draws the seed of a step sends it to every other party of the step.
pub proof fn lemma_seed_is_sent(p: int, my_seed: Seq<u8>, n: nat, s: int, q: usize)
    requires
        0 <= s < n <= 20,
        q < 5,
        step_sampler(s) == p,
        q != p,
        step_member(s, q as int),
    ensures
        seed_messages(p, my_seed, n).contains(
            (q, sampled_seed(my_seed, sampled_before(p, s as nat))),
        ),
    decreases n,
{
    let k = (n - 1) as nat;
    let (before, after) = (seed_messages(p, my_seed, k), seed_messages(p, my_seed, n));
    let message = (q, sampled_seed(my_seed, sampled_before(p, s as nat)));
    if s == n - 1 {
        if s < 10 {
            reveal_with_fuel(holders_of, 6);
        }
        let to = step_receivers(s);
        assert(to[0] == q || (to.len() == 2 && to[1] == q));
        let i = if to[0] == q {
            0int
        } else {
            1int
        };
        assert(after[before.len() + i] == message);
    } else {
        lemma_seed_is_sent(p, my_seed, k, s, q);
        let i = choose|i: int| 0 <= i < before.len() && before[i] == message;
        assert(after[i] == message);
    }
}

/// A party sends nothing but the seeds of the steps in which it draws one, to other parties of those
/// steps.
pub proof fn lemma_sent_is_seed(p: int, my_seed: Seq<u8>, n: nat, i: int) -> (s: int)
    requires
        n <= 20,
        0 <= i < seed_messages(p, my_seed, n).len(),
    ensures
        0 <= s < n,
        step_sampler(s) == p,
        ({
            let (q, seed) = seed_messages(p, my_seed, n)[i];
            q < 5 && q != p && step_member(s, q as int) && seed == sampled_seed(
                my_seed,
                sampled_before(p, s as nat),
            )
        }),
    decreases n,
{
    let k = (n - 1) as nat;
    let before = seed_messages(p, my_seed, k);
    if i < before.len() {
        lemma_sent_is_seed(p, my_seed, k, i)
    } else {
        if n - 1 < 10 {
            reveal_with_fuel(holders_of, 6);
        }
        n - 1
    }
}

/// What a party holds of a word, and what it provides to another, is the exclusive or of components:
/// all that it holds, and those that it is the first to hold and the other does not hold.
pub proof fn lemma_held_and_provided(p: int, q: int, share: Share5<u64>, n: nat, i: nat)
    requires
        i < 64,
    ensures
        bit(held(p, share, n), i) == (Set::new(
            |t: int| 0 <= t < n && !in_set(t, p) && bit(share.c@[slot_of(p, t)], i),
        ).len() % 2 == 1),
        bit(provided(p, q, share, n), i) == (Set::new(
            |t: int|
                0 <= t < n && in_set(t, q) && provider_of(t) == p && bit(
                    share.c@[slot_of(p, t)],
                    i,
                ),
        ).len() % 2 == 1),
    decreases n,
{
    broadcast use group_bits;

    let f = |t: int| !in_set(t, p) && bit(share.c@[slot_of(p, t)], i);
    let g = |t: int| in_set(t, q) && provider_of(t) == p && bit(share.c@[slot_of(p, t)], i);
    lemma_count_step(f, n);
    lemma_count_step(g, n);
    assert(Set::new(|t: int| 0 <= t < n && f(t)) =~= Set::new(
        |t: int| 0 <= t < n && !in_set(t, p) && bit(share.c@[slot_of(p, t)], i),
    ));
    assert(Set::new(|t: int| 0 <= t < n && g(t)) =~= Set::new(
        |t: int|
            0 <= t < n && in_set(t, q) && provider_of(t) == p && bit(share.c@[slot_of(p, t)], i),
    ));
    if n > 0 {
        let m = (n - 1) as nat;
        lemma_held_and_provided(p, q, share, m, i);
        assert(Set::new(|t: int| 0 <= t < n - 1 && f(t)) =~= Set::new(
            |t: int| 0 <= t < m && !in_set(t, p) && bit(share.c@[slot_of(p, t)], i),
        ));
        assert(Set::new(|t: int| 0 <= t < n - 1 && g(t)) =~= Set::new(
            |t: int|
                0 <= t < m && in_set(t, q) && provider_of(t) == p && bit(
                    share.c@[slot_of(p, t)],
                    i,
                ),
        ));
    }
}

/// Words are opened exactly if every party that provides something sent as many elements as there
/// are words.
pub proof fn lemma_opened_or_refused(p: int, own: Seq<u64>, msgs: Seq<NetworkValue>, n: nat)
    ensures
        (opened_words(p, own, msgs, n) is Ok) == (forall|q: int|
            0 <= q < n && #[trigger] provides_any(q, p, 10) ==> expected_vec::<u64>(
                msgs[providers_before(p, q as nat) as int],
                own.len(),
            ) is Ok),
        opened_words(p, own, msgs, n) is Ok ==> opened_words(p, own, msgs, n)->Ok_0.len()
            == own.len(),
    decreases n,
{
    if n > 0 {
        let k = (n - 1) as nat;
        lemma_opened_or_refused(p, own, msgs, k);
        let last = provides_any(n - 1, p, 10);
        if opened_words(p, own, msgs, n) is Ok {
            assert forall|q: int| 0 <= q < n && #[trigger] provides_any(q, p, 10) implies
                expected_vec::<u64>(msgs[providers_before(p, q as nat) as int], own.len()) is Ok by {
                if q == n - 1 {
                    assert(last);
                }
            }
        } else if last {
            if opened_words(p, own, msgs, k) is Ok {
                assert(!(expected_vec::<u64>(
                    msgs[providers_before(p, (n - 1) as nat) as int],
                    own.len(),
                ) is Ok));
                assert(provides_any(n - 1, p, 10));
            }
        }
    }
}

/// The lengths of the first `n` batches are in order exactly if none of them is empty and all are as
/// long as the first.
pub proof fn lemma_lengths_in_order<T>(shares: Seq<(Role, Vec<RssShare<T>>)>, n: nat)
    ensures
        (length_error(shares, n) is None) == (forall|i: int|
            0 <= i < n ==> (#[trigger] shares[i]).1@.len() > 0 && shares[i].1@.len()
                == shares[0].1@.len()),
    decreases n,
{
    if n > 0 {
        lemma_lengths_in_order(shares, (n - 1) as nat);
        if length_error(shares, n) is None {
            assert forall|i: int| 0 <= i < n implies (#[trigger] shares[i]).1@.len() > 0
                && shares[i].1@.len() == shares[0].1@.len() by {
                if i == n - 1 {
                    assert(length_error(shares, (n - 1) as nat) is None);
                }
            }
        } else if length_error(shares, (n - 1) as nat) is None {
            assert(shares[n - 1].1@.len() == 0 || shares[n - 1].1@.len() != shares[0].1@.len());
        }
    }
}

} // verus!
