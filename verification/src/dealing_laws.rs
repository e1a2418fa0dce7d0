//! Several dealings among five parties, one after the other or at once, and what is computed with
//! them.

use crate::adders::{doubled, lnum, majority, majority_bits, xor3_bits};
use crate::dealer_5pc::{
    all_dealt, batch_dealt, deal_correction, dealer_component, dealer_rss5, dealt_to,
    keys_after, keys_after_dealers, keys_in_step, lemma_dealer_correction_received,
    lemma_dealing_correct, lemma_dealing_in_step, rss_value, shares5, RssShare, ShareType,
};
use crate::message::ProtocolError;
use crate::planes::xor_seq;
use crate::player::Role;
use crate::prf::{PrfDraw, PrfRng};
use crate::prf_keys::{PartyPair, ThresholdPrfKeys};
use crate::ring::IntRing2k;
use crate::ring_lemmas::{bit, group_bits, lemma_xor_zero, zero};
use crate::rss5::{
    and_sum, assigned, consistent5, held_sets, in_set, part, parts_of, slot_of,
};
use crate::rss5_binary::{
    lemma_carry_word, lemma_reduction_keeps_sum, lemma_rss_xor, operand, reduced_carry, reduced_sum,
    summands_fit, word_value,
};
use crate::rss5_ops::{
    dealing_of, joined5, keys_after_receivers, lemma_and_many5_correct, local_products,
    FiveToThreeRoles,
};
use crate::rss5_reconstruction::{
    entry, has_role, lemma_place_unique, length_error, place_of, reconstruction_error,
    roles_complete,
};
use crate::shares::XorShare;
use vstd::arithmetic::div_mod::*;
use vstd::prelude::*;

verus! {

/// What a party has of a batch once the correction of the dealer was delivered: the two recipients
/// have put it in its place, the others have what they had.
pub open spec fn completed<T: IntRing2k>(
    role: int,
    dealer: int,
    before: Seq<RssShare<T>>,
    corr: Seq<T>,
    after: Seq<RssShare<T>>,
) -> bool {
    if role != dealer && !in_set(dealer_component(dealer), role) {
        &&& after.len() == before.len()
        &&& forall|k: int|
            0 <= k < after.len() ==> (#[trigger] after[k]).slots@ == before[k].slots@.update(
                slot_of(role, dealer_component(dealer)),
                corr[k],
            )
    } else {
        after == before
    }
}

/// The corrections of a batch.
pub open spec fn corrections<T: IntRing2k + PrfDraw>(
    kind: ShareType,
    keys: Seq<(PartyPair, PrfRng)>,
    dealer: int,
    inputs: Seq<T>,
) -> Seq<T> {
    Seq::new(inputs.len(), |k: int| deal_correction(kind, keys, dealer, inputs, k))
}

/// The shares of a batch after the first half of a dealing. Only the dealer has the correction.
pub open spec fn first_half<T: IntRing2k + PrfDraw>(
    keys: Seq<(PartyPair, PrfRng)>,
    role: int,
    dealer: int,
    corr: Seq<T>,
    batch: Seq<RssShare<T>>,
) -> bool {
    &&& batch.len() == corr.len()
    &&& forall|k: int|
        0 <= k < batch.len() ==> dealt_to(
            keys,
            role,
            dealer,
            corr.len(),
            k,
            if role == dealer {
                corr[k]
            } else {
                zero::<T>()
            },
            #[trigger] batch[k],
        )
}

/// The shares of the parties of one entry.
pub open spec fn across<T>(batches: Seq<Seq<RssShare<T>>>, k: int) -> Seq<RssShare<T>> {
    Seq::new(5, |p: int| batches[p][k])
}

/// A batch opens to what the dealer put in: once the correction was delivered, the shares of every
/// entry fit together and combine to the value.
pub proof fn lemma_batch_opens<T: IntRing2k + PrfDraw>(
    kind: ShareType,
    keys: Seq<Seq<(PartyPair, PrfRng)>>,
    streams: Seq<PrfRng>,
    dealer: int,
    inputs: Seq<T>,
    first: Seq<Seq<RssShare<T>>>,
    done: Seq<Seq<RssShare<T>>>,
)
    requires
        keys_in_step(keys, streams),
        0 <= dealer < 5,
        first.len() == 5,
        done.len() == 5,
        forall|p: int|
            0 <= p < 5 ==> first_half(
                keys[p],
                p,
                dealer,
                corrections(kind, keys[dealer], dealer, inputs),
                #[trigger] first[p],
            ),
        forall|p: int|
            0 <= p < 5 ==> completed(
                p,
                dealer,
                first[p],
                corrections(kind, keys[dealer], dealer, inputs),
                #[trigger] done[p],
            ),
    ensures
        forall|p: int| 0 <= p < 5 ==> (#[trigger] done[p]).len() == inputs.len(),
        forall|k: int|
            0 <= k < inputs.len() ==> {
                &&& consistent5(shares5(#[trigger] across(done, k)))
                &&& rss_value(kind, across(done, k)) == inputs[k]
            },
{
    let corr = corrections(kind, keys[dealer], dealer, inputs);
    let n = inputs.len();
    assert forall|p: int| 0 <= p < 5 implies (#[trigger] done[p]).len() == n by {
        assert(first_half(keys[p], p, dealer, corr, first[p]));
    }
    assert forall|k: int| 0 <= k < n implies {
        &&& consistent5(shares5(#[trigger] across(done, k)))
        &&& rss_value(kind, across(done, k)) == inputs[k]
    } by {
        let shares = across(done, k);
        assert forall|p: int| 0 <= p < 5 implies dealt_to(
            keys[p],
            p,
            dealer,
            n,
            k,
            if in_set(dealer_component(dealer), p) {
                zero::<T>()
            } else {
                deal_correction(kind, keys[dealer], dealer, inputs, k)
            },
            #[trigger] shares[p],
        ) by {
            assert(first_half(keys[p], p, dealer, corr, first[p]));
            assert(completed(p, dealer, first[p], corr, done[p]));
            assert(dealt_to(
                keys[p],
                p,
                dealer,
                n,
                k,
                if p == dealer {
                    corr[k]
                } else {
                    zero::<T>()
                },
                first[p][k],
            ));
            if p != dealer && !in_set(dealer_component(dealer), p) {
                assert(done[p][k].slots@ == first[p][k].slots@.update(
                    slot_of(p, dealer_component(dealer)),
                    corr[k],
                ));
                lemma_dealer_correction_received(
                    keys[p],
                    p,
                    dealer,
                    n,
                    k,
                    first[p][k],
                    corr[k],
                    done[p][k],
                );
            }
        }
        lemma_dealing_correct(kind, keys, streams, dealer, inputs, k, shares);
    }
}

/// A slot of a party belongs to exactly one component that it holds.
proof fn lemma_slot_belongs(p: int, n: nat, i: int)
    requires
        n <= 10,
        0 <= i < held_sets(p, n).len(),
    ensures
        ({
            let t = held_sets(p, n)[i] as int;
            0 <= t < n && !in_set(t, p) && slot_of(p, t) == i
        }),
    decreases n,
{
    if n > 0 {
        if in_set(n - 1, p) || i < held_sets(p, (n - 1) as nat).len() {
            lemma_slot_belongs(p, (n - 1) as nat, i);
        }
    }
}

/// What is dealt to a party is determined.
proof fn lemma_dealt_unique<T: IntRing2k + PrfDraw>(
    keys: Seq<(PartyPair, PrfRng)>,
    role: int,
    dealer: int,
    n: nat,
    k: int,
    corr: T,
    a: RssShare<T>,
    b: RssShare<T>,
)
    requires
        0 <= role < 5,
        dealt_to(keys, role, dealer, n, k, corr, a),
        dealt_to(keys, role, dealer, n, k, corr, b),
    ensures
        a == b,
{
    crate::rss5::lemma_slots(role, 10);
    assert forall|i: int| 0 <= i < 6 implies a.slots@[i] == b.slots@[i] by {
        lemma_slot_belongs(role, 10, i);
        let t = held_sets(role, 10)[i] as int;
        assert(part(role, a.share5(), t) == part(role, b.share5(), t));
    }
    assert(a.slots =~= b.slots);
}

/// Dealing for all five parties at once is dealing for one after the other: the shares of every
/// dealer, the own correction and the streams afterwards are those of five dealings in turn.
/// `states[d]` holds the streams before dealing `d`.
pub proof fn lemma_all_as_in_turn(
    own_role: Role,
    inputs: Seq<u64>,
    states: Seq<ThresholdPrfKeys>,
    given: Seq<Option<Vec<u64>>>,
    results: Seq<Result<(Vec<RssShare<u64>>, Option<Vec<u64>>), ProtocolError>>,
    batches: Seq<Vec<RssShare<u64>>>,
    correction: Seq<u64>,
)
    requires
        own_role.index < 5,
        inputs.len() > 0,
        states.len() == 6,
        states[0].own_role == own_role,
        given.len() == 5,
        results.len() == 5,
        forall|d: int|
            0 <= d < 5 ==> ((#[trigger] given[d]) is Some) == (d == own_role.index as int),
        given[own_role.index as int]->0@ == inputs,
        forall|d: int|
            0 <= d < 5 ==> dealer_rss5(
                own_role,
                states[d],
                states[d + 1],
                Role { index: d as usize },
                inputs.len(),
                given[d],
                ShareType::Boolean,
                #[trigger] results[d],
            ),
        all_dealt(states[0].keys@, own_role.index as int, inputs, batches, correction),
    ensures
        forall|d: int|
            0 <= d < 5 ==> (#[trigger] results[d]) is Ok && batches[d]@ == (results[d]->Ok_0).0@,
        (results[own_role.index as int]->Ok_0).1 is Some,
        ((results[own_role.index as int]->Ok_0).1->0)@ == correction,
        states[5].keys@ == keys_after_dealers(
            states[0].keys@,
            own_role.index as int,
            inputs.len(),
            5,
        ),
{
    let own = own_role.index as int;
    let n = inputs.len();
    let keys = states[0].keys@;
    lemma_states_in_turn(own_role, inputs, states, given, results, 5);
    assert(results[own] is Ok && ((results[own]->Ok_0).1->0)@ =~= correction);
    assert forall|d: int| 0 <= d < 5 implies (#[trigger] results[d]) is Ok && batches[d]@ == (
    results[d]->Ok_0).0@ by {
        assert(given[d] is Some == (d == own));
        let mine = (results[d]->Ok_0).0@;
        let before = keys_after_dealers(keys, own, n, d as nat);
        assert(states[d].keys@ == before);
        assert(batch_dealt(before, own, d, n, correction, batches[d]@));
        assert forall|k: int| 0 <= k < n implies batches[d]@[k] == mine[k] by {
            let corr = if own == d {
                correction[k]
            } else {
                zero::<u64>()
            };
            assert(dealt_to(before, own, d, n, k, corr, batches[d]@[k]));
            assert(dealt_to(before, own, d, n, k, corr, mine[k]));
            lemma_dealt_unique(before, own, d, n, k, corr, batches[d]@[k], mine[k]);
        }
        assert(batches[d]@ =~= mine);
    }
}

proof fn lemma_states_in_turn(
    own_role: Role,
    inputs: Seq<u64>,
    states: Seq<ThresholdPrfKeys>,
    given: Seq<Option<Vec<u64>>>,
    results: Seq<Result<(Vec<RssShare<u64>>, Option<Vec<u64>>), ProtocolError>>,
    m: int,
)
    requires
        0 <= m <= 5,
        own_role.index < 5,
        inputs.len() > 0,
        states.len() == 6,
        states[0].own_role == own_role,
        given.len() == 5,
        results.len() == 5,
        forall|d: int|
            0 <= d < 5 ==> ((#[trigger] given[d]) is Some) == (d == own_role.index as int),
        given[own_role.index as int]->0@ == inputs,
        forall|d: int|
            0 <= d < 5 ==> dealer_rss5(
                own_role,
                states[d],
                states[d + 1],
                Role { index: d as usize },
                inputs.len(),
                given[d],
                ShareType::Boolean,
                #[trigger] results[d],
            ),
    ensures
        forall|d: int|
            0 <= d <= m ==> (#[trigger] states[d]).own_role == own_role && states[d].keys@
                == keys_after_dealers(
                states[0].keys@,
                own_role.index as int,
                inputs.len(),
                d as nat,
            ),
        forall|d: int| 0 <= d < m ==> (#[trigger] results[d]) is Ok,
    decreases m,
{
    if m > 0 {
        lemma_states_in_turn(own_role, inputs, states, given, results, m - 1);
        let d = m - 1;
        assert(given[d] is Some == (d == own_role.index as int));
        assert(states[d].own_role == own_role);
        assert(dealer_rss5(
            own_role,
            states[d],
            states[d + 1],
            Role { index: d as usize },
            inputs.len(),
            given[d],
            ShareType::Boolean,
            results[d],
        ));
    }
}

/// The batches of the parties.
pub open spec fn contents<T>(done: Seq<Vec<RssShare<T>>>) -> Seq<Seq<RssShare<T>>> {
    Seq::new(5, |p: int| done[p]@)
}

/// The views of a batch that the five parties open.
pub open spec fn views<T>(done: Seq<Vec<RssShare<T>>>) -> Seq<(Role, Vec<RssShare<T>>)> {
    Seq::new(5, |p: int| (Role { index: p as usize }, done[p]))
}

/// Views whose entries fit together are put together.
proof fn lemma_views_open<T: IntRing2k>(done: Seq<Vec<RssShare<T>>>, n: nat)
    requires
        done.len() == 5,
        n > 0,
        forall|p: int| 0 <= p < 5 ==> (#[trigger] done[p])@.len() == n,
        forall|k: int|
            0 <= k < n ==> consistent5(
                shares5(#[trigger] across(contents(done), k)),
            ),
    ensures
        reconstruction_error(views(done)) is None,
        views(done)[0].1@.len() == n,
        forall|k: int|
            0 <= k < n ==> #[trigger] entry(views(done), k) == across(contents(done), k),
{
    let v = views(done);
    assert forall|r: int| 0 <= r < 5 implies #[trigger] has_role(v, r) by {
        assert(v[r].0.index == r);
    }
    assert(roles_complete(v));
    assert forall|k: int| 0 <= k < n implies #[trigger] entry(v, k) == across(contents(done), k) by {
        assert forall|r: int| 0 <= r < 5 implies place_of(v, r) == r by {
            assert(v[r].0.index == r);
            lemma_place_unique(v, r, r);
        }
        assert(entry(v, k) =~= across(contents(done), k));
    }
    assert(done[0]@.len() == n && done[1]@.len() == n && done[2]@.len() == n && done[3]@.len() == n
        && done[4]@.len() == n);
    reveal_with_fuel(length_error, 6);
    assert(length_error(v, 5) is None);
}

/// The streams of the parties after the first `d` receivers dealt, and where they stand.
proof fn lemma_receivers_in_step<T: PrfDraw>(
    keys: Seq<Seq<(PartyPair, PrfRng)>>,
    streams: Seq<PrfRng>,
    roles: FiveToThreeRoles,
    n: nat,
    d: nat,
) -> (after: Seq<PrfRng>)
    requires
        keys_in_step(keys, streams),
    ensures
        keys_in_step(
            Seq::new(5, |p: int| keys_after_receivers::<T>(keys[p], p, roles, n, d)),
            after,
        ),
    decreases d,
{
    let now = Seq::new(5, |p: int| keys_after_receivers::<T>(keys[p], p, roles, n, d));
    if d == 0 {
        assert(now =~= keys);
        streams
    } else {
        let before = Seq::new(
            5,
            |p: int| keys_after_receivers::<T>(keys[p], p, roles, n, (d - 1) as nat),
        );
        let s = lemma_receivers_in_step::<T>(keys, streams, roles, n, (d - 1) as nat);
        let dealer = roles.receivers@[d - 1].index as int;
        lemma_dealing_in_step::<T>(before, s, dealer, n);
        assert(now =~= Seq::new(5, |p: int| keys_after::<T>(before[p], p, dealer, n)));
        Seq::new(
            10,
            |t: int|
                if crate::dealer_5pc::drawn_component(dealer, t) {
                    s[t].advanced(n * T::words())
                } else {
                    s[t]
                },
        )
    }
}

/// Batches that the three receivers deal in turn all open to what was dealt: putting the five views
/// of batch `i` together succeeds and gives the additive shares of receiver `i`, in order.
/// `inputs[p]` are the additive shares of party `p`, `dealt[p]` what it has after the first half,
/// and `done[i][p]` its batch of receiver `i` once the correction was delivered.
pub proof fn lemma_reshared_batches_open<T: IntRing2k + PrfDraw>(
    keys: Seq<Seq<(PartyPair, PrfRng)>>,
    streams: Seq<PrfRng>,
    roles: FiveToThreeRoles,
    inputs: Seq<Seq<T>>,
    n: nat,
    dealt: Seq<Seq<(Vec<RssShare<T>>, Option<Vec<T>>)>>,
    done: Seq<Seq<Vec<RssShare<T>>>>,
    i: int,
)
    requires
        keys_in_step(keys, streams),
        roles.valid(),
        n > 0,
        0 <= i < 3,
        inputs.len() == 5,
        dealt.len() == 5,
        done.len() == 3,
        done[i].len() == 5,
        inputs[roles.receivers@[i].index as int].len() == n,
        forall|p: int|
            0 <= p < 5 ==> dealing_of(
                Role { index: p as usize },
                keys_after_receivers::<T>(keys[p], p, roles, n, i as nat),
                roles.receivers@[i],
                inputs[p],
                n,
                (#[trigger] dealt[p])[i].0@,
                dealt[p][i].1,
            ),
        forall|p: int|
            0 <= p < 5 ==> completed(
                p,
                roles.receivers@[i].index as int,
                dealt[p][i].0@,
                (dealt[roles.receivers@[i].index as int][i].1->0)@,
                (#[trigger] done[i][p])@,
            ),
    ensures
        reconstruction_error(views(done[i])) is None,
        views(done[i])[0].1@.len() == n,
        Seq::new(n, |k: int| rss_value(ShareType::Boolean, entry(views(done[i]), k)))
            == inputs[roles.receivers@[i].index as int],
{
    let dealer = roles.receivers@[i].index as int;
    assert(roles.named()[i] == roles.receivers@[i]);
    let now = Seq::new(5, |p: int| keys_after_receivers::<T>(keys[p], p, roles, n, i as nat));
    let s = lemma_receivers_in_step::<T>(keys, streams, roles, n, i as nat);
    let own = inputs[dealer];
    let first = Seq::new(5, |p: int| dealt[p][i].0@);
    let last = contents(done[i]);
    let corr = corrections(ShareType::Boolean, now[dealer], dealer, own);
    assert(dealing_of(
        Role { index: dealer as usize },
        now[dealer],
        roles.receivers@[i],
        inputs[dealer],
        n,
        dealt[dealer][i].0@,
        dealt[dealer][i].1,
    ));
    assert((dealt[dealer][i].1->0)@ =~= corr);
    assert forall|p: int| 0 <= p < 5 implies first_half(
        now[p],
        p,
        dealer,
        corr,
        #[trigger] first[p],
    ) by {
        assert(dealing_of(
            Role { index: p as usize },
            now[p],
            roles.receivers@[i],
            inputs[p],
            n,
            dealt[p][i].0@,
            dealt[p][i].1,
        ));
        assert((Role { index: p as usize } == roles.receivers@[i]) == (p == dealer));
    }
    assert forall|p: int| 0 <= p < 5 implies completed(
        p,
        dealer,
        first[p],
        corr,
        #[trigger] last[p],
    ) by {
        assert(done[i][p]@ == last[p]);
    }
    lemma_batch_opens(ShareType::Boolean, now, s, dealer, own, first, last);
    assert forall|p: int| 0 <= p < 5 implies (#[trigger] done[i][p])@.len() == n by {
        assert(last[p].len() == n);
    }
    lemma_views_open(done[i], n);
    assert forall|k: int| 0 <= k < n implies rss_value(
        ShareType::Boolean,
        #[trigger] entry(views(done[i]), k),
    ) == own[k] by {
        assert(entry(views(done[i]), k) == across(last, k));
    }
    assert(Seq::new(n, |k: int| rss_value(ShareType::Boolean, entry(views(done[i]), k))) =~= own);
}

/// The streams of the parties after the first `d` parties dealt, and where they stand.
proof fn lemma_dealers_in_step(
    keys: Seq<Seq<(PartyPair, PrfRng)>>,
    streams: Seq<PrfRng>,
    n: nat,
    d: nat,
) -> (after: Seq<PrfRng>)
    requires
        keys_in_step(keys, streams),
    ensures
        keys_in_step(Seq::new(5, |p: int| keys_after_dealers(keys[p], p, n, d)), after),
    decreases d,
{
    let now = Seq::new(5, |p: int| keys_after_dealers(keys[p], p, n, d));
    if d == 0 {
        assert(now =~= keys);
        streams
    } else {
        let before = Seq::new(5, |p: int| keys_after_dealers(keys[p], p, n, (d - 1) as nat));
        let s = lemma_dealers_in_step(keys, streams, n, (d - 1) as nat);
        lemma_dealing_in_step::<u64>(before, s, d - 1, n);
        assert(now =~= Seq::new(5, |p: int| keys_after::<u64>(before[p], p, d - 1, n)));
        Seq::new(
            10,
            |t: int|
                if crate::dealer_5pc::drawn_component(d - 1, t) {
                    s[t].advanced(n * u64::words())
                } else {
                    s[t]
                },
        )
    }
}

/// The batches that five parties dealt at once, as the parties have them once all corrections were
/// delivered. `batches[p]` is what party `p` has after the first half, `corr[p]` its correction and
/// `done[p][d]` its batch of dealer `d` at the end.
pub open spec fn dealt_at_once(
    keys: Seq<Seq<(PartyPair, PrfRng)>>,
    inputs: Seq<Seq<u64>>,
    batches: Seq<Seq<Vec<RssShare<u64>>>>,
    corr: Seq<Seq<u64>>,
    done: Seq<Seq<Vec<RssShare<u64>>>>,
) -> bool {
    &&& inputs.len() == 5
    &&& batches.len() == 5
    &&& corr.len() == 5
    &&& done.len() == 5
    &&& forall|p: int|
        0 <= p < 5 ==> all_dealt(keys[p], p, inputs[p], #[trigger] batches[p], corr[p])
    &&& forall|p: int, d: int|
        0 <= p < 5 && 0 <= d < 5 ==> completed(
            p,
            d,
            batches[p][d]@,
            corr[d],
            (#[trigger] done[p][d])@,
        )
}

/// Batches that five parties deal at once all open to what was dealt.
pub proof fn lemma_batches_at_once_open(
    keys: Seq<Seq<(PartyPair, PrfRng)>>,
    streams: Seq<PrfRng>,
    inputs: Seq<Seq<u64>>,
    batches: Seq<Seq<Vec<RssShare<u64>>>>,
    corr: Seq<Seq<u64>>,
    done: Seq<Seq<Vec<RssShare<u64>>>>,
    n: nat,
    d: int,
    k: int,
)
    requires
        keys_in_step(keys, streams),
        dealt_at_once(keys, inputs, batches, corr, done),
        forall|p: int| 0 <= p < 5 ==> (#[trigger] inputs[p]).len() == n,
        0 <= d < 5,
        0 <= k < n,
    ensures
        ({
            let shares = Seq::new(5, |p: int| done[p][d]@[k]);
            &&& consistent5(shares5(shares))
            &&& rss_value(ShareType::Boolean, shares) == inputs[d][k]
        }),
{
    let now = Seq::new(5, |p: int| keys_after_dealers(keys[p], p, n, d as nat));
    let s = lemma_dealers_in_step(keys, streams, n, d as nat);
    let first = Seq::new(5, |p: int| batches[p][d]@);
    let last = Seq::new(5, |p: int| done[p][d]@);
    let own = inputs[d];
    assert(inputs[d].len() == n);
    let want = corrections(ShareType::Boolean, now[d], d, own);
    assert(all_dealt(keys[d], d, inputs[d], batches[d], corr[d]));
    assert(corr[d] =~= want);
    assert forall|p: int| 0 <= p < 5 implies first_half(
        now[p],
        p,
        d,
        want,
        #[trigger] first[p],
    ) by {
        assert(inputs[p].len() == n);
        assert(all_dealt(keys[p], p, inputs[p], batches[p], corr[p]));
        assert(batch_dealt(now[p], p, d, n, corr[p], batches[p][d]@));
    }
    assert forall|p: int| 0 <= p < 5 implies completed(
        p,
        d,
        first[p],
        want,
        #[trigger] last[p],
    ) by {
        assert(completed(p, d, batches[p][d]@, corr[d], done[p][d]@));
    }
    lemma_batch_opens(ShareType::Boolean, now, s, d, own, first, last);
    assert(across(last, k) =~= Seq::new(5, |p: int| done[p][d]@[k]));
}

/// The products that a party ends a bitwise and with.
pub open spec fn products_of(done: Seq<Vec<RssShare<u64>>>, n: nat) -> Seq<RssShare<u64>> {
    Seq::new(n, |k: int| joined5(Seq::new(5, |d: int| done[d]@[k])))
}

/// A round of bitwise ands is correct: the products of the five parties fit together and combine to
/// the bitwise and of what the operands combine to.
pub proof fn lemma_and_round_opens(
    keys: Seq<Seq<(PartyPair, PrfRng)>>,
    streams: Seq<PrfRng>,
    lhs: Seq<Seq<RssShare<u64>>>,
    rhs: Seq<Seq<RssShare<u64>>>,
    batches: Seq<Seq<Vec<RssShare<u64>>>>,
    corr: Seq<Seq<u64>>,
    done: Seq<Seq<Vec<RssShare<u64>>>>,
    n: nat,
    k: int,
)
    requires
        keys_in_step(keys, streams),
        lhs.len() == 5,
        rhs.len() == 5,
        forall|p: int|
            0 <= p < 5 ==> (#[trigger] lhs[p]).len() == n && rhs[p].len() == n,
        dealt_at_once(
            keys,
            Seq::new(5, |p: int| local_products(p, lhs[p], rhs[p])),
            batches,
            corr,
            done,
        ),
        0 <= k < n,
        consistent5(shares5(across(lhs, k))),
        consistent5(shares5(across(rhs, k))),
    ensures
        ({
            let products = across(Seq::new(5, |p: int| products_of(done[p], n)), k);
            &&& consistent5(shares5(products))
            &&& word_value(products) == word_value(across(lhs, k)).band(
                word_value(across(rhs, k)),
            )
        }),
{
    let inputs = Seq::new(5, |p: int| local_products(p, lhs[p], rhs[p]));
    let (x, y) = (across(lhs, k), across(rhs, k));
    let dealt = Seq::new(5, |d: int| Seq::new(5, |p: int| done[p][d]@[k]));
    assert forall|p: int| 0 <= p < 5 implies (#[trigger] inputs[p]).len() == n by {
        assert(lhs[p].len() == n);
    }
    assert forall|d: int| 0 <= d < 5 implies (#[trigger] dealt[d]).len() == 5 && consistent5(
        shares5(dealt[d]),
    ) && rss_value(ShareType::Boolean, dealt[d]) == and_sum(
        assigned(d, 100),
        x[d].share5(),
        y[d].share5(),
    ) by {
        lemma_batches_at_once_open(keys, streams, inputs, batches, corr, done, n, d, k);
        assert(lhs[d].len() == n);
        assert(inputs[d][k] == and_sum(
            assigned(d, 100),
            lhs[d][k].share5(),
            rhs[d][k].share5(),
        ));
    }
    lemma_and_many5_correct(x, y, dealt);
    let r = Seq::new(5, |p: int| joined5(Seq::new(5, |d: int| dealt[d][p])));
    let products = across(Seq::new(5, |p: int| products_of(done[p], n)), k);
    assert forall|p: int| 0 <= p < 5 implies r[p] == products[p] by {
        assert(Seq::new(5, |d: int| dealt[d][p]) =~= Seq::new(5, |d: int| done[p][d]@[k]));
    }
    assert(r =~= products);
}

/// The planes of the parties.
pub open spec fn all_planes(x: Seq<[Vec<RssShare<u64>>; 16]>) -> Seq<Seq<Vec<RssShare<u64>>>> {
    Seq::new(5, |p: int| x[p]@)
}

/// The shares of the parties of one word of a plane.
pub open spec fn word_of(v: Seq<Seq<Vec<RssShare<u64>>>>, b: int, w: int) -> Seq<RssShare<u64>> {
    Seq::new(5, |p: int| v[p][b]@[w])
}

/// The shares of all words of the sixteen planes fit together.
pub open spec fn planes_fit(v: Seq<Seq<Vec<RssShare<u64>>>>, words: nat) -> bool {
    forall|b: int, w: int|
        0 <= b < 16 && 0 <= w < words ==> consistent5(shares5(#[trigger] word_of(v, b, w)))
}

/// The bits of the number in a lane, least significant bit first: lane `i` of word `w`.
pub open spec fn opened_lane(v: Seq<Seq<Vec<RssShare<u64>>>>, w: int, i: nat) -> Seq<bool> {
    Seq::new(16, |b: int| bit(word_value(word_of(v, b, w)), i))
}

/// A full adder of five parties is correct, from its operands to its results: the shares of all 32
/// planes of results fit together; in every lane the first result opens to the bitwise sum of the
/// three numbers and the second one to twice their bitwise majority modulo `2^16`, so that both add
/// up to the sum of the three modulo `2^16`. Every share of the lowest plane of the second result is
/// zero.
pub proof fn lemma_full_adder_opens(
    keys: Seq<Seq<(PartyPair, PrfRng)>>,
    streams: Seq<PrfRng>,
    x: Seq<[Vec<RssShare<u64>>; 16]>,
    y: Seq<[Vec<RssShare<u64>>; 16]>,
    z: Seq<[Vec<RssShare<u64>>; 16]>,
    batches: Seq<Seq<Vec<RssShare<u64>>>>,
    corr: Seq<Seq<u64>>,
    done: Seq<Seq<Vec<RssShare<u64>>>>,
    a: Seq<Seq<Vec<RssShare<u64>>>>,
    c: Seq<Seq<Vec<RssShare<u64>>>>,
    words: nat,
    w: int,
    i: nat,
)
    requires
        keys_in_step(keys, streams),
        x.len() == 5,
        y.len() == 5,
        z.len() == 5,
        a.len() == 5,
        c.len() == 5,
        forall|p: int| 0 <= p < 5 ==> summands_fit(#[trigger] x[p], y[p], z[p], words),
        planes_fit(all_planes(x), words),
        planes_fit(all_planes(y), words),
        planes_fit(all_planes(z), words),
        dealt_at_once(
            keys,
            Seq::new(
                5,
                |p: int|
                    local_products(
                        p,
                        operand(x[p], y[p], words as int),
                        operand(z[p], x[p], words as int),
                    ),
            ),
            batches,
            corr,
            done,
        ),
        forall|p: int| 0 <= p < 5 ==> reduced_sum(x[p], y[p], z[p], #[trigger] a[p]),
        forall|p: int|
            0 <= p < 5 ==> reduced_carry(
                x[p],
                products_of(done[p], 15 * words),
                words as int,
                #[trigger] c[p],
            ),
        0 <= w < words,
        i < 64,
    ensures
        planes_fit(a, words),
        planes_fit(c, words),
        ({
            let (lx, ly, lz) = (
                opened_lane(all_planes(x), w, i),
                opened_lane(all_planes(y), w, i),
                opened_lane(all_planes(z), w, i),
            );
            let (la, lc) = (opened_lane(a, w, i), opened_lane(c, w, i));
            &&& la == xor3_bits(lx, ly, lz)
            &&& lc == doubled(majority_bits(lx, ly, lz))
            &&& (lnum(la, 16) + lnum(lc, 16)) % 0x1_0000 == (lnum(lx, 16) + lnum(ly, 16) + lnum(
                lz,
                16,
            )) % 0x1_0000
        }),
        forall|p: int|
            0 <= p < 5 ==> (#[trigger] c[p])[0]@ == Seq::new(
                words,
                |v: int| RssShare::<u64>::nil_of(),
            ),
{
    broadcast use group_bits;

    let (vx, vy, vz) = (all_planes(x), all_planes(y), all_planes(z));
    let (lx, ly, lz) = (opened_lane(vx, w, i), opened_lane(vy, w, i), opened_lane(vz, w, i));
    let (la, lc) = (opened_lane(a, w, i), opened_lane(c, w, i));
    assert forall|b: int, v: int| 0 <= b < 16 && 0 <= v < words implies consistent5(
        shares5(#[trigger] word_of(a, b, v)),
    ) by {
        lemma_sum_word(x, y, z, a, words, b, v, i);
    }
    assert forall|b: int, v: int| 0 <= b < 16 && 0 <= v < words implies consistent5(
        shares5(#[trigger] word_of(c, b, v)),
    ) by {
        lemma_carry_plane_word(keys, streams, x, y, z, batches, corr, done, c, words, b, v, i);
    }
    assert forall|b: int| 0 <= b < 16 implies la[b] == xor3_bits(lx, ly, lz)[b] by {
        lemma_sum_word(x, y, z, a, words, b, w, i);
    }
    assert(la =~= xor3_bits(lx, ly, lz));
    let m = majority_bits(lx, ly, lz);
    assert forall|b: int| 0 <= b < 16 implies lc[b] == doubled(m)[b] by {
        lemma_carry_plane_word(keys, streams, x, y, z, batches, corr, done, c, words, b, w, i);
    }
    assert(lc =~= doubled(m));
    lemma_reduction_keeps_sum(lx, ly, lz);
    assert forall|p: int| 0 <= p < 5 implies (#[trigger] c[p])[0]@ == Seq::new(
        words,
        |v: int| RssShare::<u64>::nil_of(),
    ) by {
        assert(reduced_carry(x[p], products_of(done[p], 15 * words), words as int, c[p]));
    }
}

/// A word of the bitwise sum.
proof fn lemma_sum_word(
    x: Seq<[Vec<RssShare<u64>>; 16]>,
    y: Seq<[Vec<RssShare<u64>>; 16]>,
    z: Seq<[Vec<RssShare<u64>>; 16]>,
    a: Seq<Seq<Vec<RssShare<u64>>>>,
    words: nat,
    b: int,
    w: int,
    i: nat,
)
    requires
        x.len() == 5,
        y.len() == 5,
        z.len() == 5,
        a.len() == 5,
        forall|p: int| 0 <= p < 5 ==> summands_fit(#[trigger] x[p], y[p], z[p], words),
        planes_fit(all_planes(x), words),
        planes_fit(all_planes(y), words),
        planes_fit(all_planes(z), words),
        forall|p: int| 0 <= p < 5 ==> reduced_sum(x[p], y[p], z[p], #[trigger] a[p]),
        0 <= b < 16,
        0 <= w < words,
        i < 64,
    ensures
        consistent5(shares5(word_of(a, b, w))),
        bit(word_value(word_of(a, b, w)), i) == ((bit(word_value(word_of(all_planes(x), b, w)), i)
            != bit(word_value(word_of(all_planes(y), b, w)), i)) != bit(
            word_value(word_of(all_planes(z), b, w)),
            i,
        )),
{
    broadcast use group_bits;

    let (sx, sy, sz) = (
        word_of(all_planes(x), b, w),
        word_of(all_planes(y), b, w),
        word_of(all_planes(z), b, w),
    );
    assert(consistent5(shares5(sx)) && consistent5(shares5(sy)) && consistent5(shares5(sz)));
    let sa = word_of(a, b, w);
    let xy = Seq::new(5, |p: int| sx[p].xor_of(sy[p]));
    lemma_rss_xor(sx, sy, xy);
    assert forall|p: int| 0 <= p < 5 implies #[trigger] sa[p] == xy[p].xor_of(sz[p]) by {
        assert(summands_fit(x[p], y[p], z[p], words));
        assert(x[p]@[b]@.len() == words && y[p]@[b]@.len() == words && z[p]@[b]@.len() == words);
        assert(reduced_sum(x[p], y[p], z[p], a[p]));
        assert(a[p][b]@ == xor_seq(xor_seq(x[p]@[b]@, y[p]@[b]@), z[p]@[b]@));
    }
    lemma_rss_xor(xy, sz, sa);
}

/// A word of the doubled carries.
proof fn lemma_carry_plane_word(
    keys: Seq<Seq<(PartyPair, PrfRng)>>,
    streams: Seq<PrfRng>,
    x: Seq<[Vec<RssShare<u64>>; 16]>,
    y: Seq<[Vec<RssShare<u64>>; 16]>,
    z: Seq<[Vec<RssShare<u64>>; 16]>,
    batches: Seq<Seq<Vec<RssShare<u64>>>>,
    corr: Seq<Seq<u64>>,
    done: Seq<Seq<Vec<RssShare<u64>>>>,
    c: Seq<Seq<Vec<RssShare<u64>>>>,
    words: nat,
    b: int,
    w: int,
    i: nat,
)
    requires
        keys_in_step(keys, streams),
        x.len() == 5,
        y.len() == 5,
        z.len() == 5,
        c.len() == 5,
        forall|p: int| 0 <= p < 5 ==> summands_fit(#[trigger] x[p], y[p], z[p], words),
        planes_fit(all_planes(x), words),
        planes_fit(all_planes(y), words),
        planes_fit(all_planes(z), words),
        dealt_at_once(
            keys,
            Seq::new(
                5,
                |p: int|
                    local_products(
                        p,
                        operand(x[p], y[p], words as int),
                        operand(z[p], x[p], words as int),
                    ),
            ),
            batches,
            corr,
            done,
        ),
        forall|p: int|
            0 <= p < 5 ==> reduced_carry(
                x[p],
                products_of(done[p], 15 * words),
                words as int,
                #[trigger] c[p],
            ),
        0 <= b < 16,
        0 <= w < words,
        i < 64,
    ensures
        consistent5(shares5(word_of(c, b, w))),
        bit(word_value(word_of(c, b, w)), i) == (b > 0 && majority(
            bit(word_value(word_of(all_planes(x), b - 1, w)), i),
            bit(word_value(word_of(all_planes(y), b - 1, w)), i),
            bit(word_value(word_of(all_planes(z), b - 1, w)), i),
        )),
{
    broadcast use group_bits;

    let sc = word_of(c, b, w);
    let n = 15 * words;
    if b == 0 {
        assert forall|p: int| 0 <= p < 5 implies #[trigger] sc[p] == RssShare::<u64>::nil_of() by {
            assert(reduced_carry(x[p], products_of(done[p], n), words as int, c[p]));
        }
        lemma_nil_word(sc, i);
    } else {
        let (sx, sy, sz) = (
            word_of(all_planes(x), b - 1, w),
            word_of(all_planes(y), b - 1, w),
            word_of(all_planes(z), b - 1, w),
        );
        assert(consistent5(shares5(sx)) && consistent5(shares5(sy)) && consistent5(shares5(sz)));
        let lhs = Seq::new(5, |p: int| operand(x[p], y[p], words as int));
        let rhs = Seq::new(5, |p: int| operand(z[p], x[p], words as int));
        let k = (b - 1) * words + w;
        assert(0 <= k < n) by (nonlinear_arith)
            requires
                k == (b - 1) * words + w,
                1 <= b < 16,
                0 <= w < words,
                n == 15 * words,
        ;
        lemma_fundamental_div_mod_converse(k, words as int, b - 1, w);
        let (xy, zx) = (
            Seq::new(5, |p: int| sx[p].xor_of(sy[p])),
            Seq::new(5, |p: int| sz[p].xor_of(sx[p])),
        );
        assert(across(lhs, k) =~= xy);
        assert(across(rhs, k) =~= zx);
        lemma_rss_xor(sx, sy, xy);
        lemma_rss_xor(sz, sx, zx);
        assert(Seq::new(5, |p: int| local_products(p, lhs[p], rhs[p])) =~= Seq::new(
            5,
            |p: int|
                local_products(
                    p,
                    operand(x[p], y[p], words as int),
                    operand(z[p], x[p], words as int),
                ),
        ));
        lemma_and_round_opens(keys, streams, lhs, rhs, batches, corr, done, n, k);
        let product = across(Seq::new(5, |p: int| products_of(done[p], n)), k);
        assert forall|p: int| 0 <= p < 5 implies #[trigger] sc[p] == sx[p].xor_of(
            product[p],
        ) by {
            assert(reduced_carry(x[p], products_of(done[p], n), words as int, c[p]));
            assert(c[p][b]@[w] == x[p]@[b - 1]@[w].xor_of(products_of(done[p], n)[k]));
        }
        lemma_carry_word(sx, sy, sz, product, sc, i);
    }
}

/// Shares whose components are all zero fit together and stand for zero.
proof fn lemma_nil_word(s: Seq<RssShare<u64>>, i: nat)
    requires
        s.len() == 5,
        i < 64,
        forall|p: int| 0 <= p < 5 ==> #[trigger] s[p] == RssShare::<u64>::nil_of(),
    ensures
        consistent5(shares5(s)),
        !bit(word_value(s), i),
{
    broadcast use group_bits;

    let five = shares5(s);
    let parts = parts_of(five);
    assert forall|p: int, t: int| 0 <= p < 5 && 0 <= t < 10 && !in_set(t, p) implies part(
        p,
        five[p],
        t,
    ) == 0 by {
        crate::rss5::lemma_slots(p, t as nat);
        assert(five[p].c == s[p].slots);
    }
    assert forall|t: int| 0 <= t < 10 implies #[trigger] parts[t] == 0 by {
        crate::rss5::lemma_three_holders(t);
    }
    lemma_xor_zero(0u64);
    assert forall|p: int| 0 <= p < 5 implies #[trigger] s[p] == s[p].xor_of(s[p]) by {
        assert(s[p].slots =~= s[p].xor_of(s[p]).slots);
    }
    // A word that is its own exclusive or with itself is zero.
    lemma_rss_xor(s, s, s);
}

} // verus!
