//! A session of five parties: the streams that they share, and the steps that move values between
//! them.

use crate::aes_stream::{
    draw_masks, draw_seed, drawn_masks, drawn_seed, lemma_after, AesDraw, AesStream, AesView,
};
use crate::dealer_5pc::ShareType;
use crate::message::{expected_vec, recv_elems, NetworkValue, ProtocolError, Wire};
use crate::msb_dealer_helpers::PrfSeed;
use crate::ring::IntRing2k;
use crate::ring_lemmas::{bit, group_bits, lemma_absorb, lemma_bits_ext};
use crate::rss5::{
    holders, holders_of, in_set, index_of_set, lemma_three_holders, open_provider, provider_of,
    set_contains, set_index, Topology, SETS,
};
use vstd::prelude::*;

verus! {

/// The positions of streams.
pub open spec fn positions(streams: Seq<Option<AesStream>>) -> Seq<Option<AesView>> {
    streams.map_values(
        |s: Option<AesStream>|
            match s {
                Some(stream) => Some(stream@),
                None => None,
            },
    )
}

/// All streams are what their positions say.
pub open spec fn all_wf(streams: Seq<Option<AesStream>>) -> bool {
    forall|t: int| 0 <= t < streams.len() && streams[t] is Some ==> (#[trigger] streams[t])->0.wf()
}

/// Draws values from stream `t`.
pub fn draw_at<T: AesDraw>(streams: &mut Vec<Option<AesStream>>, t: usize, n: usize) -> (r: Vec<T>)
    requires
        t < old(streams)@.len(),
        old(streams)@[t as int] is Some,
        all_wf(old(streams)@),
    ensures
        all_wf(final(streams)@),
        r@ == drawn_masks::<T>(positions(old(streams)@)[t as int]->0, n as nat),
        positions(final(streams)@) == positions(old(streams)@).update(
            t as int,
            Some(positions(old(streams)@)[t as int]->0.after(T::wide(), n as nat)),
        ),
{
    match &mut streams[t] {
        Some(stream) => draw_masks(stream, n),
        None => Vec::new(),
    }
}

/// The party that draws the seed of setup step `n`. The first ten steps set up the streams of the
/// components, the other ten those of the pairs.
pub open spec fn step_sampler(n: int) -> int {
    if n < 10 {
        provider_of(n)
    } else {
        SETS@[n - 10].0 as int
    }
}

/// Whether a party holds the stream of setup step `n`: it is outside the pair of the component,
/// or part of the pair.
pub open spec fn step_member(n: int, p: int) -> bool {
    if n < 10 {
        p < 5 && !in_set(n, p)
    } else {
        in_set(n - 10, p)
    }
}

/// How many of the first `n` setup steps a party draws the seed of.
pub open spec fn sampled_before(p: int, n: nat) -> nat
    decreases n,
{
    if n == 0 {
        0
    } else if step_sampler(n - 1) == p {
        sampled_before(p, (n - 1) as nat) + 1
    } else {
        sampled_before(p, (n - 1) as nat)
    }
}

/// How many of the first `n` setup steps a party receives the seed of.
pub open spec fn received_before(p: int, n: nat) -> nat
    decreases n,
{
    if n == 0 {
        0
    } else if step_sampler(n - 1) != p && step_member(n - 1, p) {
        received_before(p, (n - 1) as nat) + 1
    } else {
        received_before(p, (n - 1) as nat)
    }
}

/// Seed number `k` that a party draws from its own seed.
pub open spec fn sampled_seed(my_seed: Seq<u8>, k: nat) -> Seq<u8> {
    drawn_seed(AesView { seed: my_seed, draws: Seq::empty() }.after(false, 16 * k))
}

/// The seed that a party has after setup step `n`, if it holds the stream.
pub open spec fn step_seed(p: int, my_seed: Seq<u8>, received: Seq<NetworkValue>, n: nat) -> Option<
    Seq<u8>,
> {
    if step_sampler(n as int) == p {
        Some(sampled_seed(my_seed, sampled_before(p, n)))
    } else if step_member(n as int, p) {
        match received[received_before(p, n) as int] {
            NetworkValue::PrfKey(seed) => Some(seed@),
            _ => None,
        }
    } else {
        None
    }
}

/// The stream at the start of a seed.
pub open spec fn fresh_stream(seed: Option<Seq<u8>>) -> Option<AesView> {
    match seed {
        Some(s) => Some(AesView { seed: s, draws: Seq::empty() }),
        None => None,
    }
}

/// The parties that receive the seed of setup step `n`.
pub open spec fn step_receivers(n: int) -> Seq<usize> {
    if n < 10 {
        seq![holders_of(n, 5)[1], holders_of(n, 5)[2]]
    } else {
        seq![SETS@[n - 10].1]
    }
}

/// The seeds that a party sends in the first `n` setup steps, with their receivers.
pub open spec fn seed_messages(p: int, my_seed: Seq<u8>, n: nat) -> Seq<(usize, Seq<u8>)>
    decreases n,
{
    if n == 0 {
        Seq::empty()
    } else {
        let rest = seed_messages(p, my_seed, (n - 1) as nat);
        if step_sampler(n - 1) == p {
            rest + step_receivers(n - 1).map_values(
                |to: usize| (to, sampled_seed(my_seed, sampled_before(p, (n - 1) as nat))),
            )
        } else {
            rest
        }
    }
}

/// The party that draws the seed of a setup step.
fn sampler_of_step(n: usize) -> (r: usize)
    requires
        n < 20,
    ensures
        r == step_sampler(n as int),
{
    if n < 10 {
        open_provider(n)
    } else {
        SETS[n - 10].0
    }
}

/// Whether a party holds the stream of a setup step.
fn member_of_step(n: usize, p: usize) -> (r: bool)
    requires
        n < 20,
    ensures
        r == step_member(n as int, p as int),
{
    if n < 10 {
        p < 5 && !set_contains(n, p)
    } else {
        set_contains(n - 10, p)
    }
}

/// The seeds that a party sends when a session is set up, in order, with their receivers: for
/// each component the first holder draws a seed for the other two, and for each pair the first
/// party draws a seed for the second.
pub fn setup_rss5_messages(party: usize, my_seed: &PrfSeed) -> (r: Vec<(usize, PrfSeed)>)
    ensures
        r@.map_values(|m: (usize, PrfSeed)| (m.0, m.1@)) == seed_messages(
            party as int,
            my_seed@,
            20,
        ),
{
    let mut rng: AesStream = AesStream::from_seed(my_seed);
    let ghost start = rng@;
    let mut out: Vec<(usize, PrfSeed)> = Vec::new();
    let mut n: usize = 0;
    proof {
        lemma_after(start, false, 0, 0);
        assert(out@.map_values(|m: (usize, PrfSeed)| (m.0, m.1@)) =~= seed_messages(
            party as int,
            my_seed@,
            0,
        ));
    }
    while n < 20
        invariant
            n <= 20,
            rng.wf(),
            start == (AesView { seed: my_seed@, draws: Seq::empty() }),
            rng@ == start.after(false, 16 * sampled_before(party as int, n as nat)),
            out@.map_values(|m: (usize, PrfSeed)| (m.0, m.1@)) == seed_messages(
                party as int,
                my_seed@,
                n as nat,
            ),
        decreases 20 - n,
    {
        if sampler_of_step(n) == party {
            let ghost before = out@;
            let ghost k = sampled_before(party as int, n as nat);
            let seed: PrfSeed = draw_seed(&mut rng);
            proof {
                lemma_after(start, false, 16 * k, 16);
            }
            if n < 10 {
                let h: Vec<usize> = holders(n);
                out.push((h[1], seed));
                out.push((h[2], seed));
            } else {
                out.push((SETS[n - 10].1, seed));
            }
            proof {
                let f = |m: (usize, PrfSeed)| (m.0, m.1@);
                let g = |to: usize| (to, sampled_seed(my_seed@, k));
                assert(out@.map_values(f) =~= before.map_values(f) + step_receivers(
                    n as int,
                ).map_values(g));
            }
        }
        n += 1;
    }
    out
}

/// A session of one of the five parties.
pub struct Rss5Session {
    pub topo: Topology,
    pub streams: Vec<Option<AesStream>>,
    pub pair_streams: Vec<Option<AesStream>>,
}

/// Where a party stands: its number and the positions of its streams.
#[verifier::ext_equal]
pub struct SessionView {
    pub party: int,
    /// One stream for each component that the party holds.
    pub streams: Seq<Option<AesView>>,
    /// One stream for each pair that the party is part of.
    pub pairs: Seq<Option<AesView>>,
}

impl SessionView {
    /// The party is one of the five and has exactly its streams.
    pub open spec fn wf(self) -> bool {
        &&& 0 <= self.party < 5
        &&& self.streams.len() == 10
        &&& self.pairs.len() == 10
        &&& forall|t: int|
            0 <= t < 10 ==> (#[trigger] self.streams[t] is Some) == !in_set(t, self.party)
        &&& forall|t: int|
            0 <= t < 10 ==> (#[trigger] self.pairs[t] is Some) == in_set(t, self.party)
    }

    /// The session after `n` values were drawn from the stream of pair `t`.
    pub open spec fn drew_pair(self, t: int, wide: bool, n: nat) -> SessionView {
        SessionView {
            pairs: self.pairs.update(t, Some(self.pairs[t]->0.after(wide, n))),
            ..self
        }
    }
}

impl View for Rss5Session {
    type V = SessionView;

    open spec fn view(&self) -> SessionView {
        SessionView {
            party: self.topo.party as int,
            streams: positions(self.streams@),
            pairs: positions(self.pair_streams@),
        }
    }
}

impl Rss5Session {
    /// The streams are what their positions say.
    pub open spec fn inv(&self) -> bool {
        &&& all_wf(self.streams@)
        &&& all_wf(self.pair_streams@)
    }

    /// The session is that of one of the five parties.
    pub open spec fn wf(&self) -> bool {
        &&& self.inv()
        &&& self@.wf()
        &&& self@.party == self.topo.party
        &&& self.topo.wf()
    }
}

/// The session of a party that drew from its own seed and received the given messages, in the
/// order of the setup steps. Fails unless there are five parties and every message carries a key.
pub fn setup_rss5_session(
    num_parties: usize,
    party: usize,
    my_seed: &PrfSeed,
    received: &[NetworkValue],
) -> (r: Result<Rss5Session, ProtocolError>)
    ensures
        num_parties != 5 ==> r == Err::<Rss5Session, ProtocolError>(ProtocolError::InvalidRoles),
        num_parties == 5 && received@.len() != received_before(party as int, 20) ==> r == Err::<
            Rss5Session,
            ProtocolError,
        >(ProtocolError::LengthMismatch),
        num_parties == 5 && received@.len() == received_before(party as int, 20) ==> {
            if forall|i: int| 0 <= i < received@.len() ==> #[trigger] received@[i] is PrfKey {
                &&& r is Ok
                &&& r->Ok_0.inv()
                &&& r->Ok_0.topo.wf()
                &&& r->Ok_0.topo.party == party
                &&& r->Ok_0@.party == party
                &&& r->Ok_0@.streams == Seq::new(
                    10,
                    |t: int| fresh_stream(step_seed(party as int, my_seed@, received@, t as nat)),
                )
                &&& r->Ok_0@.pairs == Seq::new(
                    10,
                    |t: int|
                        fresh_stream(
                            step_seed(party as int, my_seed@, received@, (t + 10) as nat),
                        ),
                )
                &&& party < 5 ==> r->Ok_0.wf()
            } else {
                r == Err::<Rss5Session, ProtocolError>(ProtocolError::WrongValueType)
            }
        },
{
    if num_parties != 5 {
        return Err(ProtocolError::InvalidRoles);
    }
    let mut expected: usize = 0;
    let mut m: usize = 0;
    while m < 20
        invariant
            m <= 20,
            expected <= m,
            expected == received_before(party as int, m as nat),
        decreases 20 - m,
    {
        if sampler_of_step(m) != party && member_of_step(m, party) {
            expected += 1;
        }
        m += 1;
    }
    if received.len() != expected {
        return Err(ProtocolError::LengthMismatch);
    }
    let mut rng: AesStream = AesStream::from_seed(my_seed);
    let ghost start = rng@;
    let mut all: Vec<Option<AesStream>> = Vec::new();
    let mut taken: usize = 0;
    let mut n: usize = 0;
    proof {
        lemma_after(start, false, 0, 0);
    }
    while n < 20
        invariant
            n <= 20,
            num_parties == 5,
            rng.wf(),
            start == (AesView { seed: my_seed@, draws: Seq::empty() }),
            rng@ == start.after(false, 16 * sampled_before(party as int, n as nat)),
            taken == received_before(party as int, n as nat),
            received@.len() == received_before(party as int, 20),
            forall|i: int| 0 <= i < taken ==> #[trigger] received@[i] is PrfKey,
            all_wf(all@),
            all@.len() == n,
            forall|i: int|
                0 <= i < n ==> #[trigger] positions(all@)[i] == fresh_stream(
                    step_seed(party as int, my_seed@, received@, i as nat),
                ),
        decreases 20 - n,
    {
        let ghost before = all@;
        proof {
            lemma_received_grows(party as int, (n + 1) as nat, 20);
        }
        if sampler_of_step(n) == party {
            let ghost k = sampled_before(party as int, n as nat);
            let seed: PrfSeed = draw_seed(&mut rng);
            proof {
                lemma_after(start, false, 16 * k, 16);
            }
            all.push(Some(AesStream::from_seed(&seed)));
        } else if member_of_step(n, party) {
            match &received[taken] {
                NetworkValue::PrfKey(seed) => {
                    all.push(Some(AesStream::from_seed(seed)));
                },
                _ => {
                    assert(!(received@[taken as int] is PrfKey));
                    return Err(ProtocolError::WrongValueType);
                },
            }
            taken += 1;
        } else {
            all.push(None);
        }
        proof {
            assert forall|i: int| 0 <= i < n + 1 implies #[trigger] positions(all@)[i]
                == fresh_stream(step_seed(party as int, my_seed@, received@, i as nat)) by {
                if i < n {
                    assert(all@[i] == before[i]);
                    assert(positions(before)[i] == fresh_stream(
                        step_seed(party as int, my_seed@, received@, i as nat),
                    ));
                }
            }
        }
        n += 1;
    }
    let ghost whole = all@;
    let pair_streams: Vec<Option<AesStream>> = all.split_off(10);
    let session = Rss5Session { topo: Topology::new(party), streams: all, pair_streams };
    proof {
        let v = session@;
        assert forall|t: int| 0 <= t < 10 implies v.streams[t] == fresh_stream(
            step_seed(party as int, my_seed@, received@, t as nat),
        ) by {
            assert(positions(whole)[t] == v.streams[t]);
        }
        assert forall|t: int| 0 <= t < 10 implies v.pairs[t] == fresh_stream(
            step_seed(party as int, my_seed@, received@, (t + 10) as nat),
        ) by {
            assert(positions(whole)[t + 10] == v.pairs[t]);
        }
        assert forall|t: int| 0 <= t < 20 implies (#[trigger] positions(whole)[t] is Some) == (
        step_sampler(t) == party || step_member(t, party as int)) by {
            if step_sampler(t) != party && step_member(t, party as int) {
                lemma_received_grows(party as int, (t + 1) as nat, 20);
                assert(received@[received_before(party as int, t as nat) as int] is PrfKey);
            }
        }
        assert(v.streams =~= Seq::new(
            10,
            |t: int| fresh_stream(step_seed(party as int, my_seed@, received@, t as nat)),
        ));
        assert(v.pairs =~= Seq::new(
            10,
            |t: int| fresh_stream(step_seed(party as int, my_seed@, received@, (t + 10) as nat)),
        ));
        if party < 5 {
            assert forall|t: int| 0 <= t < 10 implies (#[trigger] v.streams[t] is Some) == !in_set(
                t,
                party as int,
            ) by {
                assert(positions(whole)[t] == v.streams[t]);
                lemma_three_holders(t);
            }
            assert forall|t: int| 0 <= t < 10 implies (#[trigger] v.pairs[t] is Some) == in_set(
                t,
                party as int,
            ) by {
                assert(positions(whole)[t + 10] == v.pairs[t]);
            }
        }
    }
    Ok(session)
}

proof fn lemma_received_grows(p: int, m: nat, n: nat)
    requires
        m <= n,
    ensures
        received_before(p, m) <= received_before(p, n),
    decreases n,
{
    if m < n {
        lemma_received_grows(p, m, (n - 1) as nat);
    }
}

/// Five sessions hold the given streams: those who hold the stream of a component, and those who
/// hold the stream of a pair, stand at the same position.
pub open spec fn in_step5(
    views: Seq<SessionView>,
    streams: Seq<AesView>,
    pairs: Seq<AesView>,
) -> bool {
    &&& views.len() == 5
    &&& streams.len() == 10
    &&& pairs.len() == 10
    &&& forall|p: int| 0 <= p < 5 ==> stands_at(#[trigger] views[p], p, streams, pairs)
}

/// A session of party `p` holds the given streams.
pub open spec fn stands_at(
    view: SessionView,
    p: int,
    streams: Seq<AesView>,
    pairs: Seq<AesView>,
) -> bool {
    &&& view.party == p
    &&& view.wf()
    &&& forall|t: int|
        0 <= t < 10 && !in_set(t, p) ==> (#[trigger] view.streams[t]) == Some(streams[t])
    &&& forall|t: int| 0 <= t < 10 && in_set(t, p) ==> (#[trigger] view.pairs[t]) == Some(pairs[t])
}

/// The seed of setup step `n` when the five parties draw from the given seeds.
pub open spec fn agreed_seed(seeds: Seq<Seq<u8>>, n: nat) -> Seq<u8> {
    let p = step_sampler(n as int);
    sampled_seed(seeds[p], sampled_before(p, n))
}

/// A party received, for every setup step that it takes part in but does not draw the seed of, the
/// seed that was drawn.
pub open spec fn received_all(p: int, seeds: Seq<Seq<u8>>, received: Seq<NetworkValue>) -> bool {
    forall|n: nat|
        n < 20 && step_member(n as int, p) && step_sampler(n as int) != p ==> (match received[
        #[trigger] received_before(p, n) as int] {
            NetworkValue::PrfKey(seed) => seed@ == agreed_seed(seeds, n),
            _ => false,
        })
}

/// After setup the five parties are in step.
pub proof fn lemma_setup5_in_step(
    seeds: Seq<Seq<u8>>,
    received: Seq<Seq<NetworkValue>>,
    views: Seq<SessionView>,
)
    requires
        seeds.len() == 5,
        views.len() == 5,
        forall|p: int| 0 <= p < 5 ==> #[trigger] received_all(p, seeds, received[p]),
        forall|p: int|
            0 <= p < 5 ==> (#[trigger] views[p]).party == p && views[p].wf() && views[p].streams
                == Seq::new(
                10,
                |t: int| fresh_stream(step_seed(p, seeds[p], received[p], t as nat)),
            ) && views[p].pairs == Seq::new(
                10,
                |t: int| fresh_stream(step_seed(p, seeds[p], received[p], (t + 10) as nat)),
            ),
    ensures
        in_step5(
            views,
            Seq::new(
                10,
                |t: int| AesView { seed: agreed_seed(seeds, t as nat), draws: Seq::empty() },
            ),
            Seq::new(
                10,
                |t: int| AesView { seed: agreed_seed(seeds, (t + 10) as nat), draws: Seq::empty() },
            ),
        ),
{
    let streams = Seq::new(
        10,
        |t: int| AesView { seed: agreed_seed(seeds, t as nat), draws: Seq::<bool>::empty() },
    );
    let pairs = Seq::new(
        10,
        |t: int| AesView { seed: agreed_seed(seeds, (t + 10) as nat), draws: Seq::<bool>::empty() },
    );
    assert forall|p: int| 0 <= p < 5 implies stands_at(#[trigger] views[p], p, streams, pairs) by {
        assert(received_all(p, seeds, received[p]));
        assert forall|t: int| 0 <= t < 10 && !in_set(t, p) implies (#[trigger] views[p].streams[t])
            == Some(streams[t]) by {
            let n = t as nat;
            let at = received_before(p, n);
        }
        assert forall|t: int| 0 <= t < 10 && in_set(t, p) implies (#[trigger] views[p].pairs[t])
            == Some(pairs[t]) by {
            let n = (t + 10) as nat;
            let at = received_before(p, n);
        }
    }
}

/// What a party has after the first half of a redistribution.
#[derive(Debug)]
pub enum Redistributed<T> {
    /// The party hands its masked shares to another party and keeps nothing.
    Send { to: usize, values: Vec<T> },
    /// The party still lacks the masked shares of another party.
    Await { from: usize, partial: Vec<T> },
    /// The party has its addends.
    Done { values: Vec<T> },
}

/// The pair whose stream a party draws its first mask of a redistribution from.
pub open spec fn first_mask(p: int) -> int {
    if p == 0 || p == 4 {
        index_of_set(0, 4)
    } else if p == 1 || p == 3 {
        index_of_set(1, 3)
    } else {
        index_of_set(2, 3)
    }
}

/// The pair whose stream parties 2, 3 and 4 draw their second mask from.
pub open spec fn second_mask(p: int) -> int {
    if p == 3 {
        index_of_set(2, 3)
    } else {
        index_of_set(2, 4)
    }
}

impl SessionView {
    /// The first masks of a redistribution.
    pub open spec fn masks_1<T: AesDraw>(self, n: nat) -> Seq<T> {
        drawn_masks::<T>(self.pairs[first_mask(self.party)]->0, n)
    }

    /// The second masks of a redistribution.
    pub open spec fn masks_2<T: AesDraw>(self, n: nat) -> Seq<T> {
        drawn_masks::<T>(self.pairs[second_mask(self.party)]->0, n)
    }

    /// The session after a redistribution.
    pub open spec fn redistributed<T: AesDraw>(self, n: nat) -> SessionView {
        let one = self.drew_pair(first_mask(self.party), T::wide(), n);
        if self.party < 2 {
            one
        } else {
            one.drew_pair(second_mask(self.party), T::wide(), n)
        }
    }

    /// Whether `r` is what the party has after the first half of a redistribution of its shares.
    pub open spec fn redistributes<T: AesDraw>(
        self,
        kind: ShareType,
        items: Seq<T>,
        r: Redistributed<T>,
    ) -> bool {
        let n = items.len();
        let (a, b) = (self.masks_1::<T>(n), self.masks_2::<T>(n));
        if self.party < 2 {
            &&& r matches Redistributed::Await { from, partial }
            &&& from == self.party + 3
            &&& partial@ == Seq::new(n, |k: int| kind.without(items[k], a[k]))
        } else if self.party == 2 {
            &&& r matches Redistributed::Done { values }
            &&& values@ == Seq::new(n, |k: int| kind.without(kind.without(items[k], a[k]), b[k]))
        } else {
            &&& r matches Redistributed::Send { to, values }
            &&& to == self.party - 3
            &&& values@ == Seq::new(n, |k: int| kind.both(kind.both(items[k], a[k]), b[k]))
        }
    }
}

/// Combines two batches, entry by entry.
fn combine_all<T: IntRing2k>(kind: ShareType, x: &[T], y: &[T]) -> (r: Vec<T>)
    requires
        x@.len() == y@.len(),
    ensures
        r@ == Seq::new(x@.len(), |k: int| kind.both(x@[k], y@[k])),
{
    let mut out: Vec<T> = Vec::new();
    let mut k: usize = 0;
    while k < x.len()
        invariant
            k <= x@.len(),
            x@.len() == y@.len(),
            out@.len() == k,
            forall|j: int| 0 <= j < k ==> #[trigger] out@[j] == kind.both(x@[j], y@[j]),
        decreases x@.len() - k,
    {
        out.push(kind.combine(x[k], y[k]));
        k += 1;
    }
    assert(out@ =~= Seq::new(x@.len(), |j: int| kind.both(x@[j], y@[j])));
    out
}

/// Takes masks off a batch, entry by entry.
fn unmask_all<T: IntRing2k>(kind: ShareType, x: &[T], y: &[T]) -> (r: Vec<T>)
    requires
        x@.len() == y@.len(),
    ensures
        r@ == Seq::new(x@.len(), |k: int| kind.without(x@[k], y@[k])),
{
    let mut out: Vec<T> = Vec::new();
    let mut k: usize = 0;
    while k < x.len()
        invariant
            k <= x@.len(),
            x@.len() == y@.len(),
            out@.len() == k,
            forall|j: int| 0 <= j < k ==> #[trigger] out@[j] == kind.without(x@[j], y@[j]),
        decreases x@.len() - k,
    {
        out.push(kind.unmask(x[k], y[k]));
        k += 1;
    }
    assert(out@ =~= Seq::new(x@.len(), |j: int| kind.without(x@[j], y@[j])));
    out
}

impl Rss5Session {
    /// Draws masks from the stream of the pair `{a, b}`, which both of its parties draw alike.
    pub fn draw_pair_mask<T: AesDraw>(&mut self, a: usize, b: usize, len: usize) -> (r: Vec<T>)
        requires
            old(self).wf(),
            a < 5,
            b < 5,
            a != b,
            old(self).topo.party == a || old(self).topo.party == b,
        ensures
            final(self).wf(),
            final(self).topo == old(self).topo,
            r@ == drawn_masks::<T>(
                old(self)@.pairs[index_of_set(a as int, b as int)]->0,
                len as nat,
            ),
            final(self)@ == old(self)@.drew_pair(
                index_of_set(a as int, b as int),
                T::wide(),
                len as nat,
            ),
    {
        let t: usize = set_index(a, b);
        assert(self@.pairs[t as int] is Some);
        draw_at(&mut self.pair_streams, t, len)
    }

    /// First half of turning five shares of every entry into three addends that parties 0, 1 and
    /// 2 know: parties 3 and 4 hand over their shares, masked by streams that they share with two
    /// others, who take the masks off their own addends.
    fn redistribute_shares<T: AesDraw>(&mut self, kind: ShareType, items: &[T]) -> (r:
        Redistributed<T>)
        requires
            old(self).wf(),
        ensures
            final(self).wf(),
            final(self).topo == old(self).topo,
            old(self)@.redistributes(kind, items@, r),
            final(self)@ == old(self)@.redistributed::<T>(items@.len()),
    {
        let len: usize = items.len();
        let p: usize = self.topo.party;
        if p == 0 {
            let a: Vec<T> = self.draw_pair_mask(0, 4, len);
            Redistributed::Await { from: 3, partial: unmask_all(kind, items, a.as_slice()) }
        } else if p == 1 {
            let a: Vec<T> = self.draw_pair_mask(1, 3, len);
            Redistributed::Await { from: 4, partial: unmask_all(kind, items, a.as_slice()) }
        } else if p == 2 {
            let a: Vec<T> = self.draw_pair_mask(2, 3, len);
            let b: Vec<T> = self.draw_pair_mask(2, 4, len);
            let one: Vec<T> = unmask_all(kind, items, a.as_slice());
            let values: Vec<T> = unmask_all(kind, one.as_slice(), b.as_slice());
            proof {
                assert(values@ =~= Seq::new(
                    items@.len(),
                    |k: int| kind.without(kind.without(items@[k], a@[k]), b@[k]),
                ));
            }
            Redistributed::Done { values }
        } else {
            let (a, b): (Vec<T>, Vec<T>) = if p == 3 {
                let a: Vec<T> = self.draw_pair_mask(1, 3, len);
                (a, self.draw_pair_mask(2, 3, len))
            } else {
                let a: Vec<T> = self.draw_pair_mask(0, 4, len);
                (a, self.draw_pair_mask(2, 4, len))
            };
            let one: Vec<T> = combine_all(kind, items, a.as_slice());
            let values: Vec<T> = combine_all(kind, one.as_slice(), b.as_slice());
            proof {
                assert(values@ =~= Seq::new(
                    items@.len(),
                    |k: int| kind.both(kind.both(items@[k], a@[k]), b@[k]),
                ));
            }
            Redistributed::Send { to: p - 3, values }
        }
    }

    /// First half of a redistribution of words that combine by exclusive or.
    pub fn redistribute_words(&mut self, items: &[u64]) -> (r: Redistributed<u64>)
        requires
            old(self).wf(),
        ensures
            final(self).wf(),
            final(self).topo == old(self).topo,
            old(self)@.redistributes(ShareType::Boolean, items@, r),
            final(self)@ == old(self)@.redistributed::<u64>(items@.len()),
            ({
                let n = items@.len();
                let (a, b) = (old(self)@.masks_1::<u64>(n), old(self)@.masks_2::<u64>(n));
                match r {
                    Redistributed::Await { from, partial } => {
                        &&& old(self)@.party < 2 && from == old(self)@.party + 3 && partial@.len()
                            == n
                        &&& forall|k: int|
                            0 <= k < n ==> #[trigger] partial@[k] == items@[k] ^ a[k]
                    },
                    Redistributed::Done { values } => {
                        &&& old(self)@.party == 2 && values@.len() == n
                        &&& forall|k: int|
                            0 <= k < n ==> #[trigger] values@[k] == (items@[k] ^ a[k]) ^ b[k]
                    },
                    Redistributed::Send { to, values } => {
                        &&& old(self)@.party > 2 && to == old(self)@.party - 3 && values@.len()
                            == n
                        &&& forall|k: int|
                            0 <= k < n ==> #[trigger] values@[k] == (items@[k] ^ a[k]) ^ b[k]
                    },
                }
            }),
    {
        self.redistribute_shares(ShareType::Boolean, items)
    }
}

/// First half of a redistribution of additive shares: three addends that add up to the shared
/// values.
pub fn redistribute(sess: &mut Rss5Session, items: &[u16]) -> (r: Redistributed<u16>)
    requires
        old(sess).wf(),
    ensures
        final(sess).wf(),
        final(sess).topo == old(sess).topo,
        old(sess)@.redistributes(ShareType::Arithmetic, items@, r),
        final(sess)@ == old(sess)@.redistributed::<u16>(items@.len()),
        ({
            let n = items@.len();
            let (a, b) = (old(sess)@.masks_1::<u16>(n), old(sess)@.masks_2::<u16>(n));
            match r {
                Redistributed::Await { from, partial } => {
                    &&& old(sess)@.party < 2 && from == old(sess)@.party + 3 && partial@.len() == n
                    &&& forall|k: int|
                        0 <= k < n ==> #[trigger] partial@[k] == u16::of_int(items@[k] - a[k])
                },
                Redistributed::Done { values } => {
                    &&& old(sess)@.party == 2 && values@.len() == n
                    &&& forall|k: int|
                        0 <= k < n ==> #[trigger] values@[k] == u16::of_int(
                            u16::of_int(items@[k] - a[k]) - b[k],
                        )
                },
                Redistributed::Send { to, values } => {
                    &&& old(sess)@.party > 2 && to == old(sess)@.party - 3 && values@.len() == n
                    &&& forall|k: int|
                        0 <= k < n ==> #[trigger] values@[k] == u16::of_int(
                            u16::of_int(items@[k] + a[k]) + b[k],
                        )
                },
            }
        }),
{
    sess.redistribute_shares(ShareType::Arithmetic, items)
}

/// Second half of a redistribution for parties 0 and 1, with the masked shares of party 3 or 4.
pub fn receive_addends<T: IntRing2k + Wire>(kind: ShareType, partial: &[T], msg: &NetworkValue) -> (r:
    Result<Vec<T>, ProtocolError>)
    ensures
        match expected_vec::<T>(*msg, partial@.len()) {
            Ok(received) => {
                &&& r is Ok
                &&& r->Ok_0@ == Seq::new(
                    partial@.len(),
                    |k: int| kind.both(partial@[k], received[k]),
                )
            },
            Err(e) => r == Err::<Vec<T>, ProtocolError>(e),
        },
        r is Ok ==> {
            let received = expected_vec::<T>(*msg, partial@.len())->Ok_0;
            &&& r->Ok_0@.len() == partial@.len()
            &&& kind is Arithmetic ==> forall|k: int|
                0 <= k < partial@.len() ==> #[trigger] r->Ok_0@[k] == T::of_int(
                    partial@[k].val() + received[k].val(),
                )
            &&& kind is Boolean ==> forall|k: int|
                0 <= k < partial@.len() ==> #[trigger] r->Ok_0@[k] == partial@[k].bxor(received[k])
        },
{
    match recv_elems::<T>(msg, partial.len()) {
        Ok(received) => Ok(combine_all(kind, partial, received.as_slice())),
        Err(e) => Err(e),
    }
}

/// The three addends of an entry combine to what its five shares combine to, whatever the masks.
proof fn lemma_masks_cancel<T: IntRing2k>(kind: ShareType, d: Seq<T>, a04: T, a13: T, b23: T, b24: T)
    requires
        d.len() == 5,
    ensures
        ({
            let v0 = kind.both(kind.without(d[0], a04), kind.both(kind.both(d[3], a13), b23));
            let v1 = kind.both(kind.without(d[1], a13), kind.both(kind.both(d[4], a04), b24));
            let v2 = kind.without(kind.without(d[2], b23), b24);
            kind.both(kind.both(v0, v1), v2) == all_five(kind, d)
        }),
{
    let v0 = kind.both(kind.without(d[0], a04), kind.both(kind.both(d[3], a13), b23));
    let v1 = kind.both(kind.without(d[1], a13), kind.both(kind.both(d[4], a04), b24));
    let v2 = kind.without(kind.without(d[2], b23), b24);
    let (l, r) = (kind.both(kind.both(v0, v1), v2), all_five(kind, d));
    match kind {
        ShareType::Boolean => {
            broadcast use group_bits;

            assert forall|i: nat| i < T::bits() implies bit(l, i) == bit(r, i) by {
            }
            lemma_bits_ext(l, r);
        },
        ShareType::Arithmetic => {
            let (d0, d1, d2, d3, d4) = (d[0].val(), d[1].val(), d[2].val(), d[3].val(), d[4].val());
            let (x, y, z, w) = (a04.val(), a13.val(), b23.val(), b24.val());
            let s3 = kind.both(kind.both(d[3], a13), b23);
            let s4 = kind.both(kind.both(d[4], a04), b24);
            lemma_absorb::<T>(d3 + y, z);
            lemma_absorb::<T>(d4 + x, w);
            assert(s3 == T::of_int(d3 + y + z) && s4 == T::of_int(d4 + x + w));
            lemma_absorb::<T>(d0 - x, s3.val());
            lemma_absorb::<T>(d3 + y + z, d0 - x);
            assert(v0 == T::of_int(d0 - x + d3 + y + z));
            lemma_absorb::<T>(d1 - y, s4.val());
            lemma_absorb::<T>(d4 + x + w, d1 - y);
            assert(v1 == T::of_int(d1 - y + d4 + x + w));
            lemma_absorb::<T>(d2 - z, -w);
            assert(v2 == T::of_int(d2 - z - w));
            lemma_absorb::<T>(v0.val() + v1.val(), v2.val());
            lemma_absorb::<T>(d0 - x + d3 + y + z, v1.val() + v2.val());
            lemma_absorb::<T>(d1 - y + d4 + x + w, d0 - x + d3 + y + z + v2.val());
            lemma_absorb::<T>(
                d2 - z - w,
                d0 - x + d3 + y + z + d1 - y + d4 + x + w,
            );
            assert(l == T::of_int(d0 + d1 + d2 + d3 + d4));
            lemma_absorb::<T>(d0 + d1, d2);
            lemma_absorb::<T>(d0 + d1 + d2, d3);
            lemma_absorb::<T>(d0 + d1 + d2 + d3, d4);
        },
    }
}

/// What five shares combine to.
pub open spec fn all_five<T: IntRing2k>(kind: ShareType, d: Seq<T>) -> T {
    kind.both(kind.both(kind.both(kind.both(d[0], d[1]), d[2]), d[3]), d[4])
}

/// The addends that parties 0, 1 and 2 have after a redistribution, entry `k`: parties 0 and 1
/// combine what they kept with what parties 3 and 4 sent.
pub open spec fn addend<T: IntRing2k>(
    kind: ShareType,
    r: Seq<Redistributed<T>>,
    j: int,
    k: int,
) -> T {
    if j < 2 {
        kind.both(r[j]->partial@[k], r[j + 3]->Send_values@[k])
    } else {
        r[2]->Done_values@[k]
    }
}

/// The three addends of every entry combine to the value that its five shares combine to.
pub proof fn lemma_redistribution_correct<T: AesDraw>(
    kind: ShareType,
    views: Seq<SessionView>,
    streams: Seq<AesView>,
    pairs: Seq<AesView>,
    items: Seq<Seq<T>>,
    r: Seq<Redistributed<T>>,
    k: int,
)
    requires
        in_step5(views, streams, pairs),
        items.len() == 5,
        forall|p: int| 0 <= p < 5 ==> 0 <= k < (#[trigger] items[p]).len() == items[0].len(),
        forall|p: int| 0 <= p < 5 ==> views[p].redistributes(kind, items[p], #[trigger] r[p]),
    ensures
        kind.both(kind.both(addend(kind, r, 0, k), addend(kind, r, 1, k)), addend(kind, r, 2, k))
            == all_five(kind, Seq::new(5, |p: int| items[p][k])),
{
    let n = items[0].len();
    let d = Seq::new(5, |p: int| items[p][k]);
    assert forall|p: int| 0 <= p < 5 implies stands_at(#[trigger] views[p], p, streams, pairs)
        && items[p].len() == n && views[p].redistributes(kind, items[p], r[p]) by {
    }
    let mask = |t: int| drawn_masks::<T>(pairs[t], n)[k];
    assert(stands_at(views[0], 0, streams, pairs) && stands_at(views[1], 1, streams, pairs));
    assert(stands_at(views[2], 2, streams, pairs) && stands_at(views[3], 3, streams, pairs));
    assert(stands_at(views[4], 4, streams, pairs));
    assert(in_set(3, 0) && in_set(3, 4) && in_set(5, 1) && in_set(5, 3));
    assert(in_set(7, 2) && in_set(7, 3) && in_set(8, 2) && in_set(8, 4));
    assert(views[0].pairs[3] == Some(pairs[3]) && views[4].pairs[3] == Some(pairs[3]));
    assert(views[1].pairs[5] == Some(pairs[5]) && views[3].pairs[5] == Some(pairs[5]));
    assert(views[2].pairs[7] == Some(pairs[7]) && views[3].pairs[7] == Some(pairs[7]));
    assert(views[2].pairs[8] == Some(pairs[8]) && views[4].pairs[8] == Some(pairs[8]));
    lemma_masks_cancel(kind, d, mask(3), mask(5), mask(7), mask(8));
}

/// The streams of the pairs after a redistribution.
pub open spec fn pairs_redistributed<T: AesDraw>(pairs: Seq<AesView>, n: nat) -> Seq<AesView> {
    Seq::new(
        10,
        |t: int|
            if t == 3 || t == 5 || t == 7 || t == 8 {
                pairs[t].after(T::wide(), n)
            } else {
                pairs[t]
            },
    )
}

/// A redistribution keeps the parties in step.
pub proof fn lemma_redistribution_in_step<T: AesDraw>(
    views: Seq<SessionView>,
    streams: Seq<AesView>,
    pairs: Seq<AesView>,
    n: nat,
)
    requires
        in_step5(views, streams, pairs),
    ensures
        in_step5(
            Seq::new(5, |p: int| views[p].redistributed::<T>(n)),
            streams,
            pairs_redistributed::<T>(pairs, n),
        ),
{
    let after = Seq::new(5, |p: int| views[p].redistributed::<T>(n));
    let moved = pairs_redistributed::<T>(pairs, n);
    assert forall|p: int| 0 <= p < 5 implies stands_at(#[trigger] after[p], p, streams, moved) by {
        assert(stands_at(views[p], p, streams, pairs));
        let v = after[p];
        assert forall|t: int| 0 <= t < 10 implies (#[trigger] v.pairs[t] is Some) == in_set(t, p)
            && (in_set(t, p) ==> v.pairs[t] == Some(moved[t])) by {
            assert((views[p].pairs[t] is Some) == in_set(t, p));
        }
        assert(v.streams == views[p].streams);
    }
}

} // verus!
