//! Sharing, multiplying and opening words among five parties.

use crate::aes_stream::{drawn_masks, AesView};
use crate::message::{expected_vec, recv_elems, NetworkValue, ProtocolError};
use crate::ring::IntRing2k;
use crate::ring_lemmas::{lemma_xor_assoc, lemma_xor_comm, lemma_xor_zero, zero};
use crate::dealer_5pc::ShareType;
use crate::planes::{xor_seq, xor_vec};
use crate::rss5::{
    and_local, and_sum, assigned, consistent5, corr_receivers, corr_set, correction_set,
    holds_parts, in_set, lemma_and_local_correct, lemma_common_parts, lemma_slots,
    lemma_xor5_value, part, set_contains, slot_of, value5, xor_all, Share5,
};
use crate::rss5_session::{
    addend, all_five, draw_at, in_step5, lemma_redistribution_correct, stands_at, Redistributed,
    Rss5Session, SessionView,
};
use crate::shares::XorShare;
use vstd::prelude::*;

verus! {

/// A component that the sharer of a value draws from a stream: one that the sharer holds, but not
/// the one that carries its correction.
pub open spec fn masked(sharer: int, t: int) -> bool {
    !in_set(t, sharer) && t != correction_set(sharer)
}

/// What a sharer draws for component `t` of entry `k`, where it draws anything.
pub open spec fn mask_at(streams: Seq<Option<AesView>>, sharer: int, len: nat, t: int, k: int) -> u64 {
    if masked(sharer, t) {
        drawn_masks::<u64>(streams[t]->0, len)[k]
    } else {
        zero::<u64>()
    }
}

/// The masks of entry `k`, one for each component.
pub open spec fn masks_at(streams: Seq<Option<AesView>>, sharer: int, len: nat, k: int) -> Seq<u64> {
    Seq::new(10, |t: int| mask_at(streams, sharer, len, t, k))
}

/// The correction of entry `k`: the value without all masks.
pub open spec fn correction(
    streams: Seq<Option<AesView>>,
    sharer: int,
    values: Seq<u64>,
    k: int,
) -> u64 {
    values[k].bxor(xor_all(masks_at(streams, sharer, values.len(), k), 10))
}

/// Component `t` of entry `k` of a shared batch, given its correction.
pub open spec fn dealt_word(
    streams: Seq<Option<AesView>>,
    sharer: int,
    len: nat,
    t: int,
    k: int,
    corr: u64,
) -> u64 {
    if t == correction_set(sharer) {
        corr
    } else {
        mask_at(streams, sharer, len, t, k)
    }
}

/// A share of party `p` consists of the dealt components.
pub open spec fn dealt_share(
    p: int,
    streams: Seq<Option<AesView>>,
    sharer: int,
    len: nat,
    k: int,
    corr: u64,
    share: Share5<u64>,
) -> bool {
    forall|t: int|
        0 <= t < 10 && !in_set(t, p) ==> #[trigger] part(p, share, t) == dealt_word(
            streams,
            sharer,
            len,
            t,
            k,
            corr,
        )
}

impl SessionView {
    /// The session after a batch of words was shared.
    pub open spec fn shared_words(self, sharer: int, len: nat) -> SessionView {
        SessionView {
            streams: Seq::new(
                10,
                |t: int|
                    if !in_set(t, self.party) && masked(sharer, t) {
                        Some(self.streams[t]->0.after(true, len))
                    } else {
                        self.streams[t]
                    },
            ),
            ..self
        }
    }
}

/// Components that a party holds have different slots.
pub proof fn lemma_slots_differ(p: int, s: int, t: int)
    requires
        0 <= p < 5,
        0 <= s < 10,
        0 <= t < 10,
        !in_set(s, p),
        !in_set(t, p),
        s != t,
    ensures
        slot_of(p, s) != slot_of(p, t),
{
    if s < t {
        lemma_slots_grow(p, s, t);
    } else {
        lemma_slots_grow(p, t, s);
    }
}

proof fn lemma_slots_grow(p: int, s: int, t: int)
    requires
        0 <= s < t,
        !in_set(s, p),
    ensures
        slot_of(p, s) < slot_of(p, t),
    decreases t,
{
    if s < t - 1 {
        lemma_slots_grow(p, s, t - 1);
    }
}

/// Puts one component into every share.
fn place(shares: &mut Vec<Share5<u64>>, slot: usize, values: &[u64])
    requires
        slot < 6,
        values@.len() == old(shares)@.len(),
    ensures
        final(shares)@.len() == old(shares)@.len(),
        forall|k: int|
            0 <= k < values@.len() ==> (#[trigger] final(shares)@[k]).c@ == old(
                shares,
            )@[k].c@.update(slot as int, values@[k]),
{
    let ghost before = shares@;
    let mut k: usize = 0;
    while k < shares.len()
        invariant
            slot < 6,
            k <= shares@.len(),
            shares@.len() == before.len(),
            values@.len() == before.len(),
            forall|j: int|
                0 <= j < k ==> (#[trigger] shares@[j]).c@ == before[j].c@.update(
                    slot as int,
                    values@[j],
                ),
            forall|j: int| k <= j < before.len() ==> #[trigger] shares@[j] == before[j],
        decreases shares@.len() - k,
    {
        let mut share: Share5<u64> = shares[k];
        share.c[slot] = values[k];
        shares.set(k, share);
        k += 1;
    }
}

/// Combines masks into a batch, entry by entry.
fn xor_into(batch: &mut Vec<u64>, masks: &[u64])
    requires
        masks@.len() == old(batch)@.len(),
    ensures
        final(batch)@ == Seq::new(masks@.len(), |k: int| old(batch)@[k].bxor(masks@[k])),
{
    let ghost before = batch@;
    let mut k: usize = 0;
    while k < batch.len()
        invariant
            k <= batch@.len(),
            batch@.len() == before.len(),
            masks@.len() == before.len(),
            forall|j: int| 0 <= j < k ==> #[trigger] batch@[j] == before[j].bxor(masks@[j]),
            forall|j: int| k <= j < before.len() ==> #[trigger] batch@[j] == before[j],
        decreases batch@.len() - k,
    {
        let x: u64 = batch[k].ring_xor(masks[k]);
        batch.set(k, x);
        k += 1;
    }
    assert(batch@ =~= Seq::new(masks@.len(), |j: int| before[j].bxor(masks@[j])));
}

/// The components below `t` of a share are dealt, the others are zero.
spec fn dealt_below(
    p: int,
    streams: Seq<Option<AesView>>,
    sharer: int,
    len: nat,
    k: int,
    t: int,
    share: Share5<u64>,
) -> bool {
    forall|u: int|
        0 <= u < 10 && !in_set(u, p) ==> #[trigger] part(p, share, u) == (if u < t {
            mask_at(streams, sharer, len, u, k)
        } else {
            zero::<u64>()
        })
}

/// Putting a component into a share changes that component alone.
proof fn lemma_placed(p: int, t: int, before: Share5<u64>, after: Share5<u64>, x: u64)
    requires
        0 <= p < 5,
        0 <= t < 10,
        !in_set(t, p),
        after.c@ == before.c@.update(slot_of(p, t), x),
    ensures
        part(p, after, t) == x,
        forall|u: int|
            0 <= u < 10 && !in_set(u, p) && u != t ==> #[trigger] part(p, after, u) == part(
                p,
                before,
                u,
            ),
{
    lemma_slots(p, t as nat);
    assert forall|u: int| 0 <= u < 10 && !in_set(u, p) && u != t implies #[trigger] part(
        p,
        after,
        u,
    ) == part(p, before, u) by {
        lemma_slots(p, u as nat);
        lemma_slots_differ(p, u, t);
    }
}

impl Rss5Session {
    /// First half of sharing a batch of words that `sharer` knows: five components come from the
    /// streams of their holders, and the sharer computes the correction, which goes to the two
    /// other holders of its component. The others have zero in its place.
    pub fn input_share_words(&mut self, sharer: usize, len: usize, values: Option<Vec<u64>>) -> (r: (
        Vec<Share5<u64>>,
        Option<Vec<u64>>,
    ))
        requires
            old(self).wf(),
            sharer < 5,
            (values is Some) == (old(self).topo.party == sharer),
            values is Some ==> values->0@.len() == len,
        ensures
            final(self).wf(),
            final(self).topo == old(self).topo,
            final(self)@ == old(self)@.shared_words(sharer as int, len as nat),
            (r.1 is Some) == (old(self).topo.party == sharer),
            r.1 is Some ==> (r.1->0)@ == Seq::new(
                len as nat,
                |k: int| correction(old(self)@.streams, sharer as int, values->0@, k),
            ),
            r.0@.len() == len,
            forall|k: int|
                0 <= k < len ==> dealt_share(
                    old(self)@.party,
                    old(self)@.streams,
                    sharer as int,
                    len as nat,
                    k,
                    if r.1 is Some {
                        (r.1->0)@[k]
                    } else {
                        zero::<u64>()
                    },
                    #[trigger] r.0@[k],
                ),
    {
        let p: usize = self.topo.party;
        let d: usize = corr_set(sharer);
        let own: bool = p == sharer;
        let ghost start = self@;
        let ghost words = values->0@;
        let mut corr: Vec<u64> = match values {
            Some(v) => v,
            None => Vec::new(),
        };
        let mut out: Vec<Share5<u64>> = Vec::new();
        let mut i: usize = 0;
        while i < len
            invariant
                i <= len,
                p < 5,
                out@.len() == i,
                forall|k: int|
                    0 <= k < i ==> #[trigger] out@[k] == Share5::<u64>::zero_spec(),
            decreases len - i,
        {
            out.push(Share5::zero());
            i += 1;
        }
        proof {
            assert forall|k: int| 0 <= k < len implies dealt_below(
                p as int,
                start.streams,
                sharer as int,
                len as nat,
                k,
                0,
                #[trigger] out@[k],
            ) by {
                assert(out@[k] == Share5::<u64>::zero_spec());
                assert forall|u: int| 0 <= u < 10 && !in_set(u, p as int) implies #[trigger] part(
                    p as int,
                    out@[k],
                    u,
                ) == zero::<u64>() by {
                    lemma_slots(p as int, u as nat);
                }
            }
            assert forall|k: int| own && 0 <= k < len implies #[trigger] corr@[k]
                == words[k].bxor(
                xor_all(masks_at(start.streams, sharer as int, len as nat, k), 0),
            ) by {
                lemma_xor_zero(words[k]);
            }
        }
        let mut t: usize = 0;
        while t < 10
            invariant
                t <= 10,
                p < 5,
                sharer < 5,
                d < 10,
                d == correction_set(sharer as int),
                own == (p == sharer),
                start.wf(),
                start.party == p,
                self.topo == old(self).topo,
                self.topo.wf(),
                self.topo.party == p,
                self.inv(),
                self@.pairs == start.pairs,
                self@.streams.len() == 10,
                forall|u: int|
                    0 <= u < 10 ==> #[trigger] self@.streams[u] == (if u < t && !in_set(
                        u,
                        p as int,
                    ) && masked(sharer as int, u) {
                        Some(start.streams[u]->0.after(true, len as nat))
                    } else {
                        start.streams[u]
                    }),
                out@.len() == len,
                forall|k: int|
                    0 <= k < len ==> dealt_below(
                        p as int,
                        start.streams,
                        sharer as int,
                        len as nat,
                        k,
                        t as int,
                        #[trigger] out@[k],
                    ),
                own ==> corr@.len() == len,
                forall|k: int|
                    own && 0 <= k < len ==> #[trigger] corr@[k] == words[k].bxor(
                        xor_all(
                            masks_at(start.streams, sharer as int, len as nat, k),
                            t as nat,
                        ),
                    ),
            decreases 10 - t,
        {
            let ghost old_out = out@;
            let ghost old_corr = corr@;
            let ghost here = self@.streams;
            let mut drawn: bool = false;
            assert(self.topo.local_idx@[t as int] == (if in_set(t as int, p as int) {
                None::<usize>
            } else {
                Some(slot_of(p as int, t as int) as usize)
            }));
            if let Some(slot) = self.topo.local_idx[t] {
                proof {
                    lemma_slots(p as int, t as nat);
                }
                if !set_contains(t, sharer) && t != d {
                    assert(here[t as int] == start.streams[t as int]);
                    assert(start.streams[t as int] is Some);
                    drawn = true;
                    let masks: Vec<u64> = draw_at(&mut self.streams, t, len);
                    place(&mut out, slot, masks.as_slice());
                    if own {
                        xor_into(&mut corr, masks.as_slice());
                    }
                    proof {
                        assert(masks@ == drawn_masks::<u64>(
                            start.streams[t as int]->0,
                            len as nat,
                        ));
                        assert forall|k: int| 0 <= k < len implies dealt_below(
                            p as int,
                            start.streams,
                            sharer as int,
                            len as nat,
                            k,
                            t + 1,
                            #[trigger] out@[k],
                        ) by {
                            assert(dealt_below(
                                p as int,
                                start.streams,
                                sharer as int,
                                len as nat,
                                k,
                                t as int,
                                old_out[k],
                            ));
                            lemma_placed(p as int, t as int, old_out[k], out@[k], masks@[k]);
                        }
                    }
                }
            }
            proof {
                if !drawn {
                    assert forall|k: int| 0 <= k < len implies dealt_below(
                        p as int,
                        start.streams,
                        sharer as int,
                        len as nat,
                        k,
                        t + 1,
                        #[trigger] out@[k],
                    ) by {
                        assert(dealt_below(
                            p as int,
                            start.streams,
                            sharer as int,
                            len as nat,
                            k,
                            t as int,
                            old_out[k],
                        ));
                    }
                }
                assert forall|k: int| own && 0 <= k < len implies #[trigger] corr@[k]
                    == words[k].bxor(
                    xor_all(
                        masks_at(start.streams, sharer as int, len as nat, k),
                        (t + 1) as nat,
                    ),
                ) by {
                    let m = masks_at(start.streams, sharer as int, len as nat, k);
                    assert(old_corr[k] == words[k].bxor(xor_all(m, t as nat)));
                    lemma_xor_assoc(words[k], xor_all(m, t as nat), m[t as int]);
                    lemma_xor_zero(xor_all(m, t as nat));
                }
            }
            t += 1;
        }
        proof {
            assert(self@ =~= start.shared_words(sharer as int, len as nat));
            assert(d == correction_set(sharer as int) && !in_set(d as int, sharer as int));
        }
        let ghost all = out@;
        if own {
            assert(!in_set(d as int, p as int));
            assert(self.topo.local_idx@[d as int] == Some(slot_of(p as int, d as int) as usize));
            if let Some(slot) = self.topo.local_idx[d] {
                proof {
                    lemma_slots(p as int, d as nat);
                }
                place(&mut out, slot, corr.as_slice());
            }
            proof {
                assert forall|k: int| 0 <= k < len implies dealt_share(
                    p as int,
                    start.streams,
                    sharer as int,
                    len as nat,
                    k,
                    corr@[k],
                    #[trigger] out@[k],
                ) by {
                    assert(dealt_below(
                        p as int,
                        start.streams,
                        sharer as int,
                        len as nat,
                        k,
                        10,
                        all[k],
                    ));
                    lemma_placed(p as int, d as int, all[k], out@[k], corr@[k]);
                }
                assert(corr@ =~= Seq::new(
                    len as nat,
                    |k: int| correction(start.streams, sharer as int, words, k),
                ));
            }
            (out, Some(corr))
        } else {
            proof {
                assert forall|k: int| 0 <= k < len implies dealt_share(
                    p as int,
                    start.streams,
                    sharer as int,
                    len as nat,
                    k,
                    zero::<u64>(),
                    #[trigger] out@[k],
                ) by {
                    assert(dealt_below(
                        p as int,
                        start.streams,
                        sharer as int,
                        len as nat,
                        k,
                        10,
                        all[k],
                    ));
                }
            }
            (out, None)
        }
    }
}

impl Rss5Session {
    /// Whether the party waits for the correction of a sharer.
    pub fn awaits_correction(&self, sharer: usize) -> (r: bool)
        requires
            self.wf(),
            sharer < 5,
        ensures
            r == (self@.party != sharer && !in_set(correction_set(sharer as int), self@.party)),
    {
        let to: [usize; 2] = corr_receivers(sharer);
        to[0] == self.topo.party || to[1] == self.topo.party
    }

    /// Second half of sharing a batch of words for a party that waits for the correction.
    pub fn receive_correction(
        &self,
        sharer: usize,
        shares: &mut Vec<Share5<u64>>,
        msg: &NetworkValue,
    ) -> (r: Result<(), ProtocolError>)
        requires
            self.wf(),
            sharer < 5,
            !in_set(correction_set(sharer as int), self@.party),
        ensures
            match expected_vec::<u64>(*msg, old(shares)@.len()) {
                Ok(corr) => {
                    &&& r == Ok::<(), ProtocolError>(())
                    &&& final(shares)@.len() == old(shares)@.len()
                    &&& forall|k: int|
                        0 <= k < corr.len() ==> (#[trigger] final(shares)@[k]).c@ == old(
                            shares,
                        )@[k].c@.update(
                            slot_of(self@.party, correction_set(sharer as int)),
                            corr[k],
                        )
                },
                Err(e) => {
                    &&& r == Err::<(), ProtocolError>(e)
                    &&& *final(shares) == *old(shares)
                },
            },
    {
        let corr: Vec<u64> = match recv_elems::<u64>(msg, shares.len()) {
            Ok(v) => v,
            Err(e) => {
                return Err(e);
            },
        };
        let d: usize = corr_set(sharer);
        assert(self.topo.local_idx@[d as int] == Some(slot_of(self@.party, d as int) as usize));
        if let Some(slot) = self.topo.local_idx[d] {
            proof {
                lemma_slots(self@.party, d as nat);
            }
            place(shares, slot, corr.as_slice());
        }
        Ok(())
    }

    /// The parts of the bitwise ands of two batches that the party computes.
    pub fn and_words_local(&self, x: &[Share5<u64>], y: &[Share5<u64>]) -> (r: Vec<u64>)
        requires
            self.wf(),
            x@.len() == y@.len(),
        ensures
            r@ == Seq::new(
                x@.len(),
                |k: int| and_sum(assigned(self@.party, 100), x@[k], y@[k]),
            ),
    {
        let mut out: Vec<u64> = Vec::new();
        let mut k: usize = 0;
        while k < x.len()
            invariant
                self.wf(),
                x@.len() == y@.len(),
                k <= x@.len(),
                out@.len() == k,
                forall|j: int|
                    0 <= j < k ==> #[trigger] out@[j] == and_sum(
                        assigned(self@.party, 100),
                        x@[j],
                        y@[j],
                    ),
            decreases x@.len() - k,
        {
            out.push(and_local(&self.topo, &x[k], &y[k]));
            k += 1;
        }
        assert(out@ =~= Seq::new(
            x@.len(),
            |j: int| and_sum(assigned(self@.party, 100), x@[j], y@[j]),
        ));
        out
    }
}

/// Last step of turning redistributed words into shares: the shares of the three addends together.
pub fn join_sharings(a: &[Share5<u64>], b: &[Share5<u64>], c: &[Share5<u64>]) -> (r: Vec<
    Share5<u64>,
>)
    requires
        a@.len() == b@.len(),
        a@.len() == c@.len(),
    ensures
        r@ == xor_seq(xor_seq(a@, b@), c@),
        r@.len() == a@.len(),
        forall|k: int|
            0 <= k < r@.len() ==> #[trigger] r@[k] == a@[k].xor_spec(b@[k]).xor_spec(c@[k]),
{
    let ab: Vec<Share5<u64>> = xor_vec(a, b);
    xor_vec(ab.as_slice(), c)
}

proof fn lemma_xor_all_update(s: Seq<u64>, d: int, x: u64, n: nat)
    requires
        0 <= d < s.len(),
        n <= s.len(),
        s[d] == zero::<u64>(),
    ensures
        xor_all(s.update(d, x), n) == if d < n {
            xor_all(s, n).bxor(x)
        } else {
            xor_all(s, n)
        },
    decreases n,
{
    if n > 0 {
        let k = (n - 1) as nat;
        lemma_xor_all_update(s, d, x, k);
        let a = xor_all(s, k);
        if d == n - 1 {
            lemma_xor_zero(a);
        } else if d < n - 1 {
            lemma_xor_assoc(a, x, s[n - 1]);
            lemma_xor_assoc(a, s[n - 1], x);
            lemma_xor_comm(x, s[n - 1]);
        }
    }
}

/// Receiving the correction completes a share.
pub proof fn lemma_correction_received(
    p: int,
    streams: Seq<Option<AesView>>,
    sharer: int,
    len: nat,
    k: int,
    before: Share5<u64>,
    corr: u64,
    after: Share5<u64>,
)
    requires
        0 <= p < 5,
        0 <= sharer < 5,
        !in_set(correction_set(sharer), p),
        dealt_share(p, streams, sharer, len, k, zero::<u64>(), before),
        after.c@ == before.c@.update(slot_of(p, correction_set(sharer)), corr),
    ensures
        dealt_share(p, streams, sharer, len, k, corr, after),
{
    lemma_placed(p, correction_set(sharer), before, after, corr);
    assert forall|t: int| 0 <= t < 10 && !in_set(t, p) implies #[trigger] part(p, after, t)
        == dealt_word(streams, sharer, len, t, k, corr) by {
        assert(t != correction_set(sharer) ==> part(p, after, t) == part(p, before, t));
    }
}

/// The shares of an entry of a batch fit together and share the value that the sharer put in.
pub proof fn lemma_input_sharing_correct(
    views: Seq<SessionView>,
    streams: Seq<AesView>,
    pairs: Seq<AesView>,
    sharer: int,
    values: Seq<u64>,
    k: int,
    shares: Seq<Share5<u64>>,
)
    requires
        in_step5(views, streams, pairs),
        0 <= sharer < 5,
        0 <= k < values.len(),
        shares.len() == 5,
        forall|p: int|
            0 <= p < 5 ==> dealt_share(
                p,
                views[p].streams,
                sharer,
                values.len(),
                k,
                if in_set(correction_set(sharer), p) {
                    zero::<u64>()
                } else {
                    correction(views[sharer].streams, sharer, values, k)
                },
                #[trigger] shares[p],
            ),
    ensures
        consistent5(shares),
        value5(shares) == values[k],
{
    let d = correction_set(sharer);
    let own = views[sharer].streams;
    assert(stands_at(views[sharer], sharer, streams, pairs));
    let corr = correction(own, sharer, values, k);
    let masks = masks_at(own, sharer, values.len(), k);
    let parts = masks.update(d, corr);
    assert(!masked(sharer, d) && masks[d] == zero::<u64>());
    assert forall|p: int| 0 <= p < 5 implies holds_parts(p, #[trigger] shares[p], parts) by {
        assert(stands_at(views[p], p, streams, pairs));
        assert forall|t: int| 0 <= t < 10 && !in_set(t, p) implies part(p, shares[p], t)
            == #[trigger] parts[t] by {
            if masked(sharer, t) {
                assert(views[p].streams[t] == Some(streams[t]));
                assert(own[t] == Some(streams[t]));
            }
        }
    }
    lemma_common_parts(shares, parts);
    lemma_xor_all_update(masks, d, corr, 10);
    let x = xor_all(masks, 10);
    lemma_xor_comm(x, corr);
    lemma_xor_assoc(values[k], x, x);
    lemma_xor_zero(x);
    lemma_xor_zero(values[k]);
}

/// The streams of the components after a batch was shared.
pub open spec fn streams_shared(streams: Seq<AesView>, sharer: int, len: nat) -> Seq<AesView> {
    Seq::new(
        10,
        |t: int|
            if masked(sharer, t) {
                streams[t].after(true, len)
            } else {
                streams[t]
            },
    )
}

/// Sharing a batch keeps the parties in step.
pub proof fn lemma_input_sharing_in_step(
    views: Seq<SessionView>,
    streams: Seq<AesView>,
    pairs: Seq<AesView>,
    sharer: int,
    len: nat,
)
    requires
        in_step5(views, streams, pairs),
    ensures
        in_step5(
            Seq::new(5, |p: int| views[p].shared_words(sharer, len)),
            streams_shared(streams, sharer, len),
            pairs,
        ),
{
    let after = Seq::new(5, |p: int| views[p].shared_words(sharer, len));
    let moved = streams_shared(streams, sharer, len);
    assert forall|p: int| 0 <= p < 5 implies stands_at(#[trigger] after[p], p, moved, pairs) by {
        assert(stands_at(views[p], p, streams, pairs));
        let v = after[p];
        assert forall|t: int| 0 <= t < 10 implies (#[trigger] v.streams[t] is Some) == !in_set(t, p)
            && (!in_set(t, p) ==> v.streams[t] == Some(moved[t])) by {
            assert((views[p].streams[t] is Some) == !in_set(t, p));
        }
        assert(v.pairs == views[p].pairs);
    }
}

/// Words that five parties hold parts of, once redistributed and shared again, are shared by the
/// five parties.
pub proof fn lemma_reshare5_correct(
    views: Seq<SessionView>,
    streams: Seq<AesView>,
    pairs: Seq<AesView>,
    z: Seq<Seq<u64>>,
    r: Seq<Redistributed<u64>>,
    a: Seq<Share5<u64>>,
    b: Seq<Share5<u64>>,
    c: Seq<Share5<u64>>,
    k: int,
)
    requires
        in_step5(views, streams, pairs),
        z.len() == 5,
        forall|p: int| 0 <= p < 5 ==> 0 <= k < (#[trigger] z[p]).len() == z[0].len(),
        forall|p: int|
            0 <= p < 5 ==> views[p].redistributes(ShareType::Boolean, z[p], #[trigger] r[p]),
        consistent5(a),
        consistent5(b),
        consistent5(c),
        value5(a) == addend(ShareType::Boolean, r, 0, k),
        value5(b) == addend(ShareType::Boolean, r, 1, k),
        value5(c) == addend(ShareType::Boolean, r, 2, k),
    ensures
        consistent5(joined_shares(a, b, c)),
        value5(joined_shares(a, b, c)) == xor_all(Seq::new(5, |p: int| z[p][k]), 5),
{
    let ab = Seq::new(5, |p: int| a[p].xor_spec(b[p]));
    lemma_xor5_value(a, b);
    lemma_xor5_value(ab, c);
    assert(joined_shares(a, b, c) =~= Seq::new(5, |p: int| ab[p].xor_spec(c[p])));
    lemma_redistribution_correct(ShareType::Boolean, views, streams, pairs, z, r, k);
    let d = Seq::new(5, |p: int| z[p][k]);
    lemma_xor_zero(d[0]);
    reveal_with_fuel(xor_all, 6);
    assert(xor_all(d, 5) == all_five(ShareType::Boolean, d));
}

/// The shares of three batches together, party by party.
pub open spec fn joined_shares(
    a: Seq<Share5<u64>>,
    b: Seq<Share5<u64>>,
    c: Seq<Share5<u64>>,
) -> Seq<Share5<u64>> {
    Seq::new(5, |p: int| a[p].xor_of(b[p]).xor_of(c[p]))
}

/// The parts of a bitwise and, once redistributed and shared again, share the bitwise and.
pub proof fn lemma_and_words_correct(
    views: Seq<SessionView>,
    streams: Seq<AesView>,
    pairs: Seq<AesView>,
    x: Seq<Share5<u64>>,
    y: Seq<Share5<u64>>,
    z: Seq<Seq<u64>>,
    r: Seq<Redistributed<u64>>,
    a: Seq<Share5<u64>>,
    b: Seq<Share5<u64>>,
    c: Seq<Share5<u64>>,
    k: int,
)
    requires
        in_step5(views, streams, pairs),
        consistent5(x),
        consistent5(y),
        z.len() == 5,
        forall|p: int| 0 <= p < 5 ==> 0 <= k < (#[trigger] z[p]).len() == z[0].len(),
        forall|p: int|
            0 <= p < 5 ==> (#[trigger] z[p])[k] == and_sum(assigned(p, 100), x[p], y[p]),
        forall|p: int|
            0 <= p < 5 ==> views[p].redistributes(ShareType::Boolean, z[p], #[trigger] r[p]),
        consistent5(a),
        consistent5(b),
        consistent5(c),
        value5(a) == addend(ShareType::Boolean, r, 0, k),
        value5(b) == addend(ShareType::Boolean, r, 1, k),
        value5(c) == addend(ShareType::Boolean, r, 2, k),
    ensures
        consistent5(joined_shares(a, b, c)),
        value5(joined_shares(a, b, c)) == value5(x).band(value5(y)),
{
    lemma_reshare5_correct(views, streams, pairs, z, r, a, b, c, k);
    lemma_and_local_correct(x, y);
    assert(Seq::new(5, |p: int| z[p][k]) =~= Seq::new(
        5,
        |p: int| and_sum(assigned(p, 100), x[p], y[p]),
    ));
}

} // verus!
