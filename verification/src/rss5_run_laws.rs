//! What five parties compute together: whole runs, from the shares that they begin with to the bits
//! that they open.

use crate::aes_stream::{AesDraw, AesView};
use crate::bit_slice::words_for;
use crate::dealer_5pc::ShareType;
use crate::matrix::rectangular;
use crate::message::{NetworkValue, ProtocolError};
use crate::ops::signed16;
use crate::planes::{flat, xor_seq};
use crate::ring::{bit_of, IntRing2k};
use crate::ring_lemmas::{bit, lemma_absorb, zero};
use crate::rss5::{
    and_sum, assigned, consistent5, correction_set, in_set, slot_of, value5, Share5,
};
use crate::rss5_adder::{holds_planes, lemma_flat_rect, MsbExtraction};
use crate::rss5_adder_laws::{
    all_carry, all_u, all_v, all_values, lemma_addends_on_track, lemma_track_result,
    lemma_track_step, lemma_xor_word, on_track, plane_word, planes_fit, products_right,
    shares_planes, value_planes, Planes5,
};
use crate::rss5_open::{delivered, held, lemma_open5_correct, opened_words, providers_before};
use crate::rss5_session::{
    addend, in_step5, lemma_redistribution_correct, lemma_redistribution_in_step,
    pairs_redistributed, Redistributed, SessionView,
};
use crate::rss5_words::{
    correction, dealt_share, joined_shares, lemma_and_words_correct, lemma_correction_received,
    lemma_input_sharing_correct, lemma_input_sharing_in_step, streams_shared,
};
use crate::shares::XorShare;
use vstd::arithmetic::div_mod::*;
use vstd::prelude::*;

verus! {

/// The shares that five parties hold of a batch of words.
pub type Batch5 = Seq<Seq<Share5<u64>>>;

/// The shares of one word.
pub open spec fn word_at(x: Batch5, k: int) -> Seq<Share5<u64>> {
    Seq::new(5, |p: int| x[p][k])
}

/// All parties hold shares of `len` words.
pub open spec fn as_long(x: Batch5, len: nat) -> bool {
    &&& x.len() == 5
    &&& forall|p: int| 0 <= p < 5 ==> (#[trigger] x[p]).len() == len
}

/// The five sessions and the streams that they share.
pub struct Five {
    pub views: Seq<SessionView>,
    pub streams: Seq<AesView>,
    pub pairs: Seq<AesView>,
}

impl Five {
    /// The sessions stand at the positions of the streams.
    pub open spec fn in_step(self) -> bool {
        in_step5(self.views, self.streams, self.pairs)
    }

    /// The sessions after a redistribution.
    pub open spec fn redistributed<T: AesDraw>(self, n: nat) -> Five {
        Five {
            views: Seq::new(5, |p: int| self.views[p].redistributed::<T>(n)),
            streams: self.streams,
            pairs: pairs_redistributed::<T>(self.pairs, n),
        }
    }

    /// The sessions after a batch was shared.
    pub open spec fn shared(self, sharer: int, len: nat) -> Five {
        Five {
            views: Seq::new(5, |p: int| self.views[p].shared_words(sharer, len)),
            streams: streams_shared(self.streams, sharer, len),
            pairs: self.pairs,
        }
    }

    /// The sessions after the redistribution and the first `j` sharings of a round of ands.
    pub open spec fn in_round(self, j: int, n: nat) -> Five {
        let start = self.redistributed::<u64>(n);
        if j == 0 {
            start
        } else if j == 1 {
            start.shared(0, n)
        } else if j == 2 {
            start.shared(0, n).shared(1, n)
        } else {
            start.shared(0, n).shared(1, n).shared(2, n)
        }
    }
}

/// Sharing a batch of words: what the parties have after the first half, and once the correction
/// has reached those who lack it.
pub struct Sharing {
    pub first: Batch5,
    pub shares: Batch5,
}

impl Sharing {
    /// What party `p` does.
    pub open spec fn party_ran(self, five: Five, sharer: int, values: Seq<u64>, p: int) -> bool {
        let n = values.len();
        let own = five.views[p].streams;
        let sent = five.views[sharer].streams;
        &&& self.first[p].len() == n
        &&& self.shares[p].len() == n
        &&& forall|k: int|
            0 <= k < n ==> dealt_share(
                p,
                own,
                sharer,
                n,
                k,
                if p == sharer {
                    correction(own, sharer, values, k)
                } else {
                    zero::<u64>()
                },
                #[trigger] self.first[p][k],
            )
        &&& forall|k: int|
            0 <= k < n ==> if p != sharer && !in_set(correction_set(sharer), p) {
                (#[trigger] self.shares[p][k]).c@ == self.first[p][k].c@.update(
                    slot_of(p, correction_set(sharer)),
                    correction(sent, sharer, values, k),
                )
            } else {
                self.shares[p][k] == self.first[p][k]
            }
    }

    /// Party `sharer` shared its words with all parties.
    pub open spec fn ran(self, five: Five, sharer: int, values: Seq<u64>) -> bool {
        &&& self.first.len() == 5
        &&& self.shares.len() == 5
        &&& forall|p: int|
            0 <= p < 5 ==> #[trigger] five.views[p].party == p && self.party_ran(
                five,
                sharer,
                values,
                p,
            )
    }
}

/// A batch that was shared stands for the words of the sharer, and the parties stay in step.
pub proof fn lemma_sharing_correct(five: Five, sharer: int, values: Seq<u64>, run: Sharing)
    requires
        five.in_step(),
        0 <= sharer < 5,
        run.ran(five, sharer, values),
    ensures
        as_long(run.shares, values.len()),
        forall|k: int|
            0 <= k < values.len() ==> consistent5(#[trigger] word_at(run.shares, k)) && value5(
                word_at(run.shares, k),
            ) == values[k],
        five.shared(sharer, values.len()).in_step(),
{
    let n = values.len();
    lemma_input_sharing_in_step(five.views, five.streams, five.pairs, sharer, n);
    assert forall|p: int| 0 <= p < 5 implies (#[trigger] run.shares[p]).len() == n by {
        assert(five.views[p].party == p);
    }
    assert forall|k: int| 0 <= k < n implies consistent5(#[trigger] word_at(run.shares, k))
        && value5(word_at(run.shares, k)) == values[k] by {
        let shares = word_at(run.shares, k);
        assert forall|p: int| 0 <= p < 5 implies dealt_share(
            p,
            five.views[p].streams,
            sharer,
            n,
            k,
            if in_set(correction_set(sharer), p) {
                zero::<u64>()
            } else {
                correction(five.views[sharer].streams, sharer, values, k)
            },
            #[trigger] shares[p],
        ) by {
            assert(five.views[p].party == p);
            assert(run.party_ran(five, sharer, values, p));
            let first = run.first[p][k];
            assert(shares[p] == run.shares[p][k]);
            assert(!in_set(correction_set(sharer), sharer));
            if p != sharer && !in_set(correction_set(sharer), p) {
                lemma_correction_received(
                    p,
                    five.views[p].streams,
                    sharer,
                    n,
                    k,
                    first,
                    correction(five.views[sharer].streams, sharer, values, k),
                    shares[p],
                );
            }
        }
        lemma_input_sharing_correct(
            five.views,
            five.streams,
            five.pairs,
            sharer,
            values,
            k,
            shares,
        );
    }
}

/// The addends of one of the first three parties after a redistribution.
pub open spec fn addends<T: IntRing2k>(
    kind: ShareType,
    r: Seq<Redistributed<T>>,
    j: int,
    n: nat,
) -> Seq<T> {
    Seq::new(n, |k: int| addend(kind, r, j, k))
}

/// The parts of the bitwise and of two batches that the parties compute on their own.
pub open spec fn local_ands(x: Batch5, y: Batch5) -> Seq<Seq<u64>> {
    Seq::new(
        5,
        |p: int|
            Seq::new(x[p].len(), |k: int| and_sum(assigned(p, 100), x[p][k], y[p][k])),
    )
}

/// A round of bitwise ands: the redistribution of the parts, and the sharings of the first three
/// parties.
pub struct AndRun {
    pub r: Seq<Redistributed<u64>>,
    pub sharings: (Sharing, Sharing, Sharing),
}

impl AndRun {
    /// The parties ran the round on two batches and end with a third one.
    pub open spec fn ran(self, five: Five, x: Batch5, y: Batch5, out: Batch5) -> bool {
        let n = x[0].len();
        let (a, b, c) = self.sharings;
        &&& forall|p: int|
            0 <= p < 5 ==> five.views[p].redistributes(
                ShareType::Boolean,
                local_ands(x, y)[p],
                #[trigger] self.r[p],
            )
        &&& a.ran(five.in_round(0, n), 0, addends(ShareType::Boolean, self.r, 0, n))
        &&& b.ran(five.in_round(1, n), 1, addends(ShareType::Boolean, self.r, 1, n))
        &&& c.ran(five.in_round(2, n), 2, addends(ShareType::Boolean, self.r, 2, n))
        &&& out.len() == 5
        &&& forall|p: int|
            0 <= p < 5 ==> #[trigger] out[p] == xor_seq(
                xor_seq(a.shares[p], b.shares[p]),
                c.shares[p],
            )
    }
}

/// What a round of ands needs and gives besides the words: the batches are of one length, and the
/// parties stay in step.
proof fn lemma_and_run_steps(five: Five, x: Batch5, y: Batch5, run: AndRun, out: Batch5, n: nat)
    requires
        five.in_step(),
        as_long(x, n),
        as_long(y, n),
        run.ran(five, x, y, out),
    ensures
        as_long(out, n),
        as_long(run.sharings.0.shares, n),
        as_long(run.sharings.1.shares, n),
        as_long(run.sharings.2.shares, n),
        forall|k: int|
            0 <= k < n ==> consistent5(#[trigger] word_at(run.sharings.0.shares, k)) && value5(
                word_at(run.sharings.0.shares, k),
            ) == addend(ShareType::Boolean, run.r, 0, k),
        forall|k: int|
            0 <= k < n ==> consistent5(#[trigger] word_at(run.sharings.1.shares, k)) && value5(
                word_at(run.sharings.1.shares, k),
            ) == addend(ShareType::Boolean, run.r, 1, k),
        forall|k: int|
            0 <= k < n ==> consistent5(#[trigger] word_at(run.sharings.2.shares, k)) && value5(
                word_at(run.sharings.2.shares, k),
            ) == addend(ShareType::Boolean, run.r, 2, k),
        five.in_round(3, n).in_step(),
{
    let (a, b, c) = run.sharings;
    assert(x[0].len() == n);
    lemma_redistribution_in_step::<u64>(five.views, five.streams, five.pairs, n);
    lemma_sharing_correct(
        five.in_round(0, n),
        0,
        addends(ShareType::Boolean, run.r, 0, n),
        a,
    );
    lemma_sharing_correct(
        five.in_round(1, n),
        1,
        addends(ShareType::Boolean, run.r, 1, n),
        b,
    );
    lemma_sharing_correct(
        five.in_round(2, n),
        2,
        addends(ShareType::Boolean, run.r, 2, n),
        c,
    );
    assert forall|p: int| 0 <= p < 5 implies (#[trigger] out[p]).len() == n by {
        assert(a.shares[p].len() == n);
    }
}

/// A round of ands is right in every word whose shares fit together, and the parties stay in step.
pub proof fn lemma_and_run_correct(
    five: Five,
    x: Batch5,
    y: Batch5,
    run: AndRun,
    out: Batch5,
    n: nat,
    k: int,
)
    requires
        five.in_step(),
        as_long(x, n),
        as_long(y, n),
        0 <= k < n,
        consistent5(word_at(x, k)),
        consistent5(word_at(y, k)),
        run.ran(five, x, y, out),
    ensures
        as_long(out, n),
        consistent5(word_at(out, k)),
        value5(word_at(out, k)) == value5(word_at(x, k)).band(value5(word_at(y, k))),
        five.in_round(3, n).in_step(),
{
    lemma_and_run_steps(five, x, y, run, out, n);
    let (s0, s1, s2) = run.sharings;
    let (a, b, c) = (word_at(s0.shares, k), word_at(s1.shares, k), word_at(s2.shares, k));
    let z = local_ands(x, y);
    assert forall|p: int| 0 <= p < 5 implies 0 <= k < (#[trigger] z[p]).len() == z[0].len() by {
        assert(x[p].len() == n && x[0].len() == n);
    }
    assert forall|p: int| 0 <= p < 5 implies (#[trigger] z[p])[k] == and_sum(
        assigned(p, 100),
        word_at(x, k)[p],
        word_at(y, k)[p],
    ) by {
        assert(x[p].len() == n);
    }
    lemma_and_words_correct(
        five.views,
        five.streams,
        five.pairs,
        word_at(x, k),
        word_at(y, k),
        z,
        run.r,
        a,
        b,
        c,
        k,
    );
    assert forall|p: int| 0 <= p < 5 implies #[trigger] joined_shares(a, b, c)[p] == word_at(
        out,
        k,
    )[p] by {
        assert(s0.shares[p].len() == n && s1.shares[p].len() == n && s2.shares[p].len() == n);
        assert(out[p] == xor_seq(xor_seq(s0.shares[p], s1.shares[p]), s2.shares[p]));
    }
    assert(joined_shares(a, b, c) =~= word_at(out, k));
}

/// The planes of every party one after the other.
pub open spec fn flats(x: Planes5) -> Batch5 {
    Seq::new(5, |p: int| flat(x[p], x[p].len()))
}

/// Planes of equal length that were cut out of a vector.
pub open spec fn cut<S>(words: Seq<S>, planes: nat, width: nat, r: Seq<Vec<S>>) -> bool {
    &&& r.len() == planes
    &&& rectangular(r, width)
    &&& forall|j: int, w: int|
        0 <= j < planes && 0 <= w < width ==> #[trigger] r[j]@[w] == words[j * width + w]
}

/// The rounds of an extraction: `states[t]` stands before round `t`.
pub struct ExtractionRun {
    pub states: Seq<Seq<MsbExtraction<Share5<u64>>>>,
    pub lhs: Seq<Planes5>,
    pub rhs: Seq<Planes5>,
    pub ands: Seq<AndRun>,
    pub outs: Seq<Batch5>,
    pub products: Seq<Planes5>,
}

impl ExtractionRun {
    /// The sessions before round `t`.
    pub open spec fn at(self, five: Five, t: nat) -> Five
        decreases t,
    {
        if t == 0 {
            five
        } else {
            self.at(five, (t - 1) as nat).in_round(3, flats(self.lhs[t - 1])[0].len())
        }
    }

    /// What party `p` does in round `t`, besides the ands.
    pub open spec fn party_ran(self, words: nat, t: int, p: int) -> bool {
        let (before, after) = (self.states[t][p], self.states[t + 1][p]);
        let products = self.products[t][p];
        &&& before.asks(self.lhs[t][p], self.rhs[t][p])
        &&& cut(self.outs[t][p], self.lhs[t][p].len(), words, products)
        &&& after.wf()
        &&& after.words == words
        &&& before.advances(products, after)
    }

    /// Round `t`.
    pub open spec fn round_ran(self, five: Five, words: nat, t: int) -> bool {
        &&& !self.states[t][0].done()
        &&& self.states[t + 1].len() == 5
        &&& self.lhs[t].len() == 5
        &&& self.rhs[t].len() == 5
        &&& self.products[t].len() == 5
        &&& self.ands[t].ran(
            self.at(five, t as nat),
            flats(self.lhs[t]),
            flats(self.rhs[t]),
            self.outs[t],
        )
        &&& forall|p: int|
            0 <= p < 5 ==> (#[trigger] self.states[t][p]).words == words && self.party_ran(
                words,
                t,
                p,
            )
    }

    /// The parties ran the rounds until all were over, and end with the given shares.
    pub open spec fn ran(self, five: Five, words: nat, msb: Batch5) -> bool {
        let last = self.states.last();
        &&& self.states.len() >= 1
        &&& forall|t: int|
            0 <= t < self.states.len() - 1 ==> #[trigger] self.round_ran(five, words, t)
        &&& last[0].done()
        &&& msb.len() == 5
        &&& forall|p: int|
            0 <= p < 5 ==> #[trigger] msb[p] == xor_seq(
                xor_seq(last[p].chain->0.u@[15]@, last[p].chain->0.v@[15]@),
                last[p].chain->0.carry@,
            )
    }
}

/// What a round multiplies has the same shape for all parties.
proof fn lemma_asked_shape(
    ms: Seq<MsbExtraction<Share5<u64>>>,
    lhs: Planes5,
    rhs: Planes5,
    words: nat,
    w: int,
    i: nat,
    target: int,
)
    requires
        on_track(ms, words, w, i, target),
        forall|p: int| 0 <= p < 5 ==> (#[trigger] ms[p]).asks(lhs[p], rhs[p]),
    ensures
        forall|p: int|
            0 <= p < 5 ==> (#[trigger] lhs[p]).len() == ms[0].round_planes() && rectangular(
                lhs[p],
                words,
            ),
        forall|p: int|
            0 <= p < 5 ==> (#[trigger] rhs[p]).len() == ms[0].round_planes() && rectangular(
                rhs[p],
                words,
            ),
{
    assert forall|p: int| 0 <= p < 5 implies lhs[p].len() == ms[0].round_planes() && rectangular(
        lhs[p],
        words,
    ) && rhs[p].len() == ms[0].round_planes() && rectangular(#[trigger] rhs[p], words) by {
        assert(ms[p].asks(lhs[p], rhs[p]));
        assert(ms[p].wf() && ms[p].words == words);
        if ms[0].chain is None {
            let n = ms[0].values@.len();
            assert(all_values(ms)[p].len() == n);
        }
    }
    assert forall|p: int| 0 <= p < 5 implies (#[trigger] lhs[p]).len() == ms[0].round_planes()
        && rectangular(lhs[p], words) by {
        assert(rectangular(rhs[p], words));
    }
}

/// What a round multiplies fits together.
proof fn lemma_asked_fits(
    ms: Seq<MsbExtraction<Share5<u64>>>,
    lhs: Planes5,
    rhs: Planes5,
    words: nat,
    w: int,
    i: nat,
    target: int,
    m: int,
)
    requires
        0 <= w < words,
        i < 64,
        on_track(ms, words, w, i, target),
        !ms[0].done(),
        forall|p: int| 0 <= p < 5 ==> (#[trigger] ms[p]).asks(lhs[p], rhs[p]),
        0 <= m < ms[0].round_planes(),
    ensures
        consistent5(plane_word(lhs, m, w)),
        consistent5(plane_word(rhs, m, w)),
{
    let (lw, rw) = (plane_word(lhs, m, w), plane_word(rhs, m, w));
    if ms[0].chain is None {
        let values = all_values(ms);
        let n = ms[0].values@.len();
        let (j, b) = (3 * (m / 15), m % 15);
        assert(0 <= j && j + 2 < n);
        let (x, y, z) = (
            plane_word(value_planes(values, j), b, w),
            plane_word(value_planes(values, j + 1), b, w),
            plane_word(value_planes(values, j + 2), b, w),
        );
        assert(planes_fit(value_planes(values, j), 16, w));
        assert(planes_fit(value_planes(values, j + 1), 16, w));
        assert(planes_fit(value_planes(values, j + 2), 16, w));
        assert forall|p: int| 0 <= p < 5 implies #[trigger] lw[p] == x[p].xor_of(z[p]) && rw[p]
            == y[p].xor_of(z[p]) by {
            assert(ms[p].asks(lhs[p], rhs[p]));
            assert(ms[p].wf() && ms[p].words == words);
            assert(all_values(ms)[p].len() == n);
            let vals = ms[p].values@;
            assert(vals[j]@.len() == 16 && rectangular(vals[j]@, words));
            assert(vals[j + 1]@.len() == 16 && rectangular(vals[j + 1]@, words));
            assert(vals[j]@[b]@.len() == words && vals[j + 1]@[b]@.len() == words);
            assert(lhs[p][m]@ == xor_seq(vals[j]@[b]@, vals[j + 2]@[b]@));
            assert(rhs[p][m]@ == xor_seq(vals[j + 1]@[b]@, vals[j + 2]@[b]@));
        }
        lemma_xor_word(x, z, lw, i);
        assert forall|p: int| 0 <= p < 5 implies #[trigger] rw[p] == y[p].xor_of(z[p]) by {
            assert(lw[p] == x[p].xor_of(z[p]));
        }
        lemma_xor_word(y, z, rw, i);
    } else {
        let at = ms[0].chain->0.at as int;
        let (u, v, c) = (
            plane_word(all_u(ms), at, w),
            plane_word(all_v(ms), at, w),
            all_carry(ms, w),
        );
        assert(m == 0);
        assert(ms[0].wf());
        assert forall|p: int| 0 <= p < 5 implies #[trigger] lw[p] == u[p].xor_of(c[p]) && rw[p]
            == v[p].xor_of(c[p]) by {
            assert(ms[p].asks(lhs[p], rhs[p]));
            assert(ms[p].wf() && ms[p].words == words);
            let chain = ms[p].chain->0;
            assert(chain.at == at);
            assert(chain.u@[at]@.len() == words && chain.v@[at]@.len() == words);
        }
        lemma_xor_word(u, c, lw, i);
        assert forall|p: int| 0 <= p < 5 implies #[trigger] rw[p] == v[p].xor_of(c[p]) by {
            assert(lw[p] == u[p].xor_of(c[p]));
        }
        lemma_xor_word(v, c, rw, i);
    }
}

/// A plane among others that stand one after the other.
proof fn lemma_flat_word(x: Planes5, planes: nat, words: nat, m: int, w: int)
    requires
        x.len() == 5,
        forall|p: int|
            0 <= p < 5 ==> (#[trigger] x[p]).len() == planes && rectangular(x[p], words),
        0 <= m < planes,
        0 <= w < words,
    ensures
        as_long(flats(x), planes * words),
        0 <= m * words + w < planes * words,
        word_at(flats(x), m * words + w) == plane_word(x, m, w),
{
    let k = m * words + w;
    assert(0 <= k < planes * words) by (nonlinear_arith)
        requires
            k == m * words + w,
            0 <= m < planes,
            0 <= w < words,
    ;
    lemma_fundamental_div_mod_converse(k, words as int, m, w);
    assert forall|p: int| 0 <= p < 5 implies (#[trigger] flats(x)[p]).len() == planes * words
        && flats(x)[p][k] == x[p][m]@[w] by {
        assert(x[p].len() == planes);
        lemma_flat_rect(x[p], words, planes);
    }
    assert(word_at(flats(x), k) =~= plane_word(x, m, w));
}

/// The products of a round are right in one word.
proof fn lemma_round_right(
    five: Five,
    ms: Seq<MsbExtraction<Share5<u64>>>,
    lhs: Planes5,
    rhs: Planes5,
    and: AndRun,
    out: Batch5,
    products: Planes5,
    words: nat,
    w: int,
    i: nat,
    target: int,
)
    requires
        five.in_step(),
        0 <= w < words,
        i < 64,
        on_track(ms, words, w, i, target),
        !ms[0].done(),
        lhs.len() == 5 && rhs.len() == 5 && products.len() == 5,
        forall|p: int| 0 <= p < 5 ==> (#[trigger] ms[p]).asks(lhs[p], rhs[p]),
        and.ran(five, flats(lhs), flats(rhs), out),
        forall|p: int| 0 <= p < 5 ==> cut(out[p], lhs[p].len(), words, #[trigger] products[p]),
    ensures
        products_right(lhs, rhs, products, ms[0].round_planes(), w),
        forall|p: int| 0 <= p < 5 ==> rectangular(#[trigger] products[p], words),
        five.in_round(3, flats(lhs)[0].len()).in_step(),
{
    let planes = ms[0].round_planes();
    let n = planes * words;
    lemma_asked_shape(ms, lhs, rhs, words, w, i, target);
    assert(planes >= 1) by {
        assert(ms[0].wf());
    }
    lemma_flat_word(lhs, planes, words, 0, w);
    lemma_flat_word(rhs, planes, words, 0, w);
    assert(flats(lhs)[0].len() == n);
    lemma_and_run_steps(five, flats(lhs), flats(rhs), and, out, n);
    assert forall|p: int| 0 <= p < 5 implies (#[trigger] products[p]).len() == planes by {
        assert(lhs[p].len() == planes);
        assert(cut(out[p], lhs[p].len(), words, products[p]));
    }
    assert forall|m: int| 0 <= m < planes implies consistent5(#[trigger] plane_word(products, m, w))
        && value5(plane_word(products, m, w)) == value5(plane_word(lhs, m, w)).band(
        value5(plane_word(rhs, m, w)),
    ) by {
        let k = m * words + w;
        lemma_flat_word(lhs, planes, words, m, w);
        lemma_flat_word(rhs, planes, words, m, w);
        lemma_asked_fits(ms, lhs, rhs, words, w, i, target, m);
        lemma_and_run_correct(five, flats(lhs), flats(rhs), and, out, n, k);
        assert forall|p: int| 0 <= p < 5 implies #[trigger] plane_word(products, m, w)[p]
            == word_at(out, k)[p] by {
            assert(lhs[p].len() == planes);
            assert(cut(out[p], lhs[p].len(), words, products[p]));
            assert(products[p][m]@[w] == out[p][m * words + w]);
        }
        assert(plane_word(products, m, w) =~= word_at(out, k));
    }
}

/// The parties stay on track and in step through the rounds.
proof fn lemma_rounds_on_track(
    five: Five,
    run: ExtractionRun,
    words: nat,
    msb: Batch5,
    w: int,
    i: nat,
    target: int,
    t: nat,
)
    requires
        five.in_step(),
        0 <= w < words,
        i < 64,
        run.ran(five, words, msb),
        on_track(run.states[0], words, w, i, target),
        t < run.states.len(),
    ensures
        on_track(run.states[t as int], words, w, i, target),
        run.at(five, t).in_step(),
    decreases t,
{
    if t > 0 {
        let k = t - 1;
        lemma_rounds_on_track(five, run, words, msb, w, i, target, k as nat);
        assert(run.round_ran(five, words, k));
        let (ms, after) = (run.states[k], run.states[k + 1]);
        let (lhs, rhs, products) = (run.lhs[k], run.rhs[k], run.products[k]);
        assert forall|p: int| 0 <= p < 5 implies run.party_ran(words, k, p) by {
            assert(run.states[k][p].words == words);
        }
        assert forall|p: int| 0 <= p < 5 implies (#[trigger] ms[p]).asks(lhs[p], rhs[p]) by {
            assert(run.party_ran(words, k, p));
        }
        assert forall|p: int| 0 <= p < 5 implies cut(
            run.outs[k][p],
            lhs[p].len(),
            words,
            #[trigger] products[p],
        ) by {
            assert(run.party_ran(words, k, p));
        }
        lemma_round_right(
            run.at(five, k as nat),
            ms,
            lhs,
            rhs,
            run.ands[k],
            run.outs[k],
            products,
            words,
            w,
            i,
            target,
        );
        assert forall|p: int| 0 <= p < 5 implies (#[trigger] after[p]).wf() && after[p].words
            == words && ms[p].advances(products[p], after[p]) by {
            assert(run.party_ran(words, k, p));
        }
        lemma_track_step(ms, lhs, rhs, products, after, words, w, i, target);
    }
}

/// An extraction of parties on track gives the top bit.
pub proof fn lemma_extraction_correct(
    five: Five,
    run: ExtractionRun,
    words: nat,
    msb: Batch5,
    w: int,
    i: nat,
    target: int,
)
    requires
        five.in_step(),
        0 <= w < words,
        i < 64,
        run.ran(five, words, msb),
        on_track(run.states[0], words, w, i, target),
    ensures
        as_long(msb, words),
        consistent5(word_at(msb, w)),
        bit(value5(word_at(msb, w)), i) == bit_of(target, 15),
{
    let last = run.states.last();
    let t = (run.states.len() - 1) as nat;
    lemma_rounds_on_track(five, run, words, msb, w, i, target, t);
    assert(last == run.states[t as int]);
    assert forall|p: int| 0 <= p < 5 implies (#[trigger] msb[p]).len() == words by {
        assert(last[p].wf() && last[p].words == words);
        assert(last[p].chain->0.u@[15]@.len() == words);
    }
    lemma_track_result(last, word_at(msb, w), words, w, i, target);
}

/// A comparison of sums with zero: the redistribution of the shares, the bit planes of the three
/// addends and their sharings, the extraction of the top bits, and the messages of the opening.
pub struct SignRun {
    pub r: Seq<Redistributed<u16>>,
    pub planes: Seq<Seq<u64>>,
    pub sharings: Seq<Sharing>,
    pub extraction: ExtractionRun,
    pub msb: Batch5,
    pub msgs: Seq<Seq<NetworkValue>>,
}

impl SignRun {
    /// The addends of party `j` after a public value was subtracted from the sums.
    pub open spec fn addends_of(self, j: int, n: nat, rhs: u16) -> Seq<u16> {
        let own = addends(ShareType::Arithmetic, self.r, j, n);
        if j == 0 {
            own.map_values(|v: u16| u16::of_int(v.val() - rhs.val()))
        } else {
            own
        }
    }

    /// The sessions after the redistribution and the first `j` sharings.
    pub open spec fn at(self, five: Five, n: nat, j: nat) -> Five
        decreases j,
    {
        if j == 0 {
            five.redistributed::<u16>(n)
        } else {
            self.at(five, n, (j - 1) as nat).shared(j - 1, 16 * words_for(n))
        }
    }

    /// What party `p` starts the extraction with: the planes of the three addends.
    pub open spec fn started(self, n: nat, p: int) -> bool {
        let state = self.extraction.states[0][p];
        &&& state.wf()
        &&& state.words == words_for(n)
        &&& state.chain is None
        &&& state.values@.len() == 3
        &&& forall|j: int|
            0 <= j < 3 ==> cut(
                self.sharings[j].shares[p],
                16,
                words_for(n),
                (#[trigger] state.values@[j])@,
            )
    }

    /// What party `p` opens.
    pub open spec fn opened(self, n: nat, p: int) -> Result<Seq<bool>, ProtocolError> {
        let own = Seq::new(self.msb[p].len(), |k: int| held(p, self.msb[p][k], 10));
        if self.msgs[p].len() != providers_before(p, 5) {
            Err(ProtocolError::LengthMismatch)
        } else {
            match opened_words(p, own, self.msgs[p], 5) {
                Err(e) => Err(e),
                Ok(words) => Ok(Seq::new(n, |i: int| bit(words[i / 64], (i % 64) as nat))),
            }
        }
    }

    /// The parties redistributed their shares, subtracted a public value and compared with zero.
    pub open spec fn ran(self, five: Five, items: Seq<Seq<u16>>, rhs: u16, n: nat) -> bool {
        &&& forall|p: int|
            0 <= p < 5 ==> five.views[p].redistributes(
                ShareType::Arithmetic,
                items[p],
                #[trigger] self.r[p],
            )
        &&& self.planes.len() == 3
        &&& self.sharings.len() == 3
        &&& forall|j: int|
            0 <= j < 3 ==> holds_planes(#[trigger] self.planes[j], self.addends_of(j, n, rhs))
                && self.sharings[j].ran(self.at(five, n, j as nat), j, self.planes[j])
        &&& self.extraction.states[0].len() == 5
        &&& forall|p: int| 0 <= p < 5 ==> #[trigger] self.started(n, p)
        &&& self.extraction.ran(self.at(five, n, 3), words_for(n), self.msb)
        &&& forall|p: int|
            0 <= p < 5 ==> (#[trigger] self.msgs[p]).len() == providers_before(p, 5) && delivered(
                p,
                self.msb,
                self.msgs[p],
                5,
            )
    }
}

/// The sharings of the addends are right, and the parties stay in step.
proof fn lemma_addends_shared(
    five: Five,
    items: Seq<Seq<u16>>,
    rhs: u16,
    run: SignRun,
    n: nat,
    j: nat,
)
    requires
        five.in_step(),
        run.ran(five, items, rhs, n),
        j <= 3,
    ensures
        run.at(five, n, j).in_step(),
        j < 3 ==> as_long(run.sharings[j as int].shares, 16 * words_for(n)) && forall|k: int|
            0 <= k < 16 * words_for(n) ==> consistent5(
                #[trigger] word_at(run.sharings[j as int].shares, k),
            ) && value5(word_at(run.sharings[j as int].shares, k)) == run.planes[j as int][k],
    decreases j,
{
    if j == 0 {
        lemma_redistribution_in_step::<u16>(five.views, five.streams, five.pairs, n);
    } else {
        let m = j - 1;
        lemma_addends_shared(five, items, rhs, run, n, m as nat);
        assert(holds_planes(run.planes[m], run.addends_of(m, n, rhs)));
        lemma_sharing_correct(run.at(five, n, m as nat), m, run.planes[m], run.sharings[m]);
    }
    if j < 3 {
        assert(holds_planes(run.planes[j as int], run.addends_of(j as int, n, rhs)));
        lemma_sharing_correct(
            run.at(five, n, j),
            j as int,
            run.planes[j as int],
            run.sharings[j as int],
        );
    }
}

/// The planes of a shared addend that the parties start with.
proof fn lemma_addend_planes(
    five: Five,
    items: Seq<Seq<u16>>,
    rhs: u16,
    run: SignRun,
    n: nat,
    j: int,
)
    requires
        five.in_step(),
        run.ran(five, items, rhs, n),
        0 <= j < 3,
    ensures
        shares_planes(
            value_planes(all_values(run.extraction.states[0]), j),
            run.addends_of(j, n, rhs),
            run.planes[j],
        ),
        forall|w: int|
            0 <= w < words_for(n) ==> #[trigger] planes_fit(
                value_planes(all_values(run.extraction.states[0]), j),
                16,
                w,
            ),
{
    let width = words_for(n) as int;
    let x = value_planes(all_values(run.extraction.states[0]), j);
    let shares = run.sharings[j].shares;
    lemma_addends_shared(five, items, rhs, run, n, j as nat);
    assert(holds_planes(run.planes[j], run.addends_of(j, n, rhs)));
    assert forall|p: int| 0 <= p < 5 implies cut(
        shares[p],
        16,
        width as nat,
        #[trigger] x[p],
    ) by {
        assert(run.started(n, p));
        let state = run.extraction.states[0][p];
        assert(x[p] == state.values@[j]@);
    }
    assert forall|b: int, w: int| 0 <= b < 16 && 0 <= w < width implies consistent5(
        #[trigger] plane_word(x, b, w),
    ) && value5(plane_word(x, b, w)) == run.planes[j][b * width + w] by {
        let k = b * width + w;
        assert(0 <= k < 16 * width) by (nonlinear_arith)
            requires
                k == b * width + w,
                0 <= b < 16,
                0 <= w < width,
        ;
        assert forall|p: int| 0 <= p < 5 implies #[trigger] plane_word(x, b, w)[p] == word_at(
            shares,
            k,
        )[p] by {
            assert(cut(shares[p], 16, width as nat, x[p]));
            assert(x[p][b]@[w] == shares[p][b * width + w]);
        }
        assert(plane_word(x, b, w) =~= word_at(shares, k));
    }
    assert forall|w: int| 0 <= w < width implies #[trigger] planes_fit(x, 16, w) by {
        assert forall|p: int| 0 <= p < 5 implies (#[trigger] x[p]).len() == 16 by {
            assert(cut(shares[p], 16, width as nat, x[p]));
        }
    }
}

/// The addends of an entry add up to the shared value without the public one.
proof fn lemma_addends_sum(
    five: Five,
    items: Seq<Seq<u16>>,
    values: Seq<u16>,
    rhs: u16,
    run: SignRun,
    e: int,
)
    requires
        five.in_step(),
        items.len() == 5,
        forall|p: int| 0 <= p < 5 ==> (#[trigger] items[p]).len() == values.len(),
        0 <= e < values.len(),
        values[e] == u16::of_int(
            items[0][e] + items[1][e] + items[2][e] + items[3][e] + items[4][e],
        ),
        run.ran(five, items, rhs, values.len()),
    ensures
        ({
            let n = values.len();
            u16::of_int(
                run.addends_of(0, n, rhs)[e].val() + run.addends_of(1, n, rhs)[e].val()
                    + run.addends_of(2, n, rhs)[e].val(),
            ) == u16::of_int(values[e].val() - rhs.val())
        }),
{
    let n = values.len();
    let kind = ShareType::Arithmetic;
    let (a, b, c) = (
        addend(kind, run.r, 0, e),
        addend(kind, run.r, 1, e),
        addend(kind, run.r, 2, e),
    );
    assert forall|p: int| 0 <= p < 5 implies 0 <= e < (#[trigger] items[p]).len()
        == items[0].len() by {
        assert(items[p].len() == n && items[0].len() == n);
    }
    lemma_redistribution_correct(kind, five.views, five.streams, five.pairs, items, run.r, e);
    let d = Seq::new(5, |p: int| items[p][e]);
    let (d0, d1, d2, d3, d4) = (d[0].val(), d[1].val(), d[2].val(), d[3].val(), d[4].val());
    lemma_absorb::<u16>(d0 + d1, d2);
    lemma_absorb::<u16>(d0 + d1 + d2, d3);
    lemma_absorb::<u16>(d0 + d1 + d2 + d3, d4);
    lemma_absorb::<u16>(a.val() + b.val(), c.val());
    assert(u16::of_int(a.val() + b.val() + c.val()) == values[e]);
    lemma_absorb::<u16>(a.val() + b.val() + c.val(), -rhs.val());
    lemma_absorb::<u16>(a.val() - rhs.val(), b.val() + c.val());
}

/// The top bit of one entry is shared right.
proof fn lemma_sign_shared(
    five: Five,
    items: Seq<Seq<u16>>,
    values: Seq<u16>,
    rhs: u16,
    run: SignRun,
    e: int,
)
    requires
        five.in_step(),
        items.len() == 5,
        forall|p: int| 0 <= p < 5 ==> (#[trigger] items[p]).len() == values.len(),
        0 <= e < values.len(),
        values[e] == u16::of_int(
            items[0][e] + items[1][e] + items[2][e] + items[3][e] + items[4][e],
        ),
        run.ran(five, items, rhs, values.len()),
    ensures
        as_long(run.msb, words_for(values.len())),
        consistent5(word_at(run.msb, e / 64)),
        bit(value5(word_at(run.msb, e / 64)), (e % 64) as nat) == (signed16(
            u16::of_int(values[e].val() - rhs.val()) as int,
        ) < 0),
{
    let n = values.len();
    let (w, i) = (e / 64, (e % 64) as nat);
    let ms = run.extraction.states[0];
    assert(0 <= w < words_for(n));
    let addends = Seq::new(3, |j: int| run.addends_of(j, n, rhs));
    assert forall|j: int| 0 <= j < 3 implies shares_planes(
        #[trigger] value_planes(all_values(ms), j),
        addends[j],
        run.planes[j],
    ) && planes_fit(value_planes(all_values(ms), j), 16, w) by {
        lemma_addend_planes(five, items, rhs, run, n, j);
    }
    assert forall|p: int| 0 <= p < 5 implies (#[trigger] ms[p]).wf() && ms[p].words == words_for(n)
        && ms[p].chain is None && ms[p].values@.len() == 3 by {
        assert(run.started(n, p));
    }
    lemma_addends_on_track(ms, addends, run.planes, e);
    lemma_addends_sum(five, items, values, rhs, run, e);
    let sum = u16::of_int(values[e].val() - rhs.val());
    lemma_addends_shared(five, items, rhs, run, n, 3);
    lemma_extraction_correct(
        run.at(five, n, 3),
        run.extraction,
        words_for(n),
        run.msb,
        w,
        i,
        sum as int,
    );
}

/// Comparing with zero gives the signs: if five parties redistribute additive shares of numbers,
/// subtract a public number and open the top bits of the sums, every party opens, for every number,
/// whether it is below the public one, read as a signed difference. This holds whatever the shares
/// and the streams. The plane that is opened has a word for every 64 numbers.
pub proof fn lemma_sign_run_correct(
    five: Five,
    items: Seq<Seq<u16>>,
    values: Seq<u16>,
    rhs: u16,
    run: SignRun,
    p: int,
)
    requires
        five.in_step(),
        items.len() == 5,
        forall|q: int| 0 <= q < 5 ==> (#[trigger] items[q]).len() == values.len(),
        values.len() > 0,
        forall|e: int|
            0 <= e < values.len() ==> #[trigger] values[e] == u16::of_int(
                items[0][e] + items[1][e] + items[2][e] + items[3][e] + items[4][e],
            ),
        run.ran(five, items, rhs, values.len()),
        0 <= p < 5,
    ensures
        run.msb[p].len() == words_for(values.len()),
        run.msgs[p].len() == providers_before(p, 5),
        run.opened(values.len(), p) == Ok::<Seq<bool>, ProtocolError>(
            Seq::new(
                values.len(),
                |e: int| signed16(u16::of_int(values[e].val() - rhs.val()) as int) < 0,
            ),
        ),
{
    let n = values.len();
    let signs = Seq::new(
        n,
        |e: int| signed16(u16::of_int(values[e].val() - rhs.val()) as int) < 0,
    );
    let own = Seq::new(run.msb[p].len(), |k: int| held(p, run.msb[p][k], 10));
    let words = opened_words(p, own, run.msgs[p], 5);
    assert(delivered(p, run.msb, run.msgs[p], 5));
    assert forall|e: int| 0 <= e < n implies words is Ok && #[trigger] signs[e] == bit(
        words->Ok_0[e / 64],
        (e % 64) as nat,
    ) by {
        assert(values[e] == u16::of_int(
            items[0][e] + items[1][e] + items[2][e] + items[3][e] + items[4][e],
        ));
        lemma_sign_shared(five, items, values, rhs, run, e);
        assert(run.msb[p].len() == words_for(n));
        assert(word_at(run.msb, e / 64) =~= Seq::new(5, |q: int| run.msb[q][e / 64]));
        lemma_open5_correct(p, run.msb, run.msgs[p], e / 64);
    }
    assert(words is Ok) by {
        let sign = signs[0];
    }
    assert(run.msb[p].len() == words_for(n)) by {
        let value = values[0];
        lemma_sign_shared(five, items, values, rhs, run, 0);
    }
    assert(Seq::new(n, |e: int| bit(words->Ok_0[e / 64], (e % 64) as nat)) =~= signs);
}

} // verus!
