//! What the parties count of face distances: a whole run over all borders, from the shares of the
//! distances to the opened buckets.

use crate::anon_stats_face::{
    below, buckets_between, inside, lemma_bucket_counts, lemma_distances_counted,
    lemma_shifted_sign, lemma_sum_counts, set_bits, share_sum, FaceBucket,
};
use crate::message::{elements_of, packed, NetworkValue};
use crate::ops::{lemma_open_ring_correct, opened, plus_const};
use crate::ring::IntRing2k;
use crate::ring_lemmas::bit;
use crate::run_laws::{
    all_in_step, batch_fits, drawn_on, injection_ran, lemma_injection_correct,
    lemma_msb_run_correct, Batch3, MsbRun, Prf3,
};
use crate::shares::{consistent, sum_value, xor_value, Share};
use vstd::prelude::*;

verus! {

/// The shares of distances after a border was subtracted from them.
pub open spec fn shifted_by(role: int, x: Seq<Share<u16>>, border: i16) -> Seq<Share<u16>> {
    Seq::new(
        x.len(),
        |i: int| plus_const(role, x[i], -u16::of_int(border as int).val()),
    )
}

/// What the parties compute for every border in turn: the top bits of the differences, first as
/// bits, then as numbers.
pub struct FaceRun {
    pub extractions: Seq<MsbRun<u16>>,
    pub bits: Seq<Batch3<bool>>,
    pub injected: Seq<Batch3<u32>>,
}

impl FaceRun {
    /// The streams before border `t`, where there are `n` distances.
    pub open spec fn prfs(self, prf: Prf3, n: int, t: nat) -> Prf3
        decreases t,
    {
        if t == 0 {
            prf
        } else {
            let before = self.prfs(prf, n, (t - 1) as nat);
            drawn_on::<u32>(self.extractions[t - 1].end(before, n), n)
        }
    }

    /// What the parties do for border `t`.
    pub open spec fn border_ran(
        self,
        prf: Prf3,
        session_id: int,
        x: Batch3<u16>,
        border: i16,
        t: int,
    ) -> bool {
        let n = x.0.len() as int;
        let before = self.prfs(prf, n, t as nat);
        let shifted = (
            shifted_by(0, x.0, border),
            shifted_by(1, x.1, border),
            shifted_by(2, x.2, border),
        );
        &&& self.extractions[t].ran(before, shifted, self.bits[t])
        &&& injection_ran(
            self.extractions[t].end(before, n),
            session_id,
            self.bits[t],
            self.injected[t],
        )
    }

    /// The shares of the counts below the borders.
    pub open spec fn totals(self) -> Batch3<u32> {
        (
            Seq::new(
                self.injected.len(),
                |t: int| share_sum(self.injected[t].0, self.injected[t].0.len()),
            ),
            Seq::new(
                self.injected.len(),
                |t: int| share_sum(self.injected[t].1, self.injected[t].1.len()),
            ),
            Seq::new(
                self.injected.len(),
                |t: int| share_sum(self.injected[t].2, self.injected[t].2.len()),
            ),
        )
    }

    /// The parties counted the distances below every border.
    pub open spec fn ran(
        self,
        prf: Prf3,
        session_id: int,
        x: Batch3<u16>,
        borders: Seq<i16>,
    ) -> bool {
        &&& self.extractions.len() == borders.len()
        &&& self.bits.len() == borders.len()
        &&& self.injected.len() == borders.len()
        &&& forall|t: int|
            0 <= t < borders.len() ==> self.border_ran(
                prf,
                session_id,
                x,
                #[trigger] borders[t],
                t,
            )
    }
}

/// A party opened its shares with the message of the previous party.
pub open spec fn opened_with(
    own: Seq<Share<u32>>,
    prev: Seq<Share<u32>>,
    msg: NetworkValue,
    r: Seq<u32>,
) -> bool {
    &&& packed(prev.map_values(|s: Share<u32>| s.b), msg)
    &&& r == opened(own, elements_of::<u32>(msg)->0)
}

/// The number of set bits is the number of distances below a border, where a bit is set exactly if
/// its distance is below.
proof fn lemma_bits_below(bits: Seq<bool>, distances: Seq<i16>, border: int, n: nat)
    requires
        n <= distances.len(),
        bits.len() == distances.len(),
        forall|k: int| 0 <= k < bits.len() ==> #[trigger] bits[k] == (distances[k] < border),
    ensures
        set_bits(bits, n) == below(distances, border, n),
        below(distances, border, n) <= n,
    decreases n,
{
    if n > 0 {
        lemma_bits_below(bits, distances, border, (n - 1) as nat);
        assert(bits[n - 1] == (distances[n - 1] < border));
    }
}

/// The top bits of the differences with a border tell which distances are below it.
proof fn lemma_border_bits(
    prf: Prf3,
    distances: Seq<i16>,
    x: Batch3<u16>,
    border: i16,
    extraction: MsbRun<u16>,
    bits: Batch3<bool>,
)
    requires
        all_in_step(prf),
        batch_fits(x, distances.len()),
        forall|k: int|
            0 <= k < distances.len() ==> sum_value(#[trigger] x.0[k], x.1[k], x.2[k])
                == u16::of_int(distances[k] as int),
        forall|k: int|
            0 <= k < distances.len() ==> -0x8000 <= #[trigger] distances[k] - border < 0x8000,
        extraction.ran(
            prf,
            (shifted_by(0, x.0, border), shifted_by(1, x.1, border), shifted_by(2, x.2, border)),
            bits,
        ),
    ensures
        all_in_step(extraction.end(prf, distances.len() as int)),
        batch_fits(bits, distances.len()),
        forall|k: int|
            0 <= k < distances.len() ==> xor_value(#[trigger] bits.0[k], bits.1[k], bits.2[k]) == (
            distances[k] < border),
{
    let n = distances.len();
    let shifted = (
        shifted_by(0, x.0, border),
        shifted_by(1, x.1, border),
        shifted_by(2, x.2, border),
    );
    assert forall|k: int| 0 <= k < n implies consistent(
        #[trigger] shifted.0[k],
        shifted.1[k],
        shifted.2[k],
    ) && bit(sum_value(shifted.0[k], shifted.1[k], shifted.2[k]), 15) == (distances[k]
        < border) by {
        assert(consistent(x.0[k], x.1[k], x.2[k]));
        lemma_shifted_sign(
            (x.0[k], x.1[k], x.2[k]),
            distances[k] as int,
            border as int,
        );
    }
    lemma_msb_run_correct(prf, shifted, extraction, bits, n);
    assert forall|k: int| 0 <= k < n implies xor_value(
        #[trigger] bits.0[k],
        bits.1[k],
        bits.2[k],
    ) == (distances[k] < border) by {
        assert(bit(sum_value(shifted.0[k], shifted.1[k], shifted.2[k]), 15) == (distances[k]
            < border));
    }
}

/// The shares of the bits, added up, stand for the number of distances below a border.
proof fn lemma_border_sum(
    prf: Prf3,
    session_id: int,
    distances: Seq<i16>,
    border: i16,
    bits: Batch3<bool>,
    injected: Batch3<u32>,
)
    requires
        all_in_step(prf),
        session_id >= 0,
        distances.len() <= u32::MAX,
        batch_fits(bits, distances.len()),
        forall|k: int|
            0 <= k < distances.len() ==> xor_value(#[trigger] bits.0[k], bits.1[k], bits.2[k]) == (
            distances[k] < border),
        injection_ran(prf, session_id, bits, injected),
    ensures
        all_in_step(drawn_on::<u32>(prf, distances.len() as int)),
        batch_fits(injected, distances.len()),
        ({
            let n = distances.len();
            let (s0, s1, s2) = (
                share_sum(injected.0, n),
                share_sum(injected.1, n),
                share_sum(injected.2, n),
            );
            &&& consistent(s0, s1, s2)
            &&& sum_value(s0, s1, s2) == below(distances, border as int, n)
        }),
{
    let n = distances.len();
    lemma_injection_correct(prf, session_id, bits, injected, n);
    let clear = Seq::new(n, |k: int| xor_value(bits.0[k], bits.1[k], bits.2[k]));
    assert forall|k: int| 0 <= k < n implies #[trigger] clear[k] == (distances[k] < border) by {
        assert(xor_value(bits.0[k], bits.1[k], bits.2[k]) == (distances[k] < border));
    }
    lemma_sum_counts(injected, clear, n);
    lemma_bits_below(clear, distances, border as int, n);
    u32::law_of_int(below(distances, border as int, n) as int);
}

/// What one border gives, and that the parties stay in step.
proof fn lemma_border_counts(
    prf: Prf3,
    session_id: int,
    distances: Seq<i16>,
    x: Batch3<u16>,
    border: i16,
    run: FaceRun,
    t: int,
)
    requires
        all_in_step(run.prfs(prf, distances.len() as int, t as nat)),
        session_id >= 0,
        distances.len() <= u32::MAX,
        batch_fits(x, distances.len()),
        forall|k: int|
            0 <= k < distances.len() ==> sum_value(#[trigger] x.0[k], x.1[k], x.2[k])
                == u16::of_int(distances[k] as int),
        0 <= t < run.injected.len(),
        forall|k: int|
            0 <= k < distances.len() ==> -0x8000 <= #[trigger] distances[k] - border < 0x8000,
        run.border_ran(prf, session_id, x, border, t),
    ensures
        all_in_step(run.prfs(prf, distances.len() as int, (t + 1) as nat)),
        ({
            let totals = run.totals();
            &&& consistent(totals.0[t], totals.1[t], totals.2[t])
            &&& sum_value(totals.0[t], totals.1[t], totals.2[t]) == below(
                distances,
                border as int,
                distances.len(),
            )
        }),
{
    let n = distances.len() as int;
    let before = run.prfs(prf, n, t as nat);
    lemma_border_bits(before, distances, x, border, run.extractions[t], run.bits[t]);
    lemma_border_sum(
        run.extractions[t].end(before, n),
        session_id,
        distances,
        border,
        run.bits[t],
        run.injected[t],
    );
}

/// The parties stay in step over all borders.
proof fn lemma_borders_in_step(
    prf: Prf3,
    session_id: int,
    distances: Seq<i16>,
    x: Batch3<u16>,
    borders: Seq<i16>,
    run: FaceRun,
    t: nat,
)
    requires
        all_in_step(prf),
        session_id >= 0,
        distances.len() <= u32::MAX,
        batch_fits(x, distances.len()),
        forall|k: int|
            0 <= k < distances.len() ==> sum_value(#[trigger] x.0[k], x.1[k], x.2[k])
                == u16::of_int(distances[k] as int),
        t <= borders.len(),
        forall|k: int, j: int|
            0 <= k < distances.len() && 0 <= j < borders.len() ==> -0x8000
                <= #[trigger] distances[k] - #[trigger] borders[j] < 0x8000,
        run.ran(prf, session_id, x, borders),
    ensures
        all_in_step(run.prfs(prf, distances.len() as int, t)),
    decreases t,
{
    if t > 0 {
        lemma_borders_in_step(prf, session_id, distances, x, borders, run, (t - 1) as nat);
        let border = borders[t - 1];
        assert(run.border_ran(prf, session_id, x, border, t - 1));
        lemma_border_counts(prf, session_id, distances, x, border, run, t - 1);
    }
}

/// Parties that open the same shares see the same values.
proof fn lemma_opened_alike(
    totals: Batch3<u32>,
    msgs: (NetworkValue, NetworkValue, NetworkValue),
    counts: (Seq<u32>, Seq<u32>, Seq<u32>),
    n: nat,
)
    requires
        batch_fits(totals, n),
        opened_with(totals.0, totals.2, msgs.2, counts.0),
        opened_with(totals.1, totals.0, msgs.0, counts.1),
        opened_with(totals.2, totals.1, msgs.1, counts.2),
    ensures
        counts.0 == counts.1 && counts.1 == counts.2,
        counts.0 == Seq::new(n, |t: int| sum_value(totals.0[t], totals.1[t], totals.2[t])),
{
    lemma_rotated(totals, n);
    lemma_open_ring_correct(totals.2, totals.0, totals.1, msgs.2);
    lemma_open_ring_correct(totals.0, totals.1, totals.2, msgs.0);
    lemma_open_ring_correct(totals.1, totals.2, totals.0, msgs.1);
    let values = Seq::new(n, |t: int| sum_value(totals.0[t], totals.1[t], totals.2[t]));
    assert(counts.0 =~= values);
    assert(counts.1 =~= values);
    assert(counts.2 =~= values);
}

/// Shares fit together whichever party comes first, and stand for the same value.
proof fn lemma_rotated(x: Batch3<u32>, n: nat)
    requires
        batch_fits(x, n),
    ensures
        forall|k: int| 0 <= k < n ==> #[trigger] consistent(x.0[k], x.1[k], x.2[k]),
        forall|k: int| 0 <= k < n ==> #[trigger] consistent(x.1[k], x.2[k], x.0[k]),
        forall|k: int| 0 <= k < n ==> #[trigger] consistent(x.2[k], x.0[k], x.1[k]),
        forall|k: int|
            0 <= k < n ==> #[trigger] sum_value(x.1[k], x.2[k], x.0[k]) == sum_value(
                x.0[k],
                x.1[k],
                x.2[k],
            ),
        forall|k: int|
            0 <= k < n ==> #[trigger] sum_value(x.2[k], x.0[k], x.1[k]) == sum_value(
                x.0[k],
                x.1[k],
                x.2[k],
            ),
{
    assert forall|k: int| 0 <= k < n implies #[trigger] consistent(x.0[k], x.1[k], x.2[k]) by {
        let first = x.0[k];
    }
    assert forall|k: int| 0 <= k < n implies #[trigger] consistent(x.1[k], x.2[k], x.0[k]) by {
        assert(consistent(x.0[k], x.1[k], x.2[k]));
    }
    assert forall|k: int| 0 <= k < n implies #[trigger] consistent(x.2[k], x.0[k], x.1[k]) by {
        assert(consistent(x.0[k], x.1[k], x.2[k]));
    }
}

/// Buckets from the counts below ascending borders count the distances between them.
proof fn lemma_buckets_count(distances: Seq<i16>, borders: Seq<i16>, counts: Seq<u32>)
    requires
        distances.len() <= u32::MAX,
        borders.len() > 0,
        counts.len() == borders.len(),
        forall|i: int| 0 < i < borders.len() ==> borders[i - 1] < #[trigger] borders[i],
        forall|t: int|
            0 <= t < borders.len() ==> #[trigger] counts[t] == below(
                distances,
                borders[t] as int,
                distances.len(),
            ),
    ensures
        forall|t: int| 0 < t < borders.len() ==> counts[t - 1] <= #[trigger] counts[t],
        buckets_between(counts, borders) == buckets_of(distances, borders),
{
    let n = distances.len();
    assert forall|t: int| 0 < t < borders.len() implies counts[t - 1] <= #[trigger] counts[t] by {
        assert(borders[t - 1] < borders[t]);
        assert(counts[t - 1] == below(distances, borders[t - 1] as int, n));
        lemma_bucket_counts(distances, borders[t - 1] as int, borders[t] as int, n);
    }
    assert forall|t: int| 0 <= t < borders.len() - 1 implies #[trigger] buckets_between(
        counts,
        borders,
    )[t] == buckets_of(distances, borders)[t] by {
        let next = borders[t + 1];
        assert(borders[t + 1 - 1] < next);
        assert(counts[t] == below(distances, borders[t] as int, n));
        assert(counts[t + 1] == below(distances, next as int, n));
        lemma_bucket_counts(distances, borders[t] as int, next as int, n);
    }
    assert(buckets_between(counts, borders) =~= buckets_of(distances, borders));
}

/// The buckets between borders, each with the number of distances in it.
pub open spec fn buckets_of(distances: Seq<i16>, borders: Seq<i16>) -> Seq<FaceBucket> {
    Seq::new(
        (borders.len() - 1) as nat,
        |t: int|
            FaceBucket {
                count: inside(
                    distances,
                    borders[t] as int,
                    borders[t + 1] as int,
                    distances.len(),
                ) as usize,
                from: borders[t],
                to: borders[t + 1],
            },
    )
}

/// Counts below ascending borders, and the buckets between them, as numbers of distances.
proof fn lemma_clear_counts(distances: Seq<i16>, borders: Seq<i16>, counts: Seq<u32>)
    requires
        distances.len() <= u32::MAX,
        borders.len() > 0,
        counts.len() == borders.len(),
        forall|i: int| 0 < i < borders.len() ==> borders[i - 1] < #[trigger] borders[i],
        forall|t: int|
            0 <= t < borders.len() ==> #[trigger] counts[t] == below(
                distances,
                borders[t] as int,
                distances.len(),
            ),
        buckets_between(counts, borders) == buckets_of(distances, borders),
    ensures
        forall|t: int|
            0 <= t < borders.len() ==> #[trigger] counts[t] == Set::new(
                |k: int| 0 <= k < distances.len() && distances[k] < borders[t],
            ).len(),
        forall|t: int|
            0 <= t < borders.len() - 1 ==> {
                let b = #[trigger] buckets_between(counts, borders)[t];
                &&& b.from == borders[t]
                &&& b.to == borders[t + 1]
                &&& b.count == Set::new(
                    |k: int|
                        0 <= k < distances.len() && borders[t] <= distances[k] < borders[t + 1],
                ).len()
            },
{
    let n = distances.len();
    assert forall|t: int| 0 <= t < borders.len() implies #[trigger] counts[t] == Set::new(
        |k: int| 0 <= k < distances.len() && distances[k] < borders[t],
    ).len() by {
        lemma_distances_counted(distances, Seq::empty(), 0, borders[t] as int, n);
        assert(Set::new(|k: int| 0 <= k < n && distances[k] < borders[t] as int) =~= Set::new(
            |k: int| 0 <= k < distances.len() && distances[k] < borders[t],
        ));
    }
    assert forall|t: int| 0 <= t < borders.len() - 1 implies {
        let b = #[trigger] buckets_between(counts, borders)[t];
        &&& b.from == borders[t]
        &&& b.to == borders[t + 1]
        &&& b.count == Set::new(
            |k: int| 0 <= k < distances.len() && borders[t] <= distances[k] < borders[t + 1],
        ).len()
    } by {
        let (from, to) = (borders[t] as int, borders[t + 1] as int);
        lemma_distances_counted(distances, Seq::empty(), from, to, n);
        assert(buckets_between(counts, borders)[t] == buckets_of(distances, borders)[t]);
        lemma_bucket_counts(distances, from, to, n);
        assert(borders[t + 1 - 1] < borders[t + 1]);
        assert(Set::new(|k: int| 0 <= k < n && from <= distances[k] < to) =~= Set::new(
            |k: int| 0 <= k < distances.len() && borders[t] <= distances[k] < borders[t + 1],
        ));
    }
}

/// The opened face buckets count the distances: all parties open the same counts, the number of
/// distances below each border, and the bucket between two borders counts the distances from the
/// first one, which is included, to the second one, which is not.
pub proof fn lemma_face_run_correct(
    prf: Prf3,
    session_id: int,
    distances: Seq<i16>,
    x: Batch3<u16>,
    borders: Seq<i16>,
    run: FaceRun,
    msgs: (NetworkValue, NetworkValue, NetworkValue),
    counts: (Seq<u32>, Seq<u32>, Seq<u32>),
)
    requires
        all_in_step(prf),
        session_id >= 0,
        distances.len() <= u32::MAX,
        batch_fits(x, distances.len()),
        forall|k: int|
            0 <= k < distances.len() ==> sum_value(#[trigger] x.0[k], x.1[k], x.2[k])
                == u16::of_int(distances[k] as int),
        borders.len() > 0,
        forall|i: int| 0 < i < borders.len() ==> borders[i - 1] < #[trigger] borders[i],
        forall|k: int, t: int|
            0 <= k < distances.len() && 0 <= t < borders.len() ==> -0x8000
                <= #[trigger] distances[k] - #[trigger] borders[t] < 0x8000,
        run.ran(prf, session_id, x, borders),
        opened_with(run.totals().0, run.totals().2, msgs.2, counts.0),
        opened_with(run.totals().1, run.totals().0, msgs.0, counts.1),
        opened_with(run.totals().2, run.totals().1, msgs.1, counts.2),
    ensures
        counts.0 == counts.1 && counts.1 == counts.2,
        counts.0.len() == borders.len(),
        forall|t: int|
            0 <= t < borders.len() ==> #[trigger] counts.0[t] == below(
                distances,
                borders[t] as int,
                distances.len(),
            ),
        forall|t: int| 0 < t < borders.len() ==> counts.0[t - 1] <= #[trigger] counts.0[t],
        buckets_between(counts.0, borders) == buckets_of(distances, borders),
        forall|t: int|
            0 <= t < borders.len() ==> #[trigger] counts.0[t] == Set::new(
                |k: int| 0 <= k < distances.len() && distances[k] < borders[t],
            ).len(),
        forall|t: int|
            0 <= t < borders.len() - 1 ==> {
                let b = #[trigger] buckets_between(counts.0, borders)[t];
                &&& b.from == borders[t]
                &&& b.to == borders[t + 1]
                &&& b.count == Set::new(
                    |k: int|
                        0 <= k < distances.len() && borders[t] <= distances[k] < borders[t + 1],
                ).len()
            },
{
    let totals = run.totals();
    let n = distances.len();
    assert forall|t: int| 0 <= t < borders.len() implies consistent(
        #[trigger] totals.0[t],
        totals.1[t],
        totals.2[t],
    ) && sum_value(totals.0[t], totals.1[t], totals.2[t]) == below(
        distances,
        borders[t] as int,
        n,
    ) by {
        lemma_borders_in_step(prf, session_id, distances, x, borders, run, t as nat);
        let border = borders[t];
        assert(run.border_ran(prf, session_id, x, border, t));
        lemma_border_counts(prf, session_id, distances, x, border, run, t);
    }
    lemma_opened_alike(totals, msgs, counts, borders.len());
    assert forall|t: int| 0 <= t < borders.len() implies #[trigger] counts.0[t] == below(
        distances,
        borders[t] as int,
        n,
    ) by {
        let total = totals.0[t];
    }
    lemma_buckets_count(distances, borders, counts.0);
    lemma_clear_counts(distances, borders, counts.0);
}

} // verus!
