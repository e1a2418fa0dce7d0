//! What a conjunction of shared bit vectors gives: a whole run, from the vectors to their
//! conjunction.

use crate::adder_laws::lane_bit;
use crate::and_product::{all_set, combined_bits, lemma_round_keeps_product, AndProduct};
use crate::bit_slice::{first_parts, holds_shares, lane, padded, second_parts, words_for};
use crate::matrix::rectangular;
use crate::planes::flat;
use crate::prf::lemma_stay_in_step;
use crate::ring_lemmas::{bit, group_bits, lemma_bits_ext};
use crate::rss5_adder::lemma_flat_rect;
use crate::run_laws::{all_in_step, and_ran, batch_fits, lemma_and_lane, Batch3, Prf3};
use crate::shares::{consistent, xor_value, Share};
use vstd::arithmetic::div_mod::*;
use vstd::prelude::*;

verus! {

/// The vectors that three parties have left.
pub type Products3 = (AndProduct, AndProduct, AndProduct);

/// The parties have as many vectors of one length, and their shares fit together.
pub open spec fn columns_fit(s: Products3, n: nat, len: nat) -> bool {
    &&& s.0.wf() && s.1.wf() && s.2.wf()
    &&& s.0.len == len && s.1.len == len && s.2.len == len
    &&& s.0.columns@.len() == n && s.1.columns@.len() == n && s.2.columns@.len() == n
    &&& forall|j: int, e: int|
        0 <= j < n && 0 <= e < len ==> consistent(
            #[trigger] s.0.columns@[j]@[e],
            s.1.columns@[j]@[e],
            s.2.columns@[j]@[e],
        )
}

/// The shared bits of all vectors at one place.
pub open spec fn bits_at(s: Products3, e: int) -> Seq<bool> {
    Seq::new(
        s.0.columns@.len(),
        |j: int|
            xor_value(s.0.columns@[j]@[e], s.1.columns@[j]@[e], s.2.columns@[j]@[e]),
    )
}

/// The rounds of a conjunction: `states[r]` stands before round `r`.
pub struct ProductRun {
    pub states: Seq<Products3>,
    pub lhs: Seq<Batch3<u64>>,
    pub rhs: Seq<Batch3<u64>>,
    pub words: Seq<Batch3<u64>>,
}

impl ProductRun {
    /// The streams before round `r`.
    pub open spec fn prfs(self, prf: Prf3, r: nat) -> Prf3
        decreases r,
    {
        if r == 0 {
            prf
        } else {
            let before = self.prfs(prf, (r - 1) as nat);
            let lhs = self.lhs[r - 1];
            (
                before.0.after::<u64>(lhs.0.len() as int),
                before.1.after::<u64>(lhs.1.len() as int),
                before.2.after::<u64>(lhs.2.len() as int),
            )
        }
    }

    /// Round `r`.
    pub open spec fn goes_on(self, prf: Prf3, r: int) -> bool {
        let (before, after) = (self.states[r], self.states[r + 1]);
        &&& before.0.columns@.len() > 1
        &&& before.0.asks(self.lhs[r].0, self.rhs[r].0)
        &&& before.1.asks(self.lhs[r].1, self.rhs[r].1)
        &&& before.2.asks(self.lhs[r].2, self.rhs[r].2)
        &&& and_ran(self.prfs(prf, r as nat), self.lhs[r], self.rhs[r], self.words[r])
        &&& before.0.advances(self.words[r].0, after.0)
        &&& before.1.advances(self.words[r].1, after.1)
        &&& before.2.advances(self.words[r].2, after.2)
    }

    /// The parties combined the vectors until one was left.
    pub open spec fn ran(self, prf: Prf3) -> bool {
        &&& self.states.len() >= 1
        &&& forall|r: int| 0 <= r < self.states.len() - 1 ==> #[trigger] self.goes_on(prf, r)
        &&& self.states.last().0.columns@.len() == 1
    }

    /// The streams at the end.
    pub open spec fn end(self, prf: Prf3) -> Prf3 {
        self.prfs(prf, (self.states.len() - 1) as nat)
    }
}

/// Packed bit shares that fit together fit together word by word, and lane by lane they are the
/// bits.
proof fn lemma_packed_fit(bits: Batch3<bool>, words: Batch3<u64>, n: nat, m: int)
    requires
        batch_fits(bits, n),
        holds_shares(words.0, bits.0),
        holds_shares(words.1, bits.1),
        holds_shares(words.2, bits.2),
        0 <= m < n,
    ensures
        words.0.len() == words_for(n) && words.1.len() == words_for(n) && words.2.len()
            == words_for(n),
        consistent(words.0[m / 64], words.1[m / 64], words.2[m / 64]),
        lane_bit(words.0[m / 64], words.1[m / 64], words.2[m / 64], (m % 64) as nat) == xor_value(
            bits.0[m],
            bits.1[m],
            bits.2[m],
        ),
{
    broadcast use group_bits;

    let (w, i) = (m / 64, (m % 64) as nat);
    lemma_packed_word(bits.0, words.0, w);
    lemma_packed_word(bits.1, words.1, w);
    lemma_packed_word(bits.2, words.2, w);
    let (s0, s1, s2) = (words.0[w], words.1[w], words.2[w]);
    assert forall|k: nat| k < 64 implies bit(s1.b, k) == bit(s0.a, k) && bit(s2.b, k) == bit(
        s1.a,
        k,
    ) && bit(s0.b, k) == bit(s2.a, k) by {
        let at = 64 * w + k;
        if at < n {
            assert(consistent(bits.0[at], bits.1[at], bits.2[at]));
        }
    }
    lemma_bits_ext(s1.b, s0.a);
    lemma_bits_ext(s2.b, s1.a);
    lemma_bits_ext(s0.b, s2.a);
    assert(64 * w + i == m);
    assert(bit(s0.a, i) == bits.0[m].a && bit(s1.a, i) == bits.1[m].a && bit(s2.a, i)
        == bits.2[m].a);
}

/// The bit shares of a lane fit together where the words do, and their bit is that of the lane.
proof fn lemma_lane_value(words: Batch3<u64>, m: int)
    requires
        0 <= m,
        consistent(words.0[m / 64], words.1[m / 64], words.2[m / 64]),
    ensures
        consistent(lane(words.0, m), lane(words.1, m), lane(words.2, m)),
        xor_value(lane(words.0, m), lane(words.1, m), lane(words.2, m)) == lane_bit(
            words.0[m / 64],
            words.1[m / 64],
            words.2[m / 64],
            (m % 64) as nat,
        ),
{
    broadcast use group_bits;

}

/// A word of packed bit shares.
proof fn lemma_packed_word(bits: Seq<Share<bool>>, words: Seq<Share<u64>>, w: int)
    requires
        holds_shares(words, bits),
        0 <= w < words_for(bits.len()),
    ensures
        words.len() == words_for(bits.len()),
        forall|k: nat|
            k < 64 ==> #[trigger] bit(words[w].a, k) == (64 * w + k < bits.len() && bits[64 * w
                + k].a),
        forall|k: nat|
            k < 64 ==> #[trigger] bit(words[w].b, k) == (64 * w + k < bits.len() && bits[64 * w
                + k].b),
{
    assert(first_parts(words).len() == words.len() && first_parts(bits).len() == bits.len());
    assert(second_parts(bits).len() == bits.len());
    assert forall|k: nat| k < 64 implies #[trigger] bit(words[w].a, k) == (64 * w + k < bits.len()
        && bits[64 * w + k].a) by {
        assert(bit(first_parts(words)[w], k) == padded(first_parts(bits), 64 * w + k));
    }
    assert forall|k: nat| k < 64 implies #[trigger] bit(words[w].b, k) == (64 * w + k < bits.len()
        && bits[64 * w + k].b) by {
        assert(bit(second_parts(words)[w], k) == padded(second_parts(bits), 64 * w + k));
    }
}

/// The vectors of one half, one after the other.
pub open spec fn halves(s: Products3, right: bool) -> Batch3<bool> {
    let half = s.0.columns@.len() as int / 2;
    if right {
        (
            flat(s.0.right(), half as nat),
            flat(s.1.right(), half as nat),
            flat(s.2.right(), half as nat),
        )
    } else {
        (
            flat(s.0.left(), half as nat),
            flat(s.1.left(), half as nat),
            flat(s.2.left(), half as nat),
        )
    }
}

/// One half of one party, place by place.
proof fn lemma_half(s: AndProduct, right: bool, m: int)
    requires
        s.wf(),
    ensures
        ({
            let half = s.columns@.len() as int / 2;
            let x = if right {
                s.right()
            } else {
                s.left()
            };
            let start = if right {
                half
            } else {
                0
            };
            let len = s.len as int;
            let j = m / len;
            &&& flat(x, half as nat).len() == half * len
            &&& 0 <= m < half * len ==> {
                &&& len > 0
                &&& 0 <= j < half
                &&& flat(x, half as nat)[m] == s.columns@[start + j]@[m % len]
            }
        }),
{
    let half = s.columns@.len() as int / 2;
    let len = s.len as int;
    let x = if right {
        s.right()
    } else {
        s.left()
    };
    let start = if right {
        half
    } else {
        0
    };
    assert(rectangular(x, s.len as nat)) by {
        assert forall|i: int| 0 <= i < x.len() implies (#[trigger] x[i])@.len() == s.len by {
            assert(x[i] == s.columns@[start + i]);
        }
    }
    lemma_flat_rect(x, s.len as nat, half as nat);
    if 0 <= m < half * len {
        assert(len > 0) by (nonlinear_arith)
            requires
                0 <= m < half * len,
                half >= 0,
                len >= 0,
        ;
        lemma_div_pos_is_pos(m, len);
        assert(m / len < half) by (nonlinear_arith)
            requires
                0 <= m < half * len,
                len > 0,
        ;
    }
}

/// The vectors of one half fit together.
proof fn lemma_half_fits(s: Products3, n: nat, len: nat, right: bool)
    requires
        columns_fit(s, n, len),
    ensures
        batch_fits(halves(s, right), (n / 2 * len) as nat),
{
    let h = halves(s, right);
    let half = n as int / 2;
    let start = if right {
        half
    } else {
        0
    };
    lemma_half(s.0, right, 0);
    lemma_half(s.1, right, 0);
    lemma_half(s.2, right, 0);
    assert forall|m: int| 0 <= m < half * len implies consistent(
        #[trigger] h.0[m],
        h.1[m],
        h.2[m],
    ) by {
        lemma_half(s.0, right, m);
        lemma_half(s.1, right, m);
        lemma_half(s.2, right, m);
        lemma_mod_bound(m, len as int);
        let (j, e) = (start + m / len as int, m % len as int);
        assert(s.0.columns@[j]@.len() == len);
        assert(consistent(s.0.columns@[j]@[e], s.1.columns@[j]@[e], s.2.columns@[j]@[e]));
    }
}

/// The bitwise and of packed bit shares, place by place.
proof fn lemma_packed_and(
    prf: Prf3,
    x: Batch3<bool>,
    y: Batch3<bool>,
    lhs: Batch3<u64>,
    rhs: Batch3<u64>,
    words: Batch3<u64>,
    total: nat,
    m: int,
)
    requires
        all_in_step(prf),
        batch_fits(x, total),
        batch_fits(y, total),
        holds_shares(lhs.0, x.0) && holds_shares(lhs.1, x.1) && holds_shares(lhs.2, x.2),
        holds_shares(rhs.0, y.0) && holds_shares(rhs.1, y.1) && holds_shares(rhs.2, y.2),
        and_ran(prf, lhs, rhs, words),
        0 <= m < total,
    ensures
        consistent(lane(words.0, m), lane(words.1, m), lane(words.2, m)),
        xor_value(lane(words.0, m), lane(words.1, m), lane(words.2, m)) == (xor_value(
            x.0[m],
            x.1[m],
            x.2[m],
        ) && xor_value(y.0[m], y.1[m], y.2[m])),
{
    let (w, i) = (m / 64, (m % 64) as nat);
    assert(0 <= w < words_for(total));
    lemma_packed_fit(x, lhs, total, m);
    lemma_packed_fit(y, rhs, total, m);
    lemma_and_lane(prf, lhs, rhs, words, words_for(total), w, i);
    lemma_lane_value(words, m);
}

/// One place of a round: the result is shared, and is the conjunction of the two halves.
proof fn lemma_round_place(
    prf: Prf3,
    s: Products3,
    lhs: Batch3<u64>,
    rhs: Batch3<u64>,
    words: Batch3<u64>,
    n: nat,
    len: nat,
    m: int,
)
    requires
        all_in_step(prf),
        columns_fit(s, n, len),
        s.0.asks(lhs.0, rhs.0) && s.1.asks(lhs.1, rhs.1) && s.2.asks(lhs.2, rhs.2),
        and_ran(prf, lhs, rhs, words),
        0 <= m < n / 2 * len,
    ensures
        ({
            let (x, y) = (halves(s, false), halves(s, true));
            &&& consistent(lane(words.0, m), lane(words.1, m), lane(words.2, m))
            &&& xor_value(lane(words.0, m), lane(words.1, m), lane(words.2, m)) == (xor_value(
                x.0[m],
                x.1[m],
                x.2[m],
            ) && xor_value(y.0[m], y.1[m], y.2[m]))
        }),
{
    lemma_half_fits(s, n, len, false);
    lemma_half_fits(s, n, len, true);
    lemma_packed_and(
        prf,
        halves(s, false),
        halves(s, true),
        lhs,
        rhs,
        words,
        (n / 2 * len) as nat,
        m,
    );
}

/// A round keeps the vectors fitting, and combines the bits at every place.
proof fn lemma_product_round(
    prf: Prf3,
    s: Products3,
    lhs: Batch3<u64>,
    rhs: Batch3<u64>,
    words: Batch3<u64>,
    after: Products3,
    n: nat,
    len: nat,
)
    requires
        all_in_step(prf),
        n > 1,
        columns_fit(s, n, len),
        s.0.asks(lhs.0, rhs.0) && s.1.asks(lhs.1, rhs.1) && s.2.asks(lhs.2, rhs.2),
        and_ran(prf, lhs, rhs, words),
        s.0.advances(words.0, after.0) && s.1.advances(words.1, after.1) && s.2.advances(
            words.2,
            after.2,
        ),
    ensures
        columns_fit(after, n / 2 + n % 2, len),
        forall|e: int|
            0 <= e < len ==> #[trigger] bits_at(after, e) == combined_bits(bits_at(s, e)),
{
    let half = n as int / 2;
    assert forall|j: int, e: int| 0 <= j < half + n as int % 2 && 0 <= e < len implies consistent(
        #[trigger] after.0.columns@[j]@[e],
        after.1.columns@[j]@[e],
        after.2.columns@[j]@[e],
    ) && bits_at(after, e)[j] == combined_bits(bits_at(s, e))[j] by {
        if j < half {
            lemma_round_column(prf, s, lhs, rhs, words, after, n, len, j, e);
        } else {
            assert(after.0.columns@.last() == s.0.columns@.last());
            assert(consistent(
                s.0.columns@[n - 1]@[e],
                s.1.columns@[n - 1]@[e],
                s.2.columns@[n - 1]@[e],
            ));
        }
    }
    assert forall|e: int| 0 <= e < len implies #[trigger] bits_at(after, e) == combined_bits(
        bits_at(s, e),
    ) by {
        assert forall|j: int| 0 <= j < half + n as int % 2 implies bits_at(after, e)[j]
            == combined_bits(bits_at(s, e))[j] by {
            let share = after.0.columns@[j]@[e];
        }
        assert(bits_at(after, e) =~= combined_bits(bits_at(s, e)));
    }
}

/// One entry of a vector that a round combined.
proof fn lemma_round_column(
    prf: Prf3,
    s: Products3,
    lhs: Batch3<u64>,
    rhs: Batch3<u64>,
    words: Batch3<u64>,
    after: Products3,
    n: nat,
    len: nat,
    j: int,
    e: int,
)
    requires
        all_in_step(prf),
        n > 1,
        columns_fit(s, n, len),
        s.0.asks(lhs.0, rhs.0) && s.1.asks(lhs.1, rhs.1) && s.2.asks(lhs.2, rhs.2),
        and_ran(prf, lhs, rhs, words),
        s.0.advances(words.0, after.0) && s.1.advances(words.1, after.1) && s.2.advances(
            words.2,
            after.2,
        ),
        0 <= j < n / 2,
        0 <= e < len,
    ensures
        consistent(
            after.0.columns@[j]@[e],
            after.1.columns@[j]@[e],
            after.2.columns@[j]@[e],
        ),
        bits_at(after, e)[j] == combined_bits(bits_at(s, e))[j],
{
    let half = n as int / 2;
    let m = j * len + e;
    assert(0 <= m < half * len) by (nonlinear_arith)
        requires
            m == j * len + e,
            0 <= j < half,
            0 <= e < len,
    ;
    lemma_fundamental_div_mod_converse(m, len as int, j, e);
    lemma_round_place(prf, s, lhs, rhs, words, n, len, m);
    lemma_round_entry(s.0, words.0, after.0, n, len, m);
    lemma_round_entry(s.1, words.1, after.1, n, len, m);
    lemma_round_entry(s.2, words.2, after.2, n, len, m);
}

/// One entry of one party before and after a round.
proof fn lemma_round_entry(
    s: AndProduct,
    words: Seq<Share<u64>>,
    after: AndProduct,
    n: nat,
    len: nat,
    m: int,
)
    requires
        s.wf() && s.len == len && s.columns@.len() == n,
        s.advances(words, after),
        0 <= m < n / 2 * len,
    ensures
        ({
            let half = n as int / 2;
            let (j, e) = (m / len as int, m % len as int);
            &&& after.columns@[j]@[e] == lane(words, m)
            &&& flat(s.left(), half as nat)[m] == s.columns@[j]@[e]
            &&& flat(s.right(), half as nat)[m] == s.columns@[half + j]@[e]
        }),
{
    let half = n as int / 2;
    lemma_half(s, false, m);
    lemma_half(s, true, m);
    assert(rectangular(after.columns@, len));
    lemma_flat_rect(after.columns@, len, half as nat);
    let all = flat(after.columns@, half as nat);
    assert(all[m] == after.columns@[m / len as int]@[m % len as int]);
    let total = flat(s.left(), half as nat).len();
    assert(all == Seq::new(total, |i: int| lane(words, i)));
    assert(all[m] == lane(words, m));
}

/// The vectors fit before every round, and the bits at every place keep their conjunction.
proof fn lemma_product_track(prf: Prf3, run: ProductRun, n: nat, len: nat, r: nat)
    requires
        all_in_step(prf),
        n >= 1,
        columns_fit(run.states[0], n, len),
        run.ran(prf),
        r < run.states.len(),
    ensures
        columns_fit(run.states[r as int], run.states[r as int].0.columns@.len(), len),
        forall|e: int|
            0 <= e < len ==> all_set(#[trigger] bits_at(run.states[r as int], e)) == all_set(
                bits_at(run.states[0], e),
            ),
        all_in_step(run.prfs(prf, r)),
    decreases r,
{
    if r > 0 {
        let k = r - 1;
        lemma_product_track(prf, run, n, len, k as nat);
        assert(run.goes_on(prf, k));
        let (s, after) = (run.states[k], run.states[k + 1]);
        let count = s.0.columns@.len();
        let now = run.prfs(prf, k as nat);
        lemma_product_round(
            now,
            s,
            run.lhs[k],
            run.rhs[k],
            run.words[k],
            after,
            count,
            len,
        );
        assert forall|e: int| 0 <= e < len implies all_set(#[trigger] bits_at(after, e)) == all_set(
            bits_at(run.states[0], e),
        ) by {
            assert(all_set(bits_at(s, e)) == all_set(bits_at(run.states[0], e)));
            lemma_round_keeps_product(bits_at(s, e));
        }
        lemma_half_fits(s, count, len, false);
        let total = (count / 2 * len) as nat;
        assert(first_parts(run.lhs[k].0).len() == run.lhs[k].0.len());
        assert(first_parts(run.lhs[k].1).len() == run.lhs[k].1.len());
        assert(first_parts(run.lhs[k].2).len() == run.lhs[k].2.len());
        lemma_stay_in_step::<u64>(now.0, now.1, now.2, words_for(total) as int);
    }
}

/// A conjunction is correct: the shares that the parties end with fit together, and at every place
/// they stand for the conjunction of all vectors. The parties stay in step.
pub proof fn lemma_product_run_correct(prf: Prf3, run: ProductRun, n: nat, len: nat)
    requires
        all_in_step(prf),
        n >= 1,
        columns_fit(run.states[0], n, len),
        run.ran(prf),
    ensures
        ({
            let last = run.states.last();
            let r = (last.0.columns@[0]@, last.1.columns@[0]@, last.2.columns@[0]@);
            &&& batch_fits(r, len)
            &&& forall|e: int|
                0 <= e < len ==> xor_value(#[trigger] r.0[e], r.1[e], r.2[e]) == all_set(
                    bits_at(run.states[0], e),
                )
        }),
        all_in_step(run.end(prf)),
{
    let t = (run.states.len() - 1) as nat;
    lemma_product_track(prf, run, n, len, t);
    let last = run.states.last();
    assert(last == run.states[t as int]);
    let r = (last.0.columns@[0]@, last.1.columns@[0]@, last.2.columns@[0]@);
    assert(r.0.len() == len && r.1.len() == len && r.2.len() == len);
    assert forall|e: int| 0 <= e < len implies consistent(#[trigger] r.0[e], r.1[e], r.2[e])
        && xor_value(r.0[e], r.1[e], r.2[e]) == all_set(bits_at(run.states[0], e)) by {
        assert(consistent(
            last.0.columns@[0]@[e],
            last.1.columns@[0]@[e],
            last.2.columns@[0]@[e],
        ));
        let bits = bits_at(last, e);
        assert(bits[0] == xor_value(r.0[e], r.1[e], r.2[e]));
        assert(all_set(bits) == bits[0]);
    }
}

} // verus!
