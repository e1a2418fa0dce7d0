//! Opening words that five parties share.
//!
//! Every party combines the six components that it holds. Each of the four that it misses comes
//! from the first holder of that component, who combines all that it provides into one message.

use crate::bit_slice::words_for;
use crate::message::{expected_vec, recv_elems, NetworkValue, ProtocolError};
use crate::ring::IntRing2k;
use crate::ring_lemmas::{bit, group_bits, lemma_bits_ext, zero};
use crate::rss5::{
    bits_at, consistent5, holds_parts, in_set, lemma_slots, lemma_three_holders, lemma_xor_all_bit,
    open_provider, parity, part, parts_of, provider_of, set_contains, slot_of, value5, Share5,
};
use crate::rss5_adder::AdderInput;
use crate::rss5_session::Rss5Session;
use vstd::prelude::*;

verus! {

/// Whether party `p` provides component `t` to party `q`.
pub open spec fn provides(p: int, q: int, t: int) -> bool {
    in_set(t, q) && provider_of(t) == p
}

/// Whether party `p` provides one of the first `n` components to party `q`.
pub open spec fn provides_any(p: int, q: int, n: nat) -> bool
    decreases n,
{
    n > 0 && (provides(p, q, n - 1) || provides_any(p, q, (n - 1) as nat))
}

/// The components among the first `n` that party `p` provides to party `q`, combined.
pub open spec fn provided(p: int, q: int, share: Share5<u64>, n: nat) -> u64
    decreases n,
{
    if n == 0 {
        zero::<u64>()
    } else if provides(p, q, n - 1) {
        provided(p, q, share, (n - 1) as nat).bxor(part(p, share, n - 1))
    } else {
        provided(p, q, share, (n - 1) as nat)
    }
}

/// The components among the first `n` that party `p` holds, combined.
pub open spec fn held(p: int, share: Share5<u64>, n: nat) -> u64
    decreases n,
{
    if n == 0 {
        zero::<u64>()
    } else if in_set(n - 1, p) {
        held(p, share, (n - 1) as nat)
    } else {
        held(p, share, (n - 1) as nat).bxor(part(p, share, n - 1))
    }
}

/// How many of the first `n` parties provide something to party `p`.
pub open spec fn providers_before(p: int, n: nat) -> nat
    decreases n,
{
    if n == 0 {
        0
    } else if provides_any(n - 1, p, 10) {
        providers_before(p, (n - 1) as nat) + 1
    } else {
        providers_before(p, (n - 1) as nat)
    }
}

/// The words of party `p` once the messages of the first `n` parties are combined with its own.
pub open spec fn opened_words(
    p: int,
    own: Seq<u64>,
    msgs: Seq<NetworkValue>,
    n: nat,
) -> Result<Seq<u64>, ProtocolError>
    decreases n,
{
    if n == 0 {
        Ok(own)
    } else {
        match opened_words(p, own, msgs, (n - 1) as nat) {
            Err(e) => Err(e),
            Ok(words) => if provides_any(n - 1, p, 10) {
                match expected_vec::<u64>(
                    msgs[providers_before(p, (n - 1) as nat) as int],
                    own.len(),
                ) {
                    Err(e) => Err(e),
                    Ok(v) => Ok(Seq::new(own.len(), |k: int| words[k].bxor(v[k]))),
                }
            } else {
                Ok(words)
            },
        }
    }
}

/// Whether a party provides anything to another.
pub fn provides_something(p: usize, q: usize) -> (r: bool)
    ensures
        r == provides_any(p as int, q as int, 10),
{
    let mut found: bool = false;
    let mut t: usize = 0;
    while t < 10
        invariant
            t <= 10,
            found == provides_any(p as int, q as int, t as nat),
        decreases 10 - t,
    {
        if set_contains(t, q) && open_provider(t) == p {
            found = true;
        }
        t += 1;
    }
    found
}

impl Rss5Session {
    /// The own components of every word, combined.
    pub fn open_own(&self, plane: &[Share5<u64>]) -> (r: Vec<u64>)
        requires
            self.wf(),
        ensures
            r@ == Seq::new(plane@.len(), |k: int| held(self@.party, plane@[k], 10)),
    {
        let mut out: Vec<u64> = Vec::new();
        let mut k: usize = 0;
        while k < plane.len()
            invariant
                self.wf(),
                k <= plane@.len(),
                out@.len() == k,
                forall|j: int| 0 <= j < k ==> #[trigger] out@[j] == held(self@.party, plane@[j], 10),
            decreases plane@.len() - k,
        {
            let share: Share5<u64> = plane[k];
            let mut acc: u64 = 0;
            let mut t: usize = 0;
            while t < 10
                invariant
                    self.wf(),
                    t <= 10,
                    acc == held(self@.party, share, t as nat),
                decreases 10 - t,
            {
                assert(self.topo.local_idx@[t as int] == (if in_set(t as int, self@.party) {
                    None::<usize>
                } else {
                    Some(slot_of(self@.party, t as int) as usize)
                }));
                if let Some(slot) = self.topo.local_idx[t] {
                    proof {
                        lemma_slots(self@.party, t as nat);
                    }
                    acc = acc.ring_xor(share.c[slot]);
                }
                t += 1;
            }
            out.push(acc);
            k += 1;
        }
        assert(out@ =~= Seq::new(plane@.len(), |j: int| held(self@.party, plane@[j], 10)));
        out
    }

    /// The message of an opening to another party, if the party provides anything to it.
    pub fn open_message(&self, plane: &[Share5<u64>], receiver: usize) -> (r: Option<Vec<u64>>)
        requires
            self.wf(),
        ensures
            (r is Some) == provides_any(self@.party, receiver as int, 10),
            r is Some ==> (r->0)@ == Seq::new(
                plane@.len(),
                |k: int| provided(self@.party, receiver as int, plane@[k], 10),
            ),
    {
        if !provides_something(self.topo.party, receiver) {
            return None;
        }
        let mut out: Vec<u64> = Vec::new();
        let mut k: usize = 0;
        while k < plane.len()
            invariant
                self.wf(),
                k <= plane@.len(),
                out@.len() == k,
                forall|j: int|
                    0 <= j < k ==> #[trigger] out@[j] == provided(
                        self@.party,
                        receiver as int,
                        plane@[j],
                        10,
                    ),
            decreases plane@.len() - k,
        {
            let share: Share5<u64> = plane[k];
            let mut acc: u64 = 0;
            let mut t: usize = 0;
            while t < 10
                invariant
                    self.wf(),
                    t <= 10,
                    acc == provided(self@.party, receiver as int, share, t as nat),
                decreases 10 - t,
            {
                if set_contains(t, receiver) && open_provider(t) == self.topo.party {
                    proof {
                        lemma_slots(self@.party, t as nat);
                    }
                    assert(self.topo.local_idx@[t as int] == Some(
                        slot_of(self@.party, t as int) as usize,
                    ));
                    if let Some(slot) = self.topo.local_idx[t] {
                        acc = acc.ring_xor(share.c[slot]);
                    }
                }
                t += 1;
            }
            out.push(acc);
            k += 1;
        }
        assert(out@ =~= Seq::new(
            plane@.len(),
            |j: int| provided(self@.party, receiver as int, plane@[j], 10),
        ));
        Some(out)
    }
}

/// The first `n` bits of words.
pub fn plane_to_bools(plane: &[u64], n: usize) -> (r: Vec<bool>)
    requires
        words_for(n as nat) <= plane@.len(),
    ensures
        r@ == Seq::new(n as nat, |i: int| bit(plane@[i / 64], (i % 64) as nat)),
{
    let mut out: Vec<bool> = Vec::new();
    let mut i: usize = 0;
    while i < n
        invariant
            i <= n,
            words_for(n as nat) <= plane@.len(),
            out@.len() == i,
            forall|j: int| 0 <= j < i ==> #[trigger] out@[j] == bit(plane@[j / 64], (j % 64) as nat),
        decreases n - i,
    {
        out.push(plane[i / 64].bit_at(i % 64));
        i += 1;
    }
    assert(out@ =~= Seq::new(n as nat, |j: int| bit(plane@[j / 64], (j % 64) as nat)));
    out
}

/// Opens a bit plane of `n` bits, with the messages of the parties that provide something, in
/// order.
pub fn open_bit_plane(
    sess: &Rss5Session,
    plane: &[Share5<u64>],
    n: usize,
    received: &[NetworkValue],
) -> (r: Result<Vec<bool>, ProtocolError>)
    requires
        sess.wf(),
        words_for(n as nat) <= plane@.len(),
    ensures
        received@.len() != providers_before(sess@.party, 5) ==> r == Err::<
            Vec<bool>,
            ProtocolError,
        >(ProtocolError::LengthMismatch),
        received@.len() == providers_before(sess@.party, 5) ==> {
            let own = Seq::new(plane@.len(), |k: int| held(sess@.party, plane@[k], 10));
            match opened_words(sess@.party, own, received@, 5) {
                Err(e) => r == Err::<Vec<bool>, ProtocolError>(e),
                Ok(words) => r is Ok && r->Ok_0@ == Seq::new(
                    n as nat,
                    |i: int| bit(words[i / 64], (i % 64) as nat),
                ),
            }
        },
{
    let p: usize = sess.topo.party;
    let mut expected: usize = 0;
    let mut m: usize = 0;
    while m < 5
        invariant
            m <= 5,
            expected <= m,
            expected == providers_before(p as int, m as nat),
        decreases 5 - m,
    {
        if provides_something(m, p) {
            expected += 1;
        }
        m += 1;
    }
    if received.len() != expected {
        return Err(ProtocolError::LengthMismatch);
    }
    let mut acc: Vec<u64> = sess.open_own(plane);
    let ghost own = acc@;
    let len: usize = acc.len();
    let mut taken: usize = 0;
    let mut q: usize = 0;
    while q < 5
        invariant
            q <= 5,
            len == own.len(),
            acc@.len() == len,
            p == sess@.party,
            received@.len() == providers_before(p as int, 5),
            own == Seq::new(plane@.len(), |k: int| held(sess@.party, plane@[k], 10)),
            taken == providers_before(p as int, q as nat),
            opened_words(p as int, own, received@, q as nat) == Ok::<Seq<u64>, ProtocolError>(acc@),
        decreases 5 - q,
    {
        if provides_something(q, p) {
            proof {
                lemma_providers_grow(p as int, (q + 1) as nat, 5);
            }
            match recv_elems::<u64>(&received[taken], len) {
                Ok(v) => {
                    let ghost before = acc@;
                    let mut k: usize = 0;
                    while k < len
                        invariant
                            k <= len,
                            len == own.len(),
                            before.len() == len,
                            acc@.len() == len,
                            v@.len() == len,
                            forall|j: int|
                                0 <= j < k ==> #[trigger] acc@[j] == before[j].bxor(v@[j]),
                            forall|j: int| k <= j < len ==> #[trigger] acc@[j] == before[j],
                        decreases len - k,
                    {
                        let x: u64 = acc[k].ring_xor(v[k]);
                        acc.set(k, x);
                        k += 1;
                    }
                    assert(acc@ =~= Seq::new(own.len(), |j: int| before[j].bxor(v@[j])));
                },
                Err(e) => {
                    proof {
                        lemma_open_error_stays(p as int, own, received@, (q + 1) as nat, 5, e);
                    }
                    return Err(e);
                },
            }
            taken += 1;
        }
        q += 1;
    }
    Ok(plane_to_bools(acc.as_slice(), n))
}

/// Last step of comparing sums to zero: opens the plane of their top bits, which tell which sums
/// are below zero.
pub fn lt_zero_and_open_u16(
    sess: &Rss5Session,
    msb: &[Share5<u64>],
    input: &AdderInput,
    received: &[NetworkValue],
) -> (r: Result<Vec<bool>, ProtocolError>)
    requires
        sess.wf(),
        words_for(input.len as nat) <= msb@.len(),
    ensures
        received@.len() != providers_before(sess@.party, 5) ==> r == Err::<
            Vec<bool>,
            ProtocolError,
        >(ProtocolError::LengthMismatch),
        received@.len() == providers_before(sess@.party, 5) ==> {
            let own = Seq::new(msb@.len(), |k: int| held(sess@.party, msb@[k], 10));
            match opened_words(sess@.party, own, received@, 5) {
                Err(e) => r == Err::<Vec<bool>, ProtocolError>(e),
                Ok(words) => r is Ok && r->Ok_0@ == Seq::new(
                    input.len as nat,
                    |i: int| bit(words[i / 64], (i % 64) as nat),
                ),
            }
        },
{
    open_bit_plane(sess, msb, input.len, received)
}

proof fn lemma_providers_grow(p: int, m: nat, n: nat)
    requires
        m <= n,
    ensures
        providers_before(p, m) <= providers_before(p, n),
    decreases n,
{
    if m < n {
        lemma_providers_grow(p, m, (n - 1) as nat);
    }
}

proof fn lemma_open_error_stays(
    p: int,
    own: Seq<u64>,
    msgs: Seq<NetworkValue>,
    m: nat,
    n: nat,
    e: ProtocolError,
)
    requires
        m <= n,
        opened_words(p, own, msgs, m) == Err::<Seq<u64>, ProtocolError>(e),
    ensures
        opened_words(p, own, msgs, n) == Err::<Seq<u64>, ProtocolError>(e),
    decreases n,
{
    if m < n {
        lemma_open_error_stays(p, own, msgs, m, (n - 1) as nat, e);
    }
}

/// The bits at one place of what party `p` holds and of what the others provide to it.
proof fn lemma_open_bits(p: int, shares: Seq<Share5<u64>>, n: nat, i: nat)
    requires
        0 <= p < 5,
        n <= 10,
        i < 64,
        consistent5(shares),
    ensures
        parity(bits_at(parts_of(shares), i), n) == (bit(held(p, shares[p], n), i) ^ bit(
            provided(0, p, shares[0], n),
            i,
        ) ^ bit(provided(1, p, shares[1], n), i) ^ bit(provided(2, p, shares[2], n), i) ^ bit(
            provided(3, p, shares[3], n),
            i,
        ) ^ bit(provided(4, p, shares[4], n), i)),
    decreases n,
{
    broadcast use group_bits;

    if n > 0 {
        lemma_open_bits(p, shares, (n - 1) as nat, i);
        let t = n - 1;
        lemma_three_holders(t);
        let q = provider_of(t);
        assert(holds_parts(p, shares[p], parts_of(shares)));
        assert(holds_parts(q, shares[q], parts_of(shares)));
        let x = parts_of(shares)[t];
        if in_set(t, p) {
            assert(part(q, shares[q], t) == x);
            assert(q == 0 || q == 1 || q == 2 || q == 3 || q == 4);
        } else {
            assert(part(p, shares[p], t) == x);
        }
    }
}

/// Nothing is provided where no component is.
proof fn lemma_provided_nothing(p: int, q: int, share: Share5<u64>, n: nat)
    requires
        !provides_any(p, q, n),
    ensures
        provided(p, q, share, n) == zero::<u64>(),
    decreases n,
{
    if n > 0 {
        lemma_provided_nothing(p, q, share, (n - 1) as nat);
    }
}

/// The messages of the first `n` parties reached party `p` as they were sent.
pub open spec fn delivered(
    p: int,
    planes: Seq<Seq<Share5<u64>>>,
    msgs: Seq<NetworkValue>,
    n: nat,
) -> bool {
    forall|q: int|
        0 <= q < n && #[trigger] provides_any(q, p, 10) ==> expected_vec::<u64>(
            msgs[providers_before(p, q as nat) as int],
            planes[p].len(),
        ) == Ok::<Seq<u64>, ProtocolError>(
            Seq::new(planes[p].len(), |k: int| provided(q, p, planes[q][k], 10)),
        )
}

/// Bit `i` of word `k` once the messages of the first `n` parties are combined.
spec fn opened_bit(p: int, planes: Seq<Seq<Share5<u64>>>, k: int, n: nat, i: nat) -> bool
    decreases n,
{
    if n == 0 {
        bit(held(p, planes[p][k], 10), i)
    } else {
        opened_bit(p, planes, k, (n - 1) as nat, i) ^ bit(
            provided(n - 1, p, planes[n - 1][k], 10),
            i,
        )
    }
}

proof fn lemma_opened_words(
    p: int,
    planes: Seq<Seq<Share5<u64>>>,
    own: Seq<u64>,
    msgs: Seq<NetworkValue>,
    n: nat,
)
    requires
        n <= 5,
        own == Seq::new(planes[p].len(), |k: int| held(p, planes[p][k], 10)),
        delivered(p, planes, msgs, n),
    ensures
        opened_words(p, own, msgs, n) is Ok,
        opened_words(p, own, msgs, n)->Ok_0.len() == own.len(),
        forall|k: int, i: nat|
            0 <= k < own.len() && i < 64 ==> #[trigger] bit(
                opened_words(p, own, msgs, n)->Ok_0[k],
                i,
            ) == opened_bit(p, planes, k, n, i),
    decreases n,
{
    broadcast use group_bits;

    if n > 0 {
        let m = (n - 1) as nat;
        let q = n - 1;
        lemma_opened_words(p, planes, own, msgs, m);
        let words = opened_words(p, own, msgs, m)->Ok_0;
        let after = opened_words(p, own, msgs, n)->Ok_0;
        assert(provides_any(q, p, 10) || !provides_any(q, p, 10));
        assert forall|k: int, i: nat| 0 <= k < own.len() && i < 64 implies #[trigger] bit(
            after[k],
            i,
        ) == opened_bit(p, planes, k, n, i) by {
            assert(bit(words[k], i) == opened_bit(p, planes, k, m, i));
            if !provides_any(q, p, 10) {
                lemma_provided_nothing(q, p, planes[q][k], 10);
            }
        }
    }
}

/// Every party opens the shared words: the messages that it receives complete its own components.
pub proof fn lemma_open5_correct(
    p: int,
    planes: Seq<Seq<Share5<u64>>>,
    msgs: Seq<NetworkValue>,
    k: int,
)
    requires
        0 <= p < 5,
        planes.len() == 5,
        0 <= k < planes[p].len(),
        consistent5(Seq::new(5, |q: int| planes[q][k])),
        delivered(p, planes, msgs, 5),
    ensures
        ({
            let own = Seq::new(planes[p].len(), |j: int| held(p, planes[p][j], 10));
            let words = opened_words(p, own, msgs, 5);
            words is Ok && words->Ok_0.len() == planes[p].len() && words->Ok_0[k] == value5(
                Seq::new(5, |q: int| planes[q][k]),
            )
        }),
{
    let own = Seq::new(planes[p].len(), |j: int| held(p, planes[p][j], 10));
    let shares = Seq::new(5, |q: int| planes[q][k]);
    lemma_opened_words(p, planes, own, msgs, 5);
    let word = opened_words(p, own, msgs, 5)->Ok_0[k];
    assert forall|i: nat| i < 64 implies bit(word, i) == bit(value5(shares), i) by {
        lemma_open_bits(p, shares, 10, i);
        lemma_xor_all_bit(parts_of(shares), 10, i);
        reveal_with_fuel(opened_bit, 6);
    }
    lemma_bits_ext(word, value5(shares));
}

} // verus!
