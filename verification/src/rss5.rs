//! Replicated secret sharing among five parties, of which any two together learn nothing.
//!
//! A value is split into ten components, one for each pair of parties; a component is held by the
//! three parties outside its pair. The components combine to the value by exclusive or.

use crate::ring::{bit_int, IntRing2k};
use crate::ring_lemmas::{bit, group_bits, lemma_bits_ext, zero};
use crate::shares::XorShare;
use vstd::prelude::*;

verus! {

/// Number of parties.
pub const NUM_PARTIES: usize = 5;

/// Number of pairs of parties.
pub const NUM_SETS: usize = 10;

/// All pairs of the five parties, in lexicographic order.
pub const SETS: [(usize, usize); 10] = [
    (0, 1),
    (0, 2),
    (0, 3),
    (0, 4),
    (1, 2),
    (1, 3),
    (1, 4),
    (2, 3),
    (2, 4),
    (3, 4),
];

/// Whether party `p` belongs to pair `t`.
pub open spec fn in_set(t: int, p: int) -> bool {
    SETS@[t].0 == p || SETS@[t].1 == p
}

/// Whether party `p` belongs to pair `t`.
pub fn set_contains(t: usize, p: usize) -> (r: bool)
    requires
        t < 10,
    ensures
        r == in_set(t as int, p as int),
        r == (SETS@[t as int].0 == p || SETS@[t as int].1 == p),
{
    SETS[t].0 == p || SETS[t].1 == p
}

/// The number of the pair of two parties, in whichever order they are given.
pub fn set_index(a: usize, b: usize) -> (r: usize)
    requires
        a < 5,
        b < 5,
        a != b,
    ensures
        r < 10,
        in_set(r as int, a as int),
        in_set(r as int, b as int),
        r == index_of_set(a as int, b as int),
{
    let low: usize = if a < b { a } else { b };
    let high: usize = if a < b { b } else { a };
    let mut t: usize = 0;
    while SETS[t].0 != low || SETS[t].1 != high
        invariant
            t < 10,
            low < high < 5,
            t <= index_of_set(low as int, high as int),
        decreases 10 - t,
    {
        t += 1;
    }
    t
}

/// The number of the pair of two parties.
pub open spec fn index_of_set(a: int, b: int) -> int {
    let (low, high) = if a < b {
        (a, b)
    } else {
        (b, a)
    };
    if low == 0 {
        high - 1
    } else if low == 1 {
        high + 2
    } else if low == 2 {
        high + 4
    } else {
        9
    }
}

/// The first `n` parties without those of pair `t`, in order.
pub open spec fn holders_of(t: int, n: nat) -> Seq<usize>
    decreases n,
{
    if n == 0 {
        Seq::empty()
    } else if in_set(t, n - 1) {
        holders_of(t, (n - 1) as nat)
    } else {
        holders_of(t, (n - 1) as nat).push((n - 1) as usize)
    }
}

/// The three parties that hold component `t`, in order.
pub fn holders(t: usize) -> (r: Vec<usize>)
    requires
        t < 10,
    ensures
        r@ == holders_of(t as int, 5),
        r@.len() == 3,
        forall|i: int| 0 <= i < 3 ==> #[trigger] r@[i] < 5 && !in_set(t as int, r@[i] as int),
        r@[0] < r@[1] < r@[2],
{
    let mut out: Vec<usize> = Vec::new();
    let mut p: usize = 0;
    while p < 5
        invariant
            p <= 5,
            t < 10,
            out@ == holders_of(t as int, p as nat),
        decreases 5 - p,
    {
        if !set_contains(t, p) {
            out.push(p);
        }
        p += 1;
    }
    proof {
        lemma_three_holders(t as int);
    }
    out
}

/// Every component has exactly three holders, and they are the parties outside its pair.
pub proof fn lemma_three_holders(t: int)
    requires
        0 <= t < 10,
    ensures
        holders_of(t, 5).len() == 3,
        holders_of(t, 5)[0] < holders_of(t, 5)[1] < holders_of(t, 5)[2] < 5,
        forall|i: int| 0 <= i < 3 ==> !in_set(t, #[trigger] holders_of(t, 5)[i] as int),
        forall|p: usize| p < 5 && !in_set(t, p as int) ==> holders_of(t, 5).contains(p),
{
    reveal_with_fuel(holders_of, 6);
    let h = holders_of(t, 5);
    assert(h.len() == 3);
    assert forall|p: usize| p < 5 && !in_set(t, p as int) implies h.contains(p) by {
        assert(h[0] == p || h[1] == p || h[2] == p);
    }
}

/// The component that carries the correction when party `i` shares a value: that of the two
/// parties after it.
pub open spec fn correction_set(i: int) -> int {
    index_of_set((i + 1) % 5, (i + 2) % 5)
}

/// The component that carries the correction when party `i` shares a value.
pub fn corr_set(i: usize) -> (r: usize)
    requires
        i < 5,
    ensures
        r < 10,
        r == correction_set(i as int),
        !in_set(r as int, i as int),
        in_set(r as int, (i + 1) % 5),
        in_set(r as int, (i + 2) % 5),
{
    set_index((i + 1) % 5, (i + 2) % 5)
}

/// The two parties besides `i` that hold its correction component.
pub fn corr_receivers(i: usize) -> (r: [usize; 2])
    requires
        i < 5,
    ensures
        r@[0] == (i + 3) % 5,
        r@[1] == (i + 4) % 5,
        !in_set(correction_set(i as int), r@[0] as int),
        !in_set(correction_set(i as int), r@[1] as int),
{
    [(i + 3) % 5, (i + 4) % 5]
}

/// The party that provides component `t` when a value is opened: its first holder.
pub open spec fn provider_of(t: int) -> int {
    holders_of(t, 5)[0] as int
}

/// The party that provides component `t` when a value is opened: its first holder.
pub fn open_provider(t: usize) -> (r: usize)
    requires
        t < 10,
    ensures
        r == provider_of(t as int),
        r < 5,
        !in_set(t as int, r as int),
        forall|q: int| 0 <= q < r ==> in_set(t as int, q),
{
    holders(t)[0]
}

/// The first `n` components that a party holds, in order.
pub open spec fn held_sets(p: int, n: nat) -> Seq<usize>
    decreases n,
{
    if n == 0 {
        Seq::empty()
    } else if in_set(n - 1, p) {
        held_sets(p, (n - 1) as nat)
    } else {
        held_sets(p, (n - 1) as nat).push((n - 1) as usize)
    }
}

/// Where party `p` keeps component `t`: after the components before it that it holds.
pub open spec fn slot_of(p: int, t: int) -> int {
    held_sets(p, t as nat).len() as int
}

/// The first party outside both pairs, to which the product of two components is assigned.
pub open spec fn assignee(s: int, r: int) -> int {
    if !in_set(s, 0) && !in_set(r, 0) {
        0
    } else if !in_set(s, 1) && !in_set(r, 1) {
        1
    } else if !in_set(s, 2) && !in_set(r, 2) {
        2
    } else if !in_set(s, 3) && !in_set(r, 3) {
        3
    } else {
        4
    }
}

/// Some party is outside any two pairs, so every product has an assignee that holds both factors.
pub proof fn lemma_assignee_holds_both(s: int, r: int)
    requires
        0 <= s < 10,
        0 <= r < 10,
    ensures
        0 <= assignee(s, r) < 5,
        !in_set(s, assignee(s, r)),
        !in_set(r, assignee(s, r)),
{
}

/// The slots of the factors of the first `n` products that are assigned to a party. Product `n`
/// is that of component `n / 10` of the left and component `n % 10` of the right operand.
pub open spec fn assigned(p: int, n: nat) -> Seq<(usize, usize)>
    decreases n,
{
    if n == 0 {
        Seq::empty()
    } else {
        let (s, r) = ((n - 1) / 10, (n - 1) % 10);
        let rest = assigned(p, (n - 1) as nat);
        if assignee(s, r) == p {
            rest.push((slot_of(p, s) as usize, slot_of(p, r) as usize))
        } else {
            rest
        }
    }
}

/// A party holds at most six components; each of the five parties holds exactly six.
pub proof fn lemma_slots(p: int, t: nat)
    requires
        0 <= p < 5,
        t <= 10,
    ensures
        held_sets(p, t).len() <= 6,
        t < 10 && !in_set(t as int, p) ==> held_sets(p, t).len() < 6,
        t == 10 ==> held_sets(p, t).len() == 6,
{
    lemma_held_count(p, t);
}

/// How many of the first `t` components a party holds.
proof fn lemma_held_count(p: int, t: nat)
    requires
        0 <= p < 5,
        t <= 10,
    ensures
        held_sets(p, t).len() == held_count(p, t as int),
    decreases t,
{
    if t > 0 {
        lemma_held_count(p, (t - 1) as nat);
        assert(p == 0 || p == 1 || p == 2 || p == 3 || p == 4);
        assert(in_set(t - 1, p) == (held_count(p, t as int) == held_count(p, t - 1)));
    }
}

/// The number of components below `t` that a party holds: all but those of its own pairs.
spec fn held_count(p: int, t: int) -> int {
    t - own_below(p, 0, t) - own_below(p, 1, t) - own_below(p, 2, t) - own_below(p, 3, t)
        - own_below(p, 4, t)
}

/// One if the pair of two parties is below `t`.
spec fn own_below(p: int, q: int, t: int) -> int {
    bit_int(p != q && index_of_set(p, q) < t)
}

/// What a party holds and what it computes.
pub struct Topology {
    pub party: usize,
    /// The components that the party holds, in order.
    pub held: Vec<usize>,
    /// Where the party keeps a component, if it holds it.
    pub local_idx: [Option<usize>; 10],
    /// The slots of the factors of the products that are assigned to the party.
    pub and_pairs: Vec<(usize, usize)>,
}

impl Topology {
    /// The tables are those of the party.
    pub open spec fn wf(&self) -> bool {
        &&& self.held@ == held_sets(self.party as int, 10)
        &&& forall|t: int|
            0 <= t < 10 ==> #[trigger] self.local_idx@[t] == (if in_set(t, self.party as int) {
                None::<usize>
            } else {
                Some(slot_of(self.party as int, t) as usize)
            })
        &&& self.and_pairs@ == assigned(self.party as int, 100)
    }

    /// The tables of a party.
    pub fn new(party: usize) -> (r: Topology)
        ensures
            r.party == party,
            r.wf(),
            r.held@ == held_sets(party as int, 10),
            forall|t: int|
                0 <= t < 10 && in_set(t, party as int) ==> #[trigger] r.local_idx@[t] is None,
            forall|t: int|
                0 <= t < 10 && !in_set(t, party as int) ==> #[trigger] r.local_idx@[t] == Some(
                    slot_of(party as int, t) as usize,
                ),
            r.and_pairs@ == assigned(party as int, 100),
    {
        let mut held: Vec<usize> = Vec::new();
        let mut local_idx: [Option<usize>; 10] = [None; 10];
        let mut t: usize = 0;
        while t < 10
            invariant
                t <= 10,
                held@ == held_sets(party as int, t as nat),
                held@.len() <= t,
                forall|u: int|
                    0 <= u < t ==> #[trigger] local_idx@[u] == (if in_set(u, party as int) {
                        None::<usize>
                    } else {
                        Some(slot_of(party as int, u) as usize)
                    }),
                forall|u: int| t <= u < 10 ==> #[trigger] local_idx@[u] == None::<usize>,
            decreases 10 - t,
        {
            if !set_contains(t, party) {
                local_idx[t] = Some(held.len());
                held.push(t);
            }
            t += 1;
        }
        let mut and_pairs: Vec<(usize, usize)> = Vec::new();
        let mut n: usize = 0;
        while n < 100
            invariant
                n <= 100,
                forall|u: int|
                    0 <= u < 10 ==> #[trigger] local_idx@[u] == (if in_set(u, party as int) {
                        None::<usize>
                    } else {
                        Some(slot_of(party as int, u) as usize)
                    }),
                and_pairs@ == assigned(party as int, n as nat),
            decreases 100 - n,
        {
            let (s, r): (usize, usize) = (n / 10, n % 10);
            let mut q: usize = 0;
            while q < 4 && (set_contains(s, q) || set_contains(r, q))
                invariant
                    q <= 4,
                    s < 10,
                    r < 10,
                    forall|u: int| 0 <= u < q ==> in_set(s as int, u) || in_set(r as int, u),
                decreases 4 - q,
            {
                q += 1;
            }
            proof {
                lemma_assignee_holds_both(s as int, r as int);
                assert(0 < q ==> in_set(s as int, 0) || in_set(r as int, 0));
                assert(1 < q ==> in_set(s as int, 1) || in_set(r as int, 1));
                assert(2 < q ==> in_set(s as int, 2) || in_set(r as int, 2));
                assert(3 < q ==> in_set(s as int, 3) || in_set(r as int, 3));
                assert(q == assignee(s as int, r as int));
            }
            if q == party {
                if let (Some(a), Some(b)) = (local_idx[s], local_idx[r]) {
                    and_pairs.push((a, b));
                }
            }
            n += 1;
        }
        Topology { party, held, local_idx, and_pairs }
    }
}

/// What a party holds of a shared value: its copies of the six components, in order.
#[derive(Clone, Copy, Debug, PartialEq, Eq, Structural)]
pub struct Share5<T> {
    pub c: [T; 6],
}

impl<T: IntRing2k> Share5<T> {
    /// The share whose components are all zero.
    pub open spec fn zero_spec() -> Share5<T> {
        Share5 {
            c: [zero::<T>(), zero::<T>(), zero::<T>(), zero::<T>(), zero::<T>(), zero::<T>()],
        }
    }

    /// The exclusive or of two shares, component by component.
    pub open spec fn xor_spec(self, other: Share5<T>) -> Share5<T> {
        Share5 {
            c: [
                self.c@[0].bxor(other.c@[0]),
                self.c@[1].bxor(other.c@[1]),
                self.c@[2].bxor(other.c@[2]),
                self.c@[3].bxor(other.c@[3]),
                self.c@[4].bxor(other.c@[4]),
                self.c@[5].bxor(other.c@[5]),
            ],
        }
    }

    /// The share whose components are all zero.
    pub fn zero() -> (r: Share5<T>)
        ensures
            r == Share5::<T>::zero_spec(),
            forall|i: int| 0 <= i < 6 ==> #[trigger] r.c@[i] == T::of_int(0),
    {
        let z: T = T::from_bit(false);
        Share5 { c: [z, z, z, z, z, z] }
    }

    /// The exclusive or of two shares.
    pub fn xor(self, other: Share5<T>) -> (r: Share5<T>)
        ensures
            r == self.xor_spec(other),
            forall|i: int| 0 <= i < 6 ==> #[trigger] r.c@[i] == self.c@[i].bxor(other.c@[i]),
    {
        Share5 {
            c: [
                self.c[0].ring_xor(other.c[0]),
                self.c[1].ring_xor(other.c[1]),
                self.c[2].ring_xor(other.c[2]),
                self.c[3].ring_xor(other.c[3]),
                self.c[4].ring_xor(other.c[4]),
                self.c[5].ring_xor(other.c[5]),
            ],
        }
    }
}

impl<T: IntRing2k> XorShare for Share5<T> {
    open spec fn xor_of(self, other: Share5<T>) -> Share5<T> {
        self.xor_spec(other)
    }

    open spec fn nil_of() -> Share5<T> {
        Share5::<T>::zero_spec()
    }

    fn xored(self, other: Share5<T>) -> (r: Share5<T>) {
        self.xor(other)
    }

    fn nil() -> (r: Share5<T>) {
        Share5::zero()
    }
}

/// Component `t` as party `p` holds it.
pub open spec fn part<T>(p: int, share: Share5<T>, t: int) -> T {
    share.c@[slot_of(p, t)]
}

/// The ten components that five parties hold, each as its first holder has it.
pub open spec fn parts_of<T>(shares: Seq<Share5<T>>) -> Seq<T> {
    Seq::new(10, |t: int| part(provider_of(t), shares[provider_of(t)], t))
}

/// A share holds the given components.
pub open spec fn holds_parts<T>(p: int, share: Share5<T>, parts: Seq<T>) -> bool {
    forall|t: int| 0 <= t < 10 && !in_set(t, p) ==> part(p, share, t) == #[trigger] parts[t]
}

/// The shares of the five parties fit together: the holders of a component agree on it.
pub open spec fn consistent5<T>(shares: Seq<Share5<T>>) -> bool {
    &&& shares.len() == 5
    &&& forall|p: int| 0 <= p < 5 ==> holds_parts(p, #[trigger] shares[p], parts_of(shares))
}

/// The exclusive or of the first `n` elements.
pub open spec fn xor_all<T: IntRing2k>(s: Seq<T>, n: nat) -> T
    decreases n,
{
    if n == 0 {
        zero::<T>()
    } else {
        xor_all(s, (n - 1) as nat).bxor(s[n - 1])
    }
}

/// The value that five parties share.
pub open spec fn value5<T: IntRing2k>(shares: Seq<Share5<T>>) -> T {
    xor_all(parts_of(shares), 10)
}

/// Shares that hold common components fit together and share the exclusive or of these.
pub proof fn lemma_common_parts<T: IntRing2k>(shares: Seq<Share5<T>>, parts: Seq<T>)
    requires
        shares.len() == 5,
        parts.len() == 10,
        forall|p: int| 0 <= p < 5 ==> holds_parts(p, #[trigger] shares[p], parts),
    ensures
        consistent5(shares),
        parts_of(shares) == parts,
        value5(shares) == xor_all(parts, 10),
{
    assert forall|t: int| 0 <= t < 10 implies parts_of(shares)[t] == parts[t] by {
        lemma_three_holders(t);
        let p = provider_of(t);
        assert(holds_parts(p, shares[p], parts));
    }
    assert(parts_of(shares) =~= parts);
}

/// The part of the bitwise and of two shared values that a party computes from the given slots.
pub open spec fn and_sum<T: IntRing2k>(pairs: Seq<(usize, usize)>, x: Share5<T>, y: Share5<T>) -> T
    decreases pairs.len(),
{
    if pairs.len() == 0 {
        zero::<T>()
    } else {
        let last = pairs.last();
        and_sum(pairs.drop_last(), x, y).bxor(
            x.c@[last.0 as int].band(y.c@[last.1 as int]),
        )
    }
}

proof fn lemma_assigned_slots(p: int, n: nat)
    requires
        0 <= p < 5,
        n <= 100,
    ensures
        forall|i: int|
            0 <= i < assigned(p, n).len() ==> (#[trigger] assigned(p, n)[i]).0 < 6 && assigned(
                p,
                n,
            )[i].1 < 6,
    decreases n,
{
    if n > 0 {
        lemma_assigned_slots(p, (n - 1) as nat);
        let (s, r) = ((n - 1) / 10, (n - 1) % 10);
        lemma_assignee_holds_both(s, r);
        let (before, after) = (assigned(p, (n - 1) as nat), assigned(p, n));
        if assignee(s, r) == p {
            lemma_slots(p, s as nat);
            lemma_slots(p, r as nat);
        }
        assert forall|i: int| 0 <= i < after.len() implies (#[trigger] after[i]).0 < 6
            && after[i].1 < 6 by {
            if i < before.len() {
                assert(after[i] == before[i]);
            }
        }
    }
}

/// The part of the bitwise and of two shared values that the party of a topology computes: the
/// exclusive or of the products assigned to it.
pub fn and_local<T: IntRing2k>(topo: &Topology, x: &Share5<T>, y: &Share5<T>) -> (r: T)
    requires
        topo.wf(),
        topo.party < 5,
    ensures
        r == and_sum(assigned(topo.party as int, 100), *x, *y),
{
    let mut acc: T = T::from_bit(false);
    let mut i: usize = 0;
    proof {
        lemma_assigned_slots(topo.party as int, 100);
    }
    while i < topo.and_pairs.len()
        invariant
            i <= topo.and_pairs@.len(),
            topo.wf(),
            forall|k: int|
                0 <= k < topo.and_pairs@.len() ==> (#[trigger] topo.and_pairs@[k]).0 < 6
                    && topo.and_pairs@[k].1 < 6,
            acc == and_sum(topo.and_pairs@.take(i as int), *x, *y),
        decreases topo.and_pairs@.len() - i,
    {
        let (ls, lr): (usize, usize) = topo.and_pairs[i];
        assert(topo.and_pairs@.take(i + 1).drop_last() =~= topo.and_pairs@.take(i as int));
        assert(topo.and_pairs@.take(i + 1).last() == topo.and_pairs@[i as int]);
        acc = acc.ring_xor(x.c[ls].ring_and(y.c[lr]));
        i += 1;
    }
    assert(topo.and_pairs@.take(i as int) =~= topo.and_pairs@);
    acc
}

/// The exclusive or of the first `n` bits.
pub open spec fn parity(a: Seq<bool>, n: nat) -> bool
    decreases n,
{
    if n == 0 {
        false
    } else {
        parity(a, (n - 1) as nat) != a[n - 1]
    }
}

spec fn product_bit(a: Seq<bool>, b: Seq<bool>, n: int) -> bool {
    a[n / 10] && b[n % 10]
}

spec fn products(a: Seq<bool>, b: Seq<bool>, n: nat) -> bool
    decreases n,
{
    if n == 0 {
        false
    } else {
        products(a, b, (n - 1) as nat) != product_bit(a, b, n - 1)
    }
}

spec fn products_of(p: int, a: Seq<bool>, b: Seq<bool>, n: nat) -> bool
    decreases n,
{
    if n == 0 {
        false
    } else if assignee((n - 1) / 10, (n - 1) % 10) == p {
        products_of(p, a, b, (n - 1) as nat) != product_bit(a, b, n - 1)
    } else {
        products_of(p, a, b, (n - 1) as nat)
    }
}

proof fn lemma_each_product_once(a: Seq<bool>, b: Seq<bool>, n: nat)
    requires
        n <= 100,
    ensures
        products(a, b, n) == (products_of(0, a, b, n) ^ products_of(1, a, b, n) ^ products_of(
            2,
            a,
            b,
            n,
        ) ^ products_of(3, a, b, n) ^ products_of(4, a, b, n)),
    decreases n,
{
    if n > 0 {
        lemma_each_product_once(a, b, (n - 1) as nat);
        lemma_assignee_holds_both((n - 1) / 10, (n - 1) % 10);
    }
}

proof fn lemma_products_factor(a: Seq<bool>, b: Seq<bool>, n: nat)
    requires
        n <= 100,
    ensures
        products(a, b, n) == ((parity(a, (n / 10) as nat) && parity(b, 10)) != (a[n as int / 10]
            && parity(b, (n % 10) as nat))),
    decreases n,
{
    if n > 0 {
        lemma_products_factor(a, b, (n - 1) as nat);
        if n % 10 == 0 {
            assert((n - 1) as nat / 10 + 1 == n / 10);
            assert((n - 1) % 10 == 9);
        } else {
            assert((n - 1) as nat / 10 == n / 10);
        }
    }
}

/// The bits at place `i` of the elements of a sequence.
pub open spec fn bits_at<T: IntRing2k>(s: Seq<T>, i: nat) -> Seq<bool> {
    Seq::new(s.len(), |t: int| bit(s[t], i))
}

/// Bit `i` of an exclusive or is the exclusive or of the bits at place `i`.
pub proof fn lemma_xor_all_bit<T: IntRing2k>(s: Seq<T>, n: nat, i: nat)
    requires
        n <= s.len(),
        i < T::bits(),
    ensures
        bit(xor_all(s, n), i) == parity(bits_at(s, i), n),
    decreases n,
{
    broadcast use group_bits;

    if n > 0 {
        lemma_xor_all_bit(s, (n - 1) as nat, i);
    }
}

proof fn lemma_and_sum_bit<T: IntRing2k>(
    p: int,
    x: Share5<T>,
    y: Share5<T>,
    a: Seq<T>,
    b: Seq<T>,
    n: nat,
    i: nat,
)
    requires
        0 <= p < 5,
        n <= 100,
        i < T::bits(),
        a.len() == 10,
        b.len() == 10,
        holds_parts(p, x, a),
        holds_parts(p, y, b),
    ensures
        bit(and_sum(assigned(p, n), x, y), i) == products_of(p, bits_at(a, i), bits_at(b, i), n),
    decreases n,
{
    broadcast use group_bits;

    if n > 0 {
        lemma_and_sum_bit(p, x, y, a, b, (n - 1) as nat, i);
        let (s, r) = ((n - 1) / 10, (n - 1) % 10);
        if assignee(s, r) == p {
            lemma_assignee_holds_both(s, r);
            lemma_slots(p, s as nat);
            lemma_slots(p, r as nat);
            assert(assigned(p, n).drop_last() =~= assigned(p, (n - 1) as nat));
            assert(part(p, x, s) == a[s]);
            assert(part(p, y, r) == b[r]);
        }
    }
}

/// The parts that the five parties compute combine to the bitwise and of the shared values.
pub proof fn lemma_and_local_correct<T: IntRing2k>(x: Seq<Share5<T>>, y: Seq<Share5<T>>)
    requires
        consistent5(x),
        consistent5(y),
    ensures
        xor_all(Seq::new(5, |p: int| and_sum(assigned(p, 100), x[p], y[p])), 5) == value5(x).band(
            value5(y),
        ),
{
    broadcast use group_bits;

    let (a, b) = (parts_of(x), parts_of(y));
    let z = Seq::new(5, |p: int| and_sum(assigned(p, 100), x[p], y[p]));
    let (l, r) = (xor_all(z, 5), value5(x).band(value5(y)));
    assert forall|i: nat| i < T::bits() implies bit(l, i) == bit(r, i) by {
        let (ab, bb) = (bits_at(a, i), bits_at(b, i));
        lemma_xor_all_bit(z, 5, i);
        lemma_xor_all_bit(a, 10, i);
        lemma_xor_all_bit(b, 10, i);
        assert forall|p: int| 0 <= p < 5 implies bits_at(z, i)[p] == products_of(p, ab, bb, 100) by {
            assert(holds_parts(p, x[p], a));
            assert(holds_parts(p, y[p], b));
            lemma_and_sum_bit(p, x[p], y[p], a, b, 100, i);
        }
        reveal_with_fuel(parity, 6);
        lemma_each_product_once(ab, bb, 100);
        lemma_products_factor(ab, bb, 100);
    }
    lemma_bits_ext(l, r);
}

/// The exclusive or of shares shares the exclusive or of the values.
pub proof fn lemma_xor5_value<T: IntRing2k>(x: Seq<Share5<T>>, y: Seq<Share5<T>>)
    requires
        consistent5(x),
        consistent5(y),
    ensures
        consistent5(Seq::new(5, |p: int| x[p].xor_spec(y[p]))),
        value5(Seq::new(5, |p: int| x[p].xor_spec(y[p]))) == value5(x).bxor(value5(y)),
{
    broadcast use group_bits;

    let (a, b) = (parts_of(x), parts_of(y));
    let z = Seq::new(5, |p: int| x[p].xor_spec(y[p]));
    let c = Seq::new(10, |t: int| a[t].bxor(b[t]));
    assert forall|p: int| 0 <= p < 5 implies holds_parts(p, #[trigger] z[p], c) by {
        assert(holds_parts(p, x[p], a));
        assert(holds_parts(p, y[p], b));
        assert forall|t: int| 0 <= t < 10 && !in_set(t, p) implies part(p, z[p], t)
            == #[trigger] c[t] by {
            lemma_slots(p, t as nat);
            assert(part(p, x[p], t) == a[t]);
            assert(part(p, y[p], t) == b[t]);
        }
    }
    lemma_common_parts(z, c);
    let (l, r) = (xor_all(c, 10), xor_all(a, 10).bxor(xor_all(b, 10)));
    assert forall|i: nat| i < T::bits() implies bit(l, i) == bit(r, i) by {
        lemma_xor_all_bit(c, 10, i);
        lemma_xor_all_bit(a, 10, i);
        lemma_xor_all_bit(b, 10, i);
        lemma_parity_splits(bits_at(a, i), bits_at(b, i), bits_at(c, i), 10);
    }
    lemma_bits_ext(l, r);
}

proof fn lemma_parity_splits(a: Seq<bool>, b: Seq<bool>, c: Seq<bool>, n: nat)
    requires
        forall|t: int| 0 <= t < n ==> #[trigger] c[t] == (a[t] != b[t]),
    ensures
        parity(c, n) == (parity(a, n) != parity(b, n)),
    decreases n,
{
    if n > 0 {
        lemma_parity_splits(a, b, c, (n - 1) as nat);
    }
}

/// The values that five parties share, from the shares of all of them.
pub fn reconstruct_rss<T: IntRing2k>(per_party: &[Vec<Share5<T>>]) -> (r: Vec<T>)
    requires
        per_party@.len() == 5,
        forall|p: int| 0 <= p < 5 ==> per_party@[0]@.len() <= (#[trigger] per_party@[p])@.len(),
        forall|k: int|
            0 <= k < per_party@[0]@.len() ==> consistent5(#[trigger] shares_at(per_party@, k)),
    ensures
        r@.len() == per_party@[0]@.len(),
        forall|k: int|
            0 <= k < r@.len() ==> #[trigger] r@[k] == value5(shares_at(per_party@, k)),
        forall|k: int|
            0 <= k < r@.len() ==> #[trigger] r@[k] == xor_all(
                Seq::new(
                    10,
                    |t: int| per_party@[provider_of(t)]@[k].c@[slot_of(provider_of(t), t)],
                ),
                10,
            ),
{
    let mut out: Vec<T> = Vec::new();
    let len: usize = per_party[0].len();
    let mut k: usize = 0;
    while k < len
        invariant
            k <= len,
            len == per_party@[0]@.len(),
            per_party@.len() == 5,
            forall|p: int| 0 <= p < 5 ==> len <= (#[trigger] per_party@[p])@.len(),
            out@.len() == k,
            forall|j: int| 0 <= j < k ==> #[trigger] out@[j] == value5(shares_at(per_party@, j)),
        decreases len - k,
    {
        let mut acc: T = T::from_bit(false);
        let mut t: usize = 0;
        let ghost shares = shares_at(per_party@, k as int);
        while t < 10
            invariant
                k < len,
                per_party@.len() == 5,
                forall|p: int| 0 <= p < 5 ==> len <= (#[trigger] per_party@[p])@.len(),
                t <= 10,
                shares == shares_at(per_party@, k as int),
                acc == xor_all(parts_of(shares), t as nat),
            decreases 10 - t,
        {
            let p: usize = open_provider(t);
            let mut slot: usize = 0;
            let mut u: usize = 0;
            while u < t
                invariant
                    u <= t < 10,
                    slot <= u,
                    slot == held_sets(p as int, u as nat).len(),
                decreases t - u,
            {
                if !set_contains(u, p) {
                    slot += 1;
                }
                u += 1;
            }
            proof {
                lemma_slots(p as int, t as nat);
            }
            acc = acc.ring_xor(per_party[p][k].c[slot]);
            t += 1;
        }
        out.push(acc);
        k += 1;
    }
    proof {
        assert forall|j: int| 0 <= j < out@.len() implies #[trigger] out@[j] == xor_all(
            Seq::new(10, |t: int| per_party@[provider_of(t)]@[j].c@[slot_of(provider_of(t), t)]),
            10,
        ) by {
            let shares = shares_at(per_party@, j);
            let parts = Seq::new(
                10,
                |t: int| per_party@[provider_of(t)]@[j].c@[slot_of(provider_of(t), t)],
            );
            assert forall|t: int| 0 <= t < 10 implies parts[t] == #[trigger] parts_of(shares)[t] by {
                lemma_three_holders(t);
            }
            assert(parts =~= parts_of(shares));
        }
    }
    out
}

/// Entry `k` of every party.
pub open spec fn shares_at<T>(per_party: Seq<Vec<Share5<T>>>, k: int) -> Seq<Share5<T>> {
    Seq::new(per_party.len(), |p: int| per_party[p]@[k])
}

} // verus!
