//! Dealing and reconstructing replicated shares among five parties.
//!
//! The dealer of a value draws five components from streams that it shares with the other holders,
//! leaves the four components that it does not hold at zero, and sends the last one, which makes
//! the ten components combine to the value.

use crate::message::{expected_vec, recv_elems, NetworkValue, ProtocolError, Wire};
use crate::player::Role;
use crate::prf::{draw_batch, drawn_batch, PrfDraw, PrfRng};
use crate::prf_keys::{
    five_party_roles, keyed_by, nth_pair, pairs_excluding, PartyPair, ThresholdPrfKeys,
};
use crate::ring::IntRing2k;
use crate::ring_lemmas::{
    lemma_absorb, lemma_absorb_sub, lemma_xor_assoc, lemma_xor_comm, lemma_xor_zero, zero,
};
use crate::rss5_words::lemma_slots_differ;
use crate::rss5::{
    consistent5, held_sets, holds_parts, in_set, lemma_common_parts, lemma_slots, part, parts_of,
    set_contains, slot_of, xor_all, Share5, SETS,
};
use vstd::prelude::*;

verus! {

/// How the components of a value combine to it.
#[derive(Clone, Copy, Debug, PartialEq, Eq, Structural)]
pub enum ShareType {
    /// By addition modulo `2^bits`.
    Arithmetic,
    /// By bitwise exclusive or.
    Boolean,
}

impl ShareType {
    /// A value without one of its components.
    pub open spec fn without<T: IntRing2k>(self, value: T, mask: T) -> T {
        match self {
            ShareType::Arithmetic => T::of_int(value.val() - mask.val()),
            ShareType::Boolean => value.bxor(mask),
        }
    }

    /// Two components together.
    pub open spec fn both<T: IntRing2k>(self, left: T, right: T) -> T {
        match self {
            ShareType::Arithmetic => T::of_int(left.val() + right.val()),
            ShareType::Boolean => left.bxor(right),
        }
    }

    /// Takes a mask off a value.
    pub fn unmask<T: IntRing2k>(self, value: T, mask: T) -> (r: T)
        ensures
            r == self.without(value, mask),
            self is Arithmetic ==> r == T::of_int(value.val() - mask.val()),
            self is Boolean ==> r == value.bxor(mask),
    {
        match self {
            ShareType::Arithmetic => value.ring_sub(mask),
            ShareType::Boolean => value.ring_xor(mask),
        }
    }

    /// Combines two components.
    pub fn combine<T: IntRing2k>(self, left: T, right: T) -> (r: T)
        ensures
            r == self.both(left, right),
            self is Arithmetic ==> r == T::of_int(left.val() + right.val()),
            self is Boolean ==> r == left.bxor(right),
    {
        match self {
            ShareType::Arithmetic => left.ring_add(right),
            ShareType::Boolean => left.ring_xor(right),
        }
    }
}

/// What the first `n` elements combine to.
pub open spec fn all_of<T: IntRing2k>(kind: ShareType, s: Seq<T>, n: nat) -> T
    decreases n,
{
    if n == 0 {
        zero::<T>()
    } else {
        kind.both(all_of(kind, s, (n - 1) as nat), s[n - 1])
    }
}

/// Zero is neutral.
proof fn lemma_kind_zero<T: IntRing2k>(kind: ShareType, a: T)
    ensures
        kind.both(a, zero::<T>()) == a,
        kind.both(zero::<T>(), a) == a,
        kind.without(a, zero::<T>()) == a,
{
    match kind {
        ShareType::Arithmetic => {
            T::law_modulus();
            crate::ring_lemmas::lemma_small::<T>(0);
            a.law_val();
        },
        ShareType::Boolean => {
            lemma_xor_zero(a);
        },
    }
}

/// Taking two masks off one after the other is taking both off together.
proof fn lemma_kind_without<T: IntRing2k>(kind: ShareType, a: T, x: T, y: T)
    ensures
        kind.without(kind.without(a, x), y) == kind.without(a, kind.both(x, y)),
{
    match kind {
        ShareType::Arithmetic => {
            lemma_absorb::<T>(a.val() - x.val(), -y.val());
            lemma_absorb_sub::<T>(x.val() + y.val(), a.val());
        },
        ShareType::Boolean => {
            lemma_xor_assoc(a, x, y);
        },
    }
}

/// The order of what combines does not matter, and a mask cancels its removal.
proof fn lemma_kind_swap<T: IntRing2k>(kind: ShareType, a: T, x: T, y: T)
    ensures
        kind.both(kind.both(a, x), y) == kind.both(kind.both(a, y), x),
        kind.both(x, kind.without(a, x)) == a,
{
    match kind {
        ShareType::Arithmetic => {
            lemma_absorb::<T>(a.val() + x.val(), y.val());
            lemma_absorb::<T>(a.val() + y.val(), x.val());
            lemma_absorb::<T>(a.val() - x.val(), x.val());
            a.law_val();
        },
        ShareType::Boolean => {
            lemma_xor_assoc(a, x, y);
            lemma_xor_assoc(a, y, x);
            lemma_xor_comm(x, y);
            lemma_xor_comm(x, a.bxor(x));
            lemma_xor_assoc(a, x, x);
            lemma_xor_zero(x);
            lemma_xor_zero(a);
        },
    }
}

/// Putting an element in the place of zero adds it.
proof fn lemma_all_update<T: IntRing2k>(kind: ShareType, s: Seq<T>, d: int, x: T, n: nat)
    requires
        0 <= d < s.len(),
        n <= s.len(),
        s[d] == zero::<T>(),
    ensures
        all_of(kind, s.update(d, x), n) == if d < n {
            kind.both(all_of(kind, s, n), x)
        } else {
            all_of(kind, s, n)
        },
    decreases n,
{
    if n > 0 {
        let k = (n - 1) as nat;
        lemma_all_update(kind, s, d, x, k);
        let a = all_of(kind, s, k);
        if d == n - 1 {
            lemma_kind_zero(kind, a);
        } else if d < n - 1 {
            lemma_kind_swap(kind, a, x, s[n - 1]);
        }
    }
}

/// Bitwise, elements combine by exclusive or.
pub proof fn lemma_all_boolean<T: IntRing2k>(s: Seq<T>, n: nat)
    ensures
        all_of(ShareType::Boolean, s, n) == xor_all(s, n),
    decreases n,
{
    if n > 0 {
        lemma_all_boolean(s, (n - 1) as nat);
    }
}

/// What a party holds of a dealt value: its copies of the six components, in order.
#[derive(Clone, Copy, Debug, PartialEq, Eq, Structural)]
pub struct RssShare<T> {
    pub slots: [T; 6],
}

impl<T: IntRing2k> RssShare<T> {
    /// The share with the same components.
    pub open spec fn share5(self) -> Share5<T> {
        Share5 { c: self.slots }
    }

    /// The share whose components are all zero.
    fn zero() -> (r: RssShare<T>)
        ensures
            forall|i: int| 0 <= i < 6 ==> #[trigger] r.slots@[i] == zero::<T>(),
    {
        let z: T = T::from_bit(false);
        RssShare { slots: [z, z, z, z, z, z] }
    }
}

/// The pair whose component a party keeps in a slot.
pub fn slot_pair(party: usize, slot: usize) -> (r: (usize, usize))
    requires
        party < 5,
        slot < 6,
    ensures
        ({
            let t = held_sets(party as int, 10)[slot as int] as int;
            r == SETS@[t] && t < 10 && !in_set(t, party as int) && slot_of(party as int, t) == slot
        }),
{
    let mut seen: usize = 0;
    let mut t: usize = 0;
    proof {
        lemma_slots(party as int, 10);
    }
    while t < 10
        invariant
            t <= 10,
            party < 5,
            slot < 6,
            seen == held_sets(party as int, t as nat).len(),
            seen <= slot,
            seen <= t,
            held_sets(party as int, 10).len() == 6,
        decreases 10 - t,
    {
        if !set_contains(t, party) {
            if seen == slot {
                proof {
                    lemma_held_prefix(party as int, (t + 1) as nat, 10);
                    assert(held_sets(party as int, (t + 1) as nat)[slot as int] == t);
                }
                return SETS[t];
            }
            seen += 1;
        }
        t += 1;
    }
    SETS[0]
}

/// Later components do not move the earlier ones.
proof fn lemma_held_prefix(p: int, m: nat, n: nat)
    requires
        m <= n,
    ensures
        held_sets(p, m).len() <= held_sets(p, n).len(),
        forall|i: int|
            0 <= i < held_sets(p, m).len() ==> #[trigger] held_sets(p, m)[i] == held_sets(p, n)[i],
    decreases n,
{
    if m < n {
        lemma_held_prefix(p, m, (n - 1) as nat);
    }
}

/// The component that carries the correction of a dealer: that of the first two other parties.
pub open spec fn dealer_component(dealer: int) -> int {
    if dealer == 0 {
        4
    } else if dealer == 1 {
        1
    } else {
        0
    }
}

/// The parties that receive the correction of a dealer: the other two.
pub open spec fn dealer_recipients(dealer: int) -> (int, int) {
    if dealer < 3 {
        (3, 4)
    } else if dealer == 3 {
        (2, 4)
    } else {
        (2, 3)
    }
}

/// Chooses the component that carries the correction of a dealer, and the two parties that
/// receive it. Fails if the dealer is not one of the five parties.
pub fn select_correction_pair_and_recipients(dealer: Role) -> (r: Result<
    (PartyPair, [Role; 2]),
    ProtocolError,
>)
    ensures
        dealer.index >= 5 ==> r == Err::<(PartyPair, [Role; 2]), ProtocolError>(
            ProtocolError::InvalidRoles,
        ),
        dealer.index < 5 ==> {
            &&& r is Ok
            &&& (r->Ok_0).0 == nth_pair(dealer_component(dealer.index as int))
            &&& (r->Ok_0).1@[0].index == dealer_recipients(dealer.index as int).0
            &&& (r->Ok_0).1@[1].index == dealer_recipients(dealer.index as int).1
        },
        dealer.index < 5 ==> {
            let (pair, to) = r->Ok_0;
            let (a, b, c, d) = (pair.0.index, pair.1.index, to@[0].index, to@[1].index);
            &&& a < b < c < d < 5
            &&& a != dealer.index && b != dealer.index && c != dealer.index && d != dealer.index
        },
{
    if dealer.index >= 5 {
        return Err(ProtocolError::InvalidRoles);
    }
    let roles: [Role; 5] = five_party_roles();
    let mut others: Vec<Role> = Vec::new();
    let mut i: usize = 0;
    while i < 5
        invariant
            i <= 5,
            dealer.index < 5,
            forall|j: int| 0 <= j < 5 ==> (#[trigger] roles@[j]).index == j,
            others@.len() == (if dealer.index < i {
                i - 1
            } else {
                i as int
            }),
            forall|j: int|
                0 <= j < others@.len() ==> (#[trigger] others@[j]).index == (if j < dealer.index {
                    j
                } else {
                    j + 1
                }),
        decreases 5 - i,
    {
        if roles[i] != dealer {
            others.push(roles[i]);
        }
        i += 1;
    }
    Ok((PartyPair::new(others[0], others[1]), [others[2], others[3]]))
}

/// The streams of a party follow the order of its components: slot `slot_of(role, t)` holds the
/// stream of pair `t`.
pub proof fn lemma_keys_follow_slots(role: Role, n: nat)
    requires
        n <= 10,
    ensures
        pairs_excluding(role, n).len() == held_sets(role.index as int, n).len(),
        forall|i: int|
            0 <= i < held_sets(role.index as int, n).len() ==> {
                let t = #[trigger] held_sets(role.index as int, n)[i] as int;
                t < n && pairs_excluding(role, n)[i] == nth_pair(t)
            },
    decreases n,
{
    if n > 0 {
        lemma_keys_follow_slots(role, (n - 1) as nat);
        let t = n - 1;
        assert(SETS@[t].0 == nth_pair(t).0.index && SETS@[t].1 == nth_pair(t).1.index);
        assert(in_set(t, role.index as int) == nth_pair(t).has(role));
        let (h, g) = (held_sets(role.index as int, n), held_sets(role.index as int, (n - 1) as nat));
        let (a, b) = (pairs_excluding(role, n), pairs_excluding(role, (n - 1) as nat));
        assert forall|i: int| 0 <= i < h.len() implies {
            let u = #[trigger] h[i] as int;
            u < n && a[i] == nth_pair(u)
        } by {
            if i < g.len() {
                assert(h[i] == g[i]);
                assert(a[i] == b[i]);
            }
        }
    }
}

/// A component that a dealer draws from a stream: one that it holds, but not the one that carries
/// its correction.
pub open spec fn drawn_component(dealer: int, t: int) -> bool {
    !in_set(t, dealer) && t != dealer_component(dealer)
}

/// What a party draws for component `t` of entry `k` of a batch, where it draws anything.
pub open spec fn deal_mask<T: IntRing2k + PrfDraw>(
    keys: Seq<(PartyPair, PrfRng)>,
    role: int,
    dealer: int,
    n: nat,
    t: int,
    k: int,
) -> T {
    if drawn_component(dealer, t) {
        drawn_batch::<T>(keys[slot_of(role, t)].1, n)[k]
    } else {
        zero::<T>()
    }
}

/// The masks of entry `k`, one for each component.
pub open spec fn deal_masks<T: IntRing2k + PrfDraw>(
    keys: Seq<(PartyPair, PrfRng)>,
    role: int,
    dealer: int,
    n: nat,
    k: int,
) -> Seq<T> {
    Seq::new(10, |t: int| deal_mask::<T>(keys, role, dealer, n, t, k))
}

/// The correction of entry `k`: the value without all masks.
pub open spec fn deal_correction<T: IntRing2k + PrfDraw>(
    kind: ShareType,
    keys: Seq<(PartyPair, PrfRng)>,
    dealer: int,
    inputs: Seq<T>,
    k: int,
) -> T {
    kind.without(
        inputs[k],
        all_of(kind, deal_masks::<T>(keys, dealer, dealer, inputs.len(), k), 10),
    )
}

/// A share of a party consists of the components that were dealt, given the correction.
pub open spec fn dealt_to<T: IntRing2k + PrfDraw>(
    keys: Seq<(PartyPair, PrfRng)>,
    role: int,
    dealer: int,
    n: nat,
    k: int,
    corr: T,
    share: RssShare<T>,
) -> bool {
    forall|t: int|
        0 <= t < 10 && !in_set(t, role) ==> #[trigger] part(role, share.share5(), t) == (if t
            == dealer_component(dealer) {
            corr
        } else {
            deal_mask::<T>(keys, role, dealer, n, t, k)
        })
}

/// The streams of a party after a batch was dealt.
pub open spec fn keys_after<T: PrfDraw>(
    keys: Seq<(PartyPair, PrfRng)>,
    role: int,
    dealer: int,
    n: nat,
) -> Seq<(PartyPair, PrfRng)> {
    Seq::new(
        keys.len(),
        |i: int|
            if drawn_component(dealer, held_sets(role, 10)[i] as int) {
                (keys[i].0, keys[i].1.advanced(n * T::words()))
            } else {
                keys[i]
            },
    )
}

/// Why a batch cannot be dealt.
pub open spec fn deal_error(
    own_role: Role,
    key_role: Role,
    dealer: Role,
    batch_len: nat,
    inputs: Option<nat>,
) -> Option<ProtocolError> {
    if batch_len == 0 {
        Some(ProtocolError::EmptyInput)
    } else if key_role != own_role {
        Some(ProtocolError::WrongKeySet)
    } else if dealer.index >= 5 {
        Some(ProtocolError::InvalidRoles)
    } else if own_role == dealer {
        match inputs {
            Some(len) => if len != batch_len {
                Some(ProtocolError::LengthMismatch)
            } else {
                None
            },
            None => Some(ProtocolError::MissingInput),
        }
    } else if inputs is Some {
        Some(ProtocolError::UnexpectedInput)
    } else if own_role.index >= 5 {
        Some(ProtocolError::UnsupportedRole)
    } else {
        None
    }
}

/// Puts one component into every share.
fn put<T: IntRing2k>(shares: &mut Vec<RssShare<T>>, slot: usize, values: &[T])
    requires
        slot < 6,
        values@.len() == old(shares)@.len(),
    ensures
        final(shares)@.len() == old(shares)@.len(),
        forall|k: int|
            0 <= k < values@.len() ==> (#[trigger] final(shares)@[k]).slots@ == old(
                shares,
            )@[k].slots@.update(slot as int, values@[k]),
{
    let ghost before = shares@;
    let mut k: usize = 0;
    while k < shares.len()
        invariant
            slot < 6,
            k <= shares@.len(),
            shares@.len() == before.len(),
            values@.len() == before.len(),
            forall|j: int|
                0 <= j < k ==> (#[trigger] shares@[j]).slots@ == before[j].slots@.update(
                    slot as int,
                    values@[j],
                ),
            forall|j: int| k <= j < before.len() ==> #[trigger] shares@[j] == before[j],
        decreases shares@.len() - k,
    {
        let mut share: RssShare<T> = shares[k];
        share.slots[slot] = values[k];
        shares.set(k, share);
        k += 1;
    }
}

/// Takes masks off a batch, entry by entry.
fn unmask_batch<T: IntRing2k>(kind: ShareType, batch: &mut Vec<T>, masks: &[T])
    requires
        masks@.len() == old(batch)@.len(),
    ensures
        final(batch)@ == Seq::new(masks@.len(), |k: int| kind.without(old(batch)@[k], masks@[k])),
{
    let ghost before = batch@;
    let mut k: usize = 0;
    while k < batch.len()
        invariant
            k <= batch@.len(),
            batch@.len() == before.len(),
            masks@.len() == before.len(),
            forall|j: int| 0 <= j < k ==> #[trigger] batch@[j] == kind.without(before[j], masks@[j]),
            forall|j: int| k <= j < before.len() ==> #[trigger] batch@[j] == before[j],
        decreases batch@.len() - k,
    {
        let x: T = kind.unmask(batch[k], masks[k]);
        batch.set(k, x);
        k += 1;
    }
    assert(batch@ =~= Seq::new(masks@.len(), |j: int| kind.without(before[j], masks@[j])));
}

/// The components below `t` of a share are dealt, the others are zero.
spec fn dealt_to_below<T: IntRing2k + PrfDraw>(
    keys: Seq<(PartyPair, PrfRng)>,
    role: int,
    dealer: int,
    n: nat,
    k: int,
    t: int,
    share: RssShare<T>,
) -> bool {
    forall|u: int|
        0 <= u < 10 && !in_set(u, role) ==> #[trigger] part(role, share.share5(), u) == (if u < t {
            deal_mask::<T>(keys, role, dealer, n, u, k)
        } else {
            zero::<T>()
        })
}

/// Putting a component into a share changes that component alone.
proof fn lemma_put<T: IntRing2k>(p: int, t: int, before: RssShare<T>, after: RssShare<T>, x: T)
    requires
        0 <= p < 5,
        0 <= t < 10,
        !in_set(t, p),
        after.slots@ == before.slots@.update(slot_of(p, t), x),
    ensures
        part(p, after.share5(), t) == x,
        forall|u: int|
            0 <= u < 10 && !in_set(u, p) && u != t ==> #[trigger] part(p, after.share5(), u)
                == part(p, before.share5(), u),
{
    lemma_slots(p, t as nat);
    assert forall|u: int| 0 <= u < 10 && !in_set(u, p) && u != t implies #[trigger] part(
        p,
        after.share5(),
        u,
    ) == part(p, before.share5(), u) by {
        lemma_slots(p, u as nat);
        lemma_slots_differ(p, u, t);
    }
}

/// The pair of a component.
fn pair_of_set(t: usize) -> (r: PartyPair)
    requires
        t < 10,
    ensures
        r == nth_pair(t as int),
        forall|role: Role| #[trigger] r.has(role) == in_set(t as int, role.index as int),
{
    let r = PartyPair::new(Role::new(SETS[t].0), Role::new(SETS[t].1));
    assert(SETS@[t as int].0 == nth_pair(t as int).0.index);
    assert(SETS@[t as int].1 == nth_pair(t as int).1.index);
    r
}

/// Pairs with different numbers are different.
proof fn lemma_pairs_differ(s: int, t: int)
    requires
        0 <= s < 10,
        0 <= t < 10,
    ensures
        (nth_pair(s) == nth_pair(t)) == (s == t),
{
}

/// What a party has after the first half of dealing a batch, and where its streams stand.
pub open spec fn dealer_rss5<T: IntRing2k + PrfDraw>(
    own_role: Role,
    before: ThresholdPrfKeys,
    after: ThresholdPrfKeys,
    dealer: Role,
    n: nat,
    inputs: Option<Vec<T>>,
    kind: ShareType,
    r: Result<(Vec<RssShare<T>>, Option<Vec<T>>), ProtocolError>,
) -> bool {
    let len = match inputs {
        Some(v) => Some(v@.len()),
        None => None,
    };
    let (own, from) = (own_role.index as int, dealer.index as int);
    match deal_error(own_role, before.own_role, dealer, n, len) {
        Some(e) => {
            &&& r == Err::<(Vec<RssShare<T>>, Option<Vec<T>>), ProtocolError>(e)
            &&& after == before
        },
        None => {
            &&& r is Ok
            &&& after.own_role == own_role
            &&& after.keys@ == keys_after::<T>(before.keys@, own, from, n)
            &&& ((r->Ok_0).1 is Some) == (own_role == dealer)
            &&& own_role == dealer ==> ((r->Ok_0).1->0)@ == Seq::new(
                n,
                |k: int| deal_correction(kind, before.keys@, from, inputs->0@, k),
            )
            &&& (r->Ok_0).0@.len() == n
            &&& forall|k: int|
                0 <= k < n ==> dealt_to(
                    before.keys@,
                    own,
                    from,
                    n,
                    k,
                    if own_role == dealer {
                        ((r->Ok_0).1->0)@[k]
                    } else {
                        zero::<T>()
                    },
                    #[trigger] (r->Ok_0).0@[k],
                )
        },
    }
}

/// First half of dealing a batch: the components that come from streams, and for the dealer the
/// correction, which goes to the two recipients. Parties that wait for it have zero in its place.
///
/// All parties have to agree on the length of the batch. The dealer gives the values, the others
/// give none.
pub fn dealer_rss5_batch<T: IntRing2k + PrfDraw>(
    own_role: Role,
    threshold: &mut ThresholdPrfKeys,
    dealer: Role,
    batch_len: usize,
    dealer_inputs: Option<Vec<T>>,
    share_type: ShareType,
) -> (r: Result<(Vec<RssShare<T>>, Option<Vec<T>>), ProtocolError>)
    requires
        old(threshold).wf(),
    ensures
        final(threshold).wf(),
        dealer_rss5(
            own_role,
            *old(threshold),
            *final(threshold),
            dealer,
            batch_len as nat,
            dealer_inputs,
            share_type,
            r,
        ),
        batch_len == 0 ==> r == Err::<(Vec<RssShare<T>>, Option<Vec<T>>), ProtocolError>(
            ProtocolError::EmptyInput,
        ),
        batch_len > 0 && old(threshold).own_role != own_role ==> r == Err::<(Vec<RssShare<T>>, Option<Vec<T>>), ProtocolError>(ProtocolError::WrongKeySet),
        batch_len > 0 && old(threshold).own_role == own_role ==> {
            &&& dealer.index >= 5 ==> r == Err::<(Vec<RssShare<T>>, Option<Vec<T>>), ProtocolError>(ProtocolError::InvalidRoles)
            &&& dealer.index < 5 && own_role == dealer ==> match dealer_inputs {
                None => r == Err::<(Vec<RssShare<T>>, Option<Vec<T>>), ProtocolError>(ProtocolError::MissingInput),
                Some(values) => if values@.len() == batch_len {
                    r is Ok
                } else {
                    r == Err::<(Vec<RssShare<T>>, Option<Vec<T>>), ProtocolError>(ProtocolError::LengthMismatch)
                },
            }
            &&& dealer.index < 5 && own_role != dealer ==> if dealer_inputs is Some {
                r == Err::<(Vec<RssShare<T>>, Option<Vec<T>>), ProtocolError>(ProtocolError::UnexpectedInput)
            } else if own_role.index >= 5 {
                r == Err::<(Vec<RssShare<T>>, Option<Vec<T>>), ProtocolError>(ProtocolError::UnsupportedRole)
            } else {
                r is Ok
            }
        },
        r is Ok ==> {
            &&& (r->Ok_0).0@.len() == batch_len
            &&& ((r->Ok_0).1 is Some) == (own_role == dealer)
        },
        r is Err ==> *final(threshold) == *old(threshold),
{
    if batch_len == 0 {
        return Err(ProtocolError::EmptyInput);
    }
    if threshold.own_role() != own_role {
        return Err(ProtocolError::WrongKeySet);
    }
    let (correction_pair, _) = match select_correction_pair_and_recipients(dealer) {
        Ok(route) => route,
        Err(e) => {
            return Err(e);
        },
    };
    let own: bool = own_role == dealer;
    match &dealer_inputs {
        Some(inputs) => {
            if !own {
                return Err(ProtocolError::UnexpectedInput);
            }
            if inputs.len() != batch_len {
                return Err(ProtocolError::LengthMismatch);
            }
        },
        None => {
            if own {
                return Err(ProtocolError::MissingInput);
            }
        },
    }
    let p: usize = own_role.index;
    if p >= 5 {
        return Err(ProtocolError::UnsupportedRole);
    }
    let n: usize = batch_len;
    let ghost start = threshold.keys@;
    let ghost from = dealer.index as int;
    let ghost d = dealer_component(from);
    let ghost words = dealer_inputs->0@;
    let mut corr: Vec<T> = match dealer_inputs {
        Some(v) => v,
        None => Vec::new(),
    };
    let mut out: Vec<RssShare<T>> = Vec::new();
    let mut i: usize = 0;
    while i < n
        invariant
            i <= n,
            out@.len() == i,
            forall|k: int, c: int|
                0 <= k < i && 0 <= c < 6 ==> #[trigger] out@[k].slots@[c] == zero::<T>(),
        decreases n - i,
    {
        out.push(RssShare::zero());
        i += 1;
    }
    proof {
        lemma_keys_follow_slots(own_role, 10);
        lemma_slots(p as int, 10);
        assert forall|k: int| 0 <= k < n implies dealt_to_below(
            start,
            p as int,
            from,
            n as nat,
            k,
            0,
            #[trigger] out@[k],
        ) by {
            assert forall|u: int| 0 <= u < 10 && !in_set(u, p as int) implies #[trigger] part(
                p as int,
                out@[k].share5(),
                u,
            ) == zero::<T>() by {
                lemma_slots(p as int, u as nat);
                assert(out@[k].slots@[slot_of(p as int, u)] == zero::<T>());
            }
        }
        assert forall|k: int| own && 0 <= k < n implies #[trigger] corr@[k] == share_type.without(
            words[k],
            all_of(share_type, deal_masks::<T>(start, p as int, from, n as nat, k), 0),
        ) by {
            lemma_kind_zero(share_type, words[k]);
        }
    }
    let mut corr_slot: usize = 0;
    let mut slot: usize = 0;
    let mut t: usize = 0;
    while t < 10
        invariant
            t <= 10,
            p < 5,
            p == own_role.index,
            dealer.index < 5,
            from == dealer.index,
            d == dealer_component(from),
            correction_pair == nth_pair(d),
            own == (own_role == dealer),
            slot == slot_of(p as int, t as int),
            slot <= t,
            threshold.own_role == own_role,
            start.len() == 6,
            threshold.keys@.len() == 6,
            held_sets(p as int, 10).len() == 6,
            keyed_by(start, pairs_excluding(own_role, 10)),
            forall|c: int|
                0 <= c < 6 ==> #[trigger] threshold.keys@[c] == (if c < slot && drawn_component(
                    from,
                    held_sets(p as int, 10)[c] as int,
                ) {
                    (start[c].0, start[c].1.advanced(n * T::words()))
                } else {
                    start[c]
                }),
            own && d < t ==> corr_slot == slot_of(p as int, d),
            out@.len() == n,
            forall|k: int|
                0 <= k < n ==> dealt_to_below(
                    start,
                    p as int,
                    from,
                    n as nat,
                    k,
                    t as int,
                    #[trigger] out@[k],
                ),
            own ==> corr@.len() == n,
            forall|k: int|
                own && 0 <= k < n ==> #[trigger] corr@[k] == share_type.without(
                    words[k],
                    all_of(
                        share_type,
                        deal_masks::<T>(start, p as int, from, n as nat, k),
                        t as nat,
                    ),
                ),
        decreases 10 - t,
    {
        let ghost old_out = out@;
        let ghost old_corr = corr@;
        let mut drawn: bool = false;
        let pair: PartyPair = pair_of_set(t);
        proof {
            lemma_pairs_differ(t as int, d);
            assert(pair.has(dealer) == in_set(t as int, from));
            assert(pair.has(own_role) == in_set(t as int, p as int));
        }
        if !pair.contains(own_role) {
            proof {
                lemma_slots(p as int, t as nat);
                lemma_held_prefix(p as int, (t + 1) as nat, 10);
                assert(held_sets(p as int, (t + 1) as nat)[slot as int] == t);
                assert(held_sets(p as int, 10)[slot as int] == t);
            }
            if pair == correction_pair {
                corr_slot = slot;
            } else if !pair.contains(dealer) {
                drawn = true;
                let ghost old_keys = threshold.keys@;
                let masks: Vec<T> = draw_batch(&mut threshold.keys[slot].1, n);
                put(&mut out, slot, masks.as_slice());
                if own {
                    unmask_batch(share_type, &mut corr, masks.as_slice());
                }
                proof {
                    assert(old_keys[slot as int] == start[slot as int]);
                    assert(masks@ == drawn_batch::<T>(start[slot as int].1, n as nat));
                    assert forall|k: int| 0 <= k < n implies dealt_to_below(
                        start,
                        p as int,
                        from,
                        n as nat,
                        k,
                        t + 1,
                        #[trigger] out@[k],
                    ) by {
                        assert(dealt_to_below(
                            start,
                            p as int,
                            from,
                            n as nat,
                            k,
                            t as int,
                            old_out[k],
                        ));
                        lemma_put(p as int, t as int, old_out[k], out@[k], masks@[k]);
                    }
                }
            }
            slot += 1;
        }
        proof {
            if !drawn {
                assert forall|k: int| 0 <= k < n implies dealt_to_below(
                    start,
                    p as int,
                    from,
                    n as nat,
                    k,
                    t + 1,
                    #[trigger] out@[k],
                ) by {
                    assert(dealt_to_below(start, p as int, from, n as nat, k, t as int, old_out[k]));
                }
            }
            assert forall|k: int| own && 0 <= k < n implies #[trigger] corr@[k]
                == share_type.without(
                words[k],
                all_of(
                    share_type,
                    deal_masks::<T>(start, p as int, from, n as nat, k),
                    (t + 1) as nat,
                ),
            ) by {
                let m = deal_masks::<T>(start, p as int, from, n as nat, k);
                let x = all_of(share_type, m, t as nat);
                assert(old_corr[k] == share_type.without(words[k], x));
                lemma_kind_without(share_type, words[k], x, m[t as int]);
                lemma_kind_zero(share_type, x);
            }
        }
        t += 1;
    }
    proof {
        assert(threshold.keys@ =~= keys_after::<T>(start, p as int, from, n as nat));
    }
    let ghost all = out@;
    if own {
        proof {
            assert(!in_set(d, p as int));
            lemma_slots(p as int, d as nat);
        }
        put(&mut out, corr_slot, corr.as_slice());
        proof {
            assert forall|k: int| 0 <= k < n implies dealt_to(
                start,
                p as int,
                from,
                n as nat,
                k,
                corr@[k],
                #[trigger] out@[k],
            ) by {
                assert(dealt_to_below(start, p as int, from, n as nat, k, 10, all[k]));
                lemma_put(p as int, d, all[k], out@[k], corr@[k]);
            }
            assert(corr@ =~= Seq::new(
                n as nat,
                |k: int| deal_correction(share_type, start, from, words, k),
            ));
        }
        Ok((out, Some(corr)))
    } else {
        proof {
            assert forall|k: int| 0 <= k < n implies dealt_to(
                start,
                p as int,
                from,
                n as nat,
                k,
                zero::<T>(),
                #[trigger] out@[k],
            ) by {
                assert(dealt_to_below(start, p as int, from, n as nat, k, 10, all[k]));
            }
        }
        Ok((out, None))
    }
}

/// Whether a party waits for the correction of a dealer.
pub fn awaits_dealer(own_role: Role, dealer: Role) -> (r: bool)
    requires
        own_role.index < 5,
        dealer.index < 5,
    ensures
        r == (own_role != dealer && !in_set(
            dealer_component(dealer.index as int),
            own_role.index as int,
        )),
        dealer.index < 3 ==> r == (own_role.index == 3 || own_role.index == 4),
        dealer.index == 3 ==> r == (own_role.index == 2 || own_role.index == 4),
        dealer.index == 4 ==> r == (own_role.index == 2 || own_role.index == 3),
{
    match select_correction_pair_and_recipients(dealer) {
        Ok((_, recipients)) => recipients[0] == own_role || recipients[1] == own_role,
        Err(_) => false,
    }
}

/// Second half of dealing a batch for a party that waits for the correction.
pub fn receive_dealer_correction<T: IntRing2k + Wire>(
    own_role: Role,
    dealer: Role,
    shares: &mut Vec<RssShare<T>>,
    msg: &NetworkValue,
) -> (r: Result<(), ProtocolError>)
    requires
        own_role.index < 5,
        dealer.index < 5,
        !in_set(dealer_component(dealer.index as int), own_role.index as int),
    ensures
        match expected_vec::<T>(*msg, old(shares)@.len()) {
            Ok(corr) => {
                &&& r == Ok::<(), ProtocolError>(())
                &&& final(shares)@.len() == old(shares)@.len()
                &&& forall|k: int|
                    0 <= k < corr.len() ==> (#[trigger] final(shares)@[k]).slots@ == old(
                        shares,
                    )@[k].slots@.update(
                        slot_of(own_role.index as int, dealer_component(dealer.index as int)),
                        corr[k],
                    )
            },
            Err(e) => {
                &&& r == Err::<(), ProtocolError>(e)
                &&& *final(shares) == *old(shares)
            },
        },
{
    let corr: Vec<T> = match recv_elems::<T>(msg, shares.len()) {
        Ok(v) => v,
        Err(e) => {
            return Err(e);
        },
    };
    let p: usize = own_role.index;
    let d: usize = if dealer.index == 0 {
        4
    } else if dealer.index == 1 {
        1
    } else {
        0
    };
    let mut slot: usize = 0;
    let mut t: usize = 0;
    while t < d
        invariant
            t <= d < 10,
            slot <= t,
            slot == slot_of(p as int, t as int),
        decreases d - t,
    {
        if !set_contains(t, p) {
            slot += 1;
        }
        t += 1;
    }
    proof {
        lemma_slots(p as int, d as nat);
    }
    put(shares, slot, corr.as_slice());
    Ok(())
}

/// The parties of five hold the same streams: all holders of a component stand at the same
/// position.
pub open spec fn keys_in_step(keys: Seq<Seq<(PartyPair, PrfRng)>>, streams: Seq<PrfRng>) -> bool {
    &&& keys.len() == 5
    &&& streams.len() == 10
    &&& forall|p: int| 0 <= p < 5 ==> (#[trigger] keys[p]).len() == 6
    &&& forall|p: int, t: int|
        0 <= p < 5 && 0 <= t < 10 && !in_set(t, p) ==> (#[trigger] keys[p][slot_of(p, t)]).1
            == streams[t]
}

/// Receiving the correction completes a share.
pub proof fn lemma_dealer_correction_received<T: IntRing2k + PrfDraw>(
    keys: Seq<(PartyPair, PrfRng)>,
    p: int,
    dealer: int,
    n: nat,
    k: int,
    before: RssShare<T>,
    corr: T,
    after: RssShare<T>,
)
    requires
        0 <= p < 5,
        0 <= dealer < 5,
        !in_set(dealer_component(dealer), p),
        dealt_to(keys, p, dealer, n, k, zero::<T>(), before),
        after.slots@ == before.slots@.update(slot_of(p, dealer_component(dealer)), corr),
    ensures
        dealt_to(keys, p, dealer, n, k, corr, after),
{
    let d = dealer_component(dealer);
    lemma_put(p, d, before, after, corr);
    assert forall|t: int| 0 <= t < 10 && !in_set(t, p) implies #[trigger] part(
        p,
        after.share5(),
        t,
    ) == (if t == d {
        corr
    } else {
        deal_mask::<T>(keys, p, dealer, n, t, k)
    }) by {
        assert(t != d ==> part(p, after.share5(), t) == part(p, before.share5(), t));
    }
}

/// The shares of the five parties as shares of components.
pub open spec fn shares5<T: IntRing2k>(shares: Seq<RssShare<T>>) -> Seq<Share5<T>> {
    Seq::new(shares.len(), |p: int| shares[p].share5())
}

/// What the components of five parties combine to.
pub open spec fn rss_value<T: IntRing2k>(kind: ShareType, shares: Seq<RssShare<T>>) -> T {
    all_of(kind, parts_of(shares5(shares)), 10)
}

/// The shares of an entry of a dealt batch fit together and combine to the value that the dealer
/// put in.
pub proof fn lemma_dealing_correct<T: IntRing2k + PrfDraw>(
    kind: ShareType,
    keys: Seq<Seq<(PartyPair, PrfRng)>>,
    streams: Seq<PrfRng>,
    dealer: int,
    inputs: Seq<T>,
    k: int,
    shares: Seq<RssShare<T>>,
)
    requires
        keys_in_step(keys, streams),
        0 <= dealer < 5,
        0 <= k < inputs.len(),
        shares.len() == 5,
        forall|p: int|
            0 <= p < 5 ==> dealt_to(
                keys[p],
                p,
                dealer,
                inputs.len(),
                k,
                if in_set(dealer_component(dealer), p) {
                    zero::<T>()
                } else {
                    deal_correction(kind, keys[dealer], dealer, inputs, k)
                },
                #[trigger] shares[p],
            ),
    ensures
        consistent5(shares5(shares)),
        rss_value(kind, shares) == inputs[k],
{
    let d = dealer_component(dealer);
    let corr = deal_correction(kind, keys[dealer], dealer, inputs, k);
    let masks = deal_masks::<T>(keys[dealer], dealer, dealer, inputs.len(), k);
    let parts = masks.update(d, corr);
    let five = shares5(shares);
    assert(!drawn_component(dealer, d) && masks[d] == zero::<T>());
    assert forall|p: int| 0 <= p < 5 implies holds_parts(p, #[trigger] five[p], parts) by {
        assert(five[p] == shares[p].share5());
        assert(dealt_to(
            keys[p],
            p,
            dealer,
            inputs.len(),
            k,
            if in_set(d, p) {
                zero::<T>()
            } else {
                corr
            },
            shares[p],
        ));
        assert forall|t: int| 0 <= t < 10 && !in_set(t, p) implies part(p, five[p], t)
            == #[trigger] parts[t] by {
            assert(part(p, shares[p].share5(), t) == part(p, five[p], t));
            if drawn_component(dealer, t) {
                assert(keys[p][slot_of(p, t)].1 == streams[t]);
                assert(keys[dealer][slot_of(dealer, t)].1 == streams[t]);
            }
        }
    }
    lemma_common_parts(five, parts);
    lemma_all_update(kind, masks, d, corr, 10);
    lemma_kind_swap(kind, inputs[k], all_of(kind, masks, 10), corr);
}

/// Dealing a batch keeps the parties in step.
pub proof fn lemma_dealing_in_step<T: PrfDraw>(
    keys: Seq<Seq<(PartyPair, PrfRng)>>,
    streams: Seq<PrfRng>,
    dealer: int,
    n: nat,
)
    requires
        keys_in_step(keys, streams),
    ensures
        keys_in_step(
            Seq::new(5, |p: int| keys_after::<T>(keys[p], p, dealer, n)),
            Seq::new(
                10,
                |t: int|
                    if drawn_component(dealer, t) {
                        streams[t].advanced(n * T::words())
                    } else {
                        streams[t]
                    },
            ),
        ),
{
    let after = Seq::new(5, |p: int| keys_after::<T>(keys[p], p, dealer, n));
    let moved = Seq::new(
        10,
        |t: int|
            if drawn_component(dealer, t) {
                streams[t].advanced(n * T::words())
            } else {
                streams[t]
            },
    );
    assert forall|p: int| 0 <= p < 5 implies (#[trigger] after[p]).len() == 6 by {
        assert(keys[p].len() == 6);
    }
    assert forall|p: int, t: int| 0 <= p < 5 && 0 <= t < 10 && !in_set(t, p) implies (
    #[trigger] after[p][slot_of(p, t)]).1 == moved[t] by {
        lemma_slots(p, t as nat);
        lemma_held_prefix(p, (t + 1) as nat, 10);
        assert(held_sets(p, (t + 1) as nat)[slot_of(p, t)] == t);
        assert(keys[p][slot_of(p, t)].1 == streams[t]);
        assert(keys[p].len() == 6);
    }
}

/// First half of dealing a batch of values whose components add up to them.
pub fn dealer_rss5_arithmetic<T: IntRing2k + PrfDraw>(
    own_role: Role,
    threshold: &mut ThresholdPrfKeys,
    dealer: Role,
    batch_len: usize,
    dealer_inputs: Option<Vec<T>>,
) -> (r: Result<(Vec<RssShare<T>>, Option<Vec<T>>), ProtocolError>)
    requires
        old(threshold).wf(),
    ensures
        final(threshold).wf(),
        dealer_rss5(
            own_role,
            *old(threshold),
            *final(threshold),
            dealer,
            batch_len as nat,
            dealer_inputs,
            ShareType::Arithmetic,
            r,
        ),
        batch_len == 0 ==> r == Err::<(Vec<RssShare<T>>, Option<Vec<T>>), ProtocolError>(
            ProtocolError::EmptyInput,
        ),
        batch_len > 0 && old(threshold).own_role != own_role ==> r == Err::<(Vec<RssShare<T>>, Option<Vec<T>>), ProtocolError>(ProtocolError::WrongKeySet),
        batch_len > 0 && old(threshold).own_role == own_role ==> {
            &&& dealer.index >= 5 ==> r == Err::<(Vec<RssShare<T>>, Option<Vec<T>>), ProtocolError>(ProtocolError::InvalidRoles)
            &&& dealer.index < 5 && own_role == dealer ==> match dealer_inputs {
                None => r == Err::<(Vec<RssShare<T>>, Option<Vec<T>>), ProtocolError>(ProtocolError::MissingInput),
                Some(values) => if values@.len() == batch_len {
                    r is Ok
                } else {
                    r == Err::<(Vec<RssShare<T>>, Option<Vec<T>>), ProtocolError>(ProtocolError::LengthMismatch)
                },
            }
            &&& dealer.index < 5 && own_role != dealer ==> if dealer_inputs is Some {
                r == Err::<(Vec<RssShare<T>>, Option<Vec<T>>), ProtocolError>(ProtocolError::UnexpectedInput)
            } else if own_role.index >= 5 {
                r == Err::<(Vec<RssShare<T>>, Option<Vec<T>>), ProtocolError>(ProtocolError::UnsupportedRole)
            } else {
                r is Ok
            }
        },
        r is Ok ==> {
            &&& (r->Ok_0).0@.len() == batch_len
            &&& ((r->Ok_0).1 is Some) == (own_role == dealer)
        },
        r is Err ==> *final(threshold) == *old(threshold),
{
    dealer_rss5_batch(own_role, threshold, dealer, batch_len, dealer_inputs, ShareType::Arithmetic)
}

/// First half of dealing a batch of values whose components combine to them by exclusive or.
pub fn dealer_rss5_boolean<T: IntRing2k + PrfDraw>(
    own_role: Role,
    threshold: &mut ThresholdPrfKeys,
    dealer: Role,
    batch_len: usize,
    dealer_inputs: Option<Vec<T>>,
) -> (r: Result<(Vec<RssShare<T>>, Option<Vec<T>>), ProtocolError>)
    requires
        old(threshold).wf(),
    ensures
        final(threshold).wf(),
        dealer_rss5(
            own_role,
            *old(threshold),
            *final(threshold),
            dealer,
            batch_len as nat,
            dealer_inputs,
            ShareType::Boolean,
            r,
        ),
        batch_len == 0 ==> r == Err::<(Vec<RssShare<T>>, Option<Vec<T>>), ProtocolError>(
            ProtocolError::EmptyInput,
        ),
        batch_len > 0 && old(threshold).own_role != own_role ==> r == Err::<(Vec<RssShare<T>>, Option<Vec<T>>), ProtocolError>(ProtocolError::WrongKeySet),
        batch_len > 0 && old(threshold).own_role == own_role ==> {
            &&& dealer.index >= 5 ==> r == Err::<(Vec<RssShare<T>>, Option<Vec<T>>), ProtocolError>(ProtocolError::InvalidRoles)
            &&& dealer.index < 5 && own_role == dealer ==> match dealer_inputs {
                None => r == Err::<(Vec<RssShare<T>>, Option<Vec<T>>), ProtocolError>(ProtocolError::MissingInput),
                Some(values) => if values@.len() == batch_len {
                    r is Ok
                } else {
                    r == Err::<(Vec<RssShare<T>>, Option<Vec<T>>), ProtocolError>(ProtocolError::LengthMismatch)
                },
            }
            &&& dealer.index < 5 && own_role != dealer ==> if dealer_inputs is Some {
                r == Err::<(Vec<RssShare<T>>, Option<Vec<T>>), ProtocolError>(ProtocolError::UnexpectedInput)
            } else if own_role.index >= 5 {
                r == Err::<(Vec<RssShare<T>>, Option<Vec<T>>), ProtocolError>(ProtocolError::UnsupportedRole)
            } else {
                r is Ok
            }
        },
        r is Ok ==> {
            &&& (r->Ok_0).0@.len() == batch_len
            &&& ((r->Ok_0).1 is Some) == (own_role == dealer)
        },
        r is Err ==> *final(threshold) == *old(threshold),
{
    dealer_rss5_batch(own_role, threshold, dealer, batch_len, dealer_inputs, ShareType::Boolean)
}

/// Exactly the five roles are assigned.
pub open spec fn five_roles(roles: Seq<Role>) -> bool {
    &&& roles.len() == 5
    &&& forall|i: usize| i < 5 ==> #[trigger] roles.contains(Role { index: i })
}

fn has_five_roles(roles: &[Role]) -> (r: bool)
    ensures
        r == five_roles(roles@),
        r == (roles@.len() == 5 && roles@.contains((Role { index: 0 })) && roles@.contains(
            (Role { index: 1 }),
        ) && roles@.contains((Role { index: 2 })) && roles@.contains((Role { index: 3 }))
            && roles@.contains((Role { index: 4 }))),
{
    if roles.len() != 5 {
        return false;
    }
    let mut i: usize = 0;
    while i < 5
        invariant
            i <= 5,
            roles@.len() == 5,
            forall|j: usize| j < i ==> #[trigger] roles@.contains(Role { index: j }),
        decreases 5 - i,
    {
        let role = Role::new(i);
        let mut found: bool = false;
        let mut j: usize = 0;
        while j < 5
            invariant
                j <= 5,
                roles@.len() == 5,
                role.index == i,
                found == exists|k: int| 0 <= k < j && #[trigger] roles@[k] == role,
            decreases 5 - j,
        {
            if roles[j] == role {
                found = true;
            }
            j += 1;
        }
        if !found {
            assert(!roles@.contains(Role { index: i }));
            return false;
        }
        assert(roles@.contains(Role { index: i }));
        i += 1;
    }
    true
}

/// The streams of a party after the first `d` parties dealt a batch of words each.
pub open spec fn keys_after_dealers(
    keys: Seq<(PartyPair, PrfRng)>,
    role: int,
    n: nat,
    d: nat,
) -> Seq<(PartyPair, PrfRng)>
    decreases d,
{
    if d == 0 {
        keys
    } else {
        keys_after::<u64>(keys_after_dealers(keys, role, n, (d - 1) as nat), role, d - 1, n)
    }
}

/// What a party has after the first half of five dealings, one of every party.
pub open spec fn all_dealt(
    keys: Seq<(PartyPair, PrfRng)>,
    own: int,
    inputs: Seq<u64>,
    batches: Seq<Vec<RssShare<u64>>>,
    correction: Seq<u64>,
) -> bool {
    let n = inputs.len();
    &&& correction == Seq::new(
        n,
        |k: int|
            deal_correction(
                ShareType::Boolean,
                keys_after_dealers(keys, own, n, own as nat),
                own,
                inputs,
                k,
            ),
    )
    &&& batches.len() == 5
    &&& forall|d: int|
        0 <= d < 5 ==> batch_dealt(
            keys_after_dealers(keys, own, n, d as nat),
            own,
            d,
            n,
            correction,
            (#[trigger] batches[d])@,
        )
}

/// First half of five dealings, one of every party.
pub fn deal_all(own_role: Role, threshold: &mut ThresholdPrfKeys, local_inputs: Vec<u64>) -> (r: (
    Vec<Vec<RssShare<u64>>>,
    Vec<u64>,
))
    requires
        old(threshold).wf(),
        old(threshold).own_role == own_role,
        own_role.index < 5,
        local_inputs@.len() > 0,
    ensures
        final(threshold).wf(),
        final(threshold).own_role == own_role,
        final(threshold).keys@ == keys_after_dealers(
            old(threshold).keys@,
            own_role.index as int,
            local_inputs@.len(),
            5,
        ),
        all_dealt(
            old(threshold).keys@,
            own_role.index as int,
            local_inputs@,
            r.0@,
            r.1@,
        ),
{
    let n: usize = local_inputs.len();
    let ghost keys = threshold.keys@;
    let ghost own = own_role.index as int;
    let ghost words = local_inputs@;
    let mut inputs: Option<Vec<u64>> = Some(local_inputs);
    let mut correction: Vec<u64> = Vec::new();
    let mut batches: Vec<Vec<RssShare<u64>>> = Vec::new();
    let mut d: usize = 0;
    while d < 5
        invariant
            d <= 5,
            n > 0,
            n == words.len(),
            own == own_role.index,
            own_role.index < 5,
            threshold.wf(),
            threshold.own_role == own_role,
            threshold.keys@ == keys_after_dealers(keys, own, n as nat, d as nat),
            batches@.len() == d,
            d <= own ==> inputs is Some && inputs->0@ == words,
            d > own ==> correction@ == Seq::new(
                n as nat,
                |k: int|
                    deal_correction(
                        ShareType::Boolean,
                        keys_after_dealers(keys, own, n as nat, own as nat),
                        own,
                        words,
                        k,
                    ),
            ),
            forall|e: int|
                0 <= e < d ==> batch_dealt(
                    keys_after_dealers(keys, own, n as nat, e as nat),
                    own,
                    e,
                    n as nat,
                    correction@,
                    (#[trigger] batches@[e])@,
                ),
        decreases 5 - d,
    {
        let dealer = Role::new(d);
        let mut given: Option<Vec<u64>> = None;
        if dealer == own_role {
            given = inputs;
            inputs = None;
        }
        let ghost old_correction = correction@;
        let ghost old_batches = batches@;
        match dealer_rss5_batch(own_role, threshold, dealer, n, given, ShareType::Boolean) {
            Ok((shares, corr)) => {
                if let Some(c) = corr {
                    correction = c;
                }
                batches.push(shares);
            },
            Err(_) => {
                assert(false);
            },
        }
        proof {
            assert forall|e: int| 0 <= e < d + 1 implies batch_dealt(
                keys_after_dealers(keys, own, n as nat, e as nat),
                own,
                e,
                n as nat,
                correction@,
                (#[trigger] batches@[e])@,
            ) by {
                if e < d {
                    assert(batches@[e] == old_batches[e]);
                    assert(batch_dealt(
                        keys_after_dealers(keys, own, n as nat, e as nat),
                        own,
                        e,
                        n as nat,
                        old_correction,
                        old_batches[e]@,
                    ));
                }
            }
        }
        d += 1;
    }
    (batches, correction)
}

/// First half of dealing a batch of words of every party in one round: draws what five dealings
/// one after the other draw, and gives the correction of the own batch, which goes to the two
/// recipients.
pub fn dealer_rss5_boolean_all(
    own_role: Role,
    roles: &[Role],
    threshold: &mut ThresholdPrfKeys,
    local_inputs: Vec<u64>,
) -> (r: Result<(Vec<Vec<RssShare<u64>>>, Vec<u64>), ProtocolError>)
    requires
        old(threshold).wf(),
    ensures
        final(threshold).wf(),
        if local_inputs@.len() == 0 {
            &&& r == Err::<(Vec<Vec<RssShare<u64>>>, Vec<u64>), ProtocolError>(
                ProtocolError::EmptyInput,
            )
            &&& *final(threshold) == *old(threshold)
        } else if own_role.index >= 5 || !five_roles(roles@) {
            &&& r == Err::<(Vec<Vec<RssShare<u64>>>, Vec<u64>), ProtocolError>(
                ProtocolError::InvalidRoles,
            )
            &&& *final(threshold) == *old(threshold)
        } else if old(threshold).own_role != own_role {
            &&& r == Err::<(Vec<Vec<RssShare<u64>>>, Vec<u64>), ProtocolError>(
                ProtocolError::WrongKeySet,
            )
            &&& *final(threshold) == *old(threshold)
        } else {
            let own = own_role.index as int;
            &&& r is Ok
            &&& final(threshold).own_role == own_role
            &&& final(threshold).keys@ == keys_after_dealers(
                old(threshold).keys@,
                own,
                local_inputs@.len(),
                5,
            )
            &&& all_dealt(
                old(threshold).keys@,
                own,
                local_inputs@,
                (r->Ok_0).0@,
                (r->Ok_0).1@,
            )
        },
{
    let n: usize = local_inputs.len();
    if n == 0 {
        return Err(ProtocolError::EmptyInput);
    }
    if own_role.index >= 5 || !has_five_roles(roles) {
        return Err(ProtocolError::InvalidRoles);
    }
    if threshold.own_role() != own_role {
        return Err(ProtocolError::WrongKeySet);
    }
    Ok(deal_all(own_role, threshold, local_inputs))
}

/// The shares of a batch of one dealer, as a party has them before it received any correction.
pub open spec fn batch_dealt(
    keys: Seq<(PartyPair, PrfRng)>,
    own: int,
    dealer: int,
    n: nat,
    correction: Seq<u64>,
    batch: Seq<RssShare<u64>>,
) -> bool {
    &&& batch.len() == n
    &&& forall|k: int|
        0 <= k < n ==> dealt_to(
            keys,
            own,
            dealer,
            n,
            k,
            if own == dealer {
                correction[k]
            } else {
                zero::<u64>()
            },
            #[trigger] batch[k],
        )
}

} // verus!
