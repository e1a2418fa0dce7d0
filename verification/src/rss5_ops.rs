//! Moving values between sharings of five and of three parties.

use crate::dealer_5pc::{
    all_dealt, deal_all, dealer_rss5_batch, keys_after, keys_after_dealers, lemma_all_boolean,
    rss_value, shares5, RssShare, ShareType,
};
use crate::message::{expected_vec, recv_elems, NetworkValue, ProtocolError, Wire};
use crate::player::Role;
use crate::prf::{draw_batch, drawn_batch, PrfDraw, PrfRng};
use crate::prf_keys::{other_roles, PairwisePrfKeys, PartyPair, ThresholdPrfKeys};
use crate::ring::IntRing2k;
use crate::ring_lemmas::{lemma_absorb, lemma_xor_zero};
use crate::rss5::{
    and_local, and_sum, assigned, consistent5, lemma_and_local_correct, lemma_xor5_value, value5,
    xor_all, Share5, Topology,
};
use vstd::prelude::*;

verus! {

/// Which parties keep a value and which hand their shares over.
///
/// The first sender masks its shares for the first and the third receiver and sends the rest to the
/// second one. The second sender masks its shares for the first and the second receiver and sends
/// the rest to the third one.
#[derive(Clone, Copy, Debug)]
pub struct FiveToThreeRoles {
    pub receivers: [Role; 3],
    pub senders: [Role; 2],
}

impl FiveToThreeRoles {
    /// The five roles in the order of receivers and senders.
    pub open spec fn named(self) -> Seq<Role> {
        self.receivers@ + self.senders@
    }

    /// The five roles are named, each exactly once.
    pub open spec fn valid(self) -> bool {
        &&& forall|i: int| 0 <= i < 5 ==> (#[trigger] self.named()[i]).index < 5
        &&& forall|i: int, j: int|
            0 <= i < j < 5 ==> #[trigger] self.named()[i] != #[trigger] self.named()[j]
    }

    /// Parties 0, 1 and 2 receive, parties 3 and 4 send.
    pub fn canonical() -> (r: FiveToThreeRoles)
        ensures
            r.valid(),
            forall|i: int| 0 <= i < 5 ==> (#[trigger] r.named()[i]).index == i,
    {
        let r = FiveToThreeRoles {
            receivers: [Role::new(0), Role::new(1), Role::new(2)],
            senders: [Role::new(3), Role::new(4)],
        };
        assert forall|i: int| 0 <= i < 5 implies (#[trigger] r.named()[i]).index == i by {
        }
        r
    }

    /// The two receivers that a sender masks its shares for, and the one that it sends the rest to.
    pub open spec fn route(self, sender: Role) -> Option<(Role, Role, Role)> {
        let (r, s) = (self.receivers@, self.senders@);
        if sender == s[0] {
            Some((r[0], r[2], r[1]))
        } else if sender == s[1] {
            Some((r[0], r[1], r[2]))
        } else {
            None
        }
    }

    /// The two receivers that a sender masks its shares for, and the one that it sends the rest to.
    pub fn sender_route(&self, sender: Role) -> (r: Option<([Role; 2], Role)>)
        ensures
            match self.route(sender) {
                None => r is None,
                Some(route) => {
                    &&& r is Some
                    &&& (r->0).0@[0] == route.0
                    &&& (r->0).0@[1] == route.1
                    &&& (r->0).1 == route.2
                },
            },
            ({
                let (x, y) = (self.receivers@, self.senders@);
                &&& (r is Some) == (sender == y[0] || sender == y[1])
                &&& sender == y[0] ==> (r->0).0@[0] == x[0] && (r->0).0@[1] == x[2] && (r->0).1
                    == x[1]
                &&& sender == y[1] && sender != y[0] ==> (r->0).0@[0] == x[0] && (r->0).0@[1]
                    == x[1] && (r->0).1 == x[2]
            }),
    {
        if sender == self.senders[0] {
            Some(([self.receivers[0], self.receivers[2]], self.receivers[1]))
        } else if sender == self.senders[1] {
            Some(([self.receivers[0], self.receivers[1]], self.receivers[2]))
        } else {
            None
        }
    }

    /// Checks that the five roles are named, each exactly once.
    pub fn validate(&self) -> (r: Result<(), ProtocolError>)
        ensures
            r == (if self.valid() {
                Ok::<(), ProtocolError>(())
            } else {
                Err::<(), ProtocolError>(ProtocolError::InvalidRoles)
            }),
            (r is Ok) == ({
                let (x, y) = (self.receivers@, self.senders@);
                &&& x[0].index < 5 && x[1].index < 5 && x[2].index < 5 && y[0].index < 5
                    && y[1].index < 5
                &&& x[0] != x[1] && x[0] != x[2] && x[0] != y[0] && x[0] != y[1] && x[1] != x[2]
                    && x[1] != y[0] && x[1] != y[1] && x[2] != y[0] && x[2] != y[1] && y[0] != y[1]
            }),
    {
        let all: [Role; 5] = [
            self.receivers[0],
            self.receivers[1],
            self.receivers[2],
            self.senders[0],
            self.senders[1],
        ];
        assert(all@ =~= self.named());
        let mut i: usize = 0;
        while i < 5
            invariant
                i <= 5,
                all@ == self.named(),
                forall|a: int| 0 <= a < i ==> (#[trigger] all@[a]).index < 5,
                forall|a: int, b: int|
                    0 <= a < b < 5 && a < i ==> #[trigger] all@[a] != #[trigger] all@[b],
            decreases 5 - i,
        {
            if all[i].index >= 5 {
                assert(self.named()[i as int].index >= 5);
                return Err(ProtocolError::InvalidRoles);
            }
            let mut j: usize = i + 1;
            while j < 5
                invariant
                    i < j <= 5,
                    all@ == self.named(),
                    forall|b: int| i < b < j ==> all@[i as int] != #[trigger] all@[b],
                decreases 5 - j,
            {
                if all[i] == all[j] {
                    assert(self.named()[i as int] == self.named()[j as int]);
                    return Err(ProtocolError::InvalidRoles);
                }
                j += 1;
            }
            i += 1;
        }
        Ok(())
    }
}

/// Where a party keeps the stream that it shares with another.
pub open spec fn peer_slot(own: int, other: int) -> int {
    if other < own {
        other
    } else {
        other - 1
    }
}

/// The streams of a party follow the order of the other parties.
pub proof fn lemma_peer_slots(own: Role)
    requires
        own.index < 5,
    ensures
        other_roles(own, 5).len() == 4,
        forall|q: int|
            0 <= q < 5 && q != own.index ==> (#[trigger] other_roles(own, 5)[peer_slot(
                own.index as int,
                q,
            )]).index == q,
{
    reveal_with_fuel(other_roles, 6);
}

/// Masks that a party draws from the stream that it shares with another.
pub open spec fn peer_masks<T: PrfDraw>(
    keys: Seq<(Role, PrfRng)>,
    own: int,
    other: int,
    n: nat,
) -> Seq<T> {
    drawn_batch::<T>(keys[peer_slot(own, other)].1, n)
}

/// The streams of a party after masks were drawn from one of them.
pub open spec fn peer_drew<T: PrfDraw>(
    keys: Seq<(Role, PrfRng)>,
    own: int,
    other: int,
    n: nat,
) -> Seq<(Role, PrfRng)> {
    let i = peer_slot(own, other);
    keys.update(i, (keys[i].0, keys[i].1.advanced(n * T::words())))
}

/// Draws masks from the stream that a party shares with another.
fn prf_piece<T: PrfDraw>(pairwise: &mut PairwisePrfKeys, other: Role, len: usize) -> (r: Vec<T>)
    requires
        old(pairwise).wf(),
        old(pairwise).own_role.index < 5,
        other.index < 5,
        other != old(pairwise).own_role,
    ensures
        final(pairwise).wf(),
        final(pairwise).own_role == old(pairwise).own_role,
        r@ == peer_masks::<T>(
            old(pairwise).keys@,
            old(pairwise).own_role.index as int,
            other.index as int,
            len as nat,
        ),
        final(pairwise).keys@ == peer_drew::<T>(
            old(pairwise).keys@,
            old(pairwise).own_role.index as int,
            other.index as int,
            len as nat,
        ),
{
    let slot: usize = if other.index < pairwise.own_role.index {
        other.index
    } else {
        other.index - 1
    };
    proof {
        lemma_peer_slots(pairwise.own_role);
    }
    draw_batch(&mut pairwise.keys[slot].1, len)
}

/// What a party has after the first half of a resharing.
#[derive(Debug)]
pub enum Reshared<T> {
    /// The party sends the rest of its shares to a receiver and keeps nothing.
    Send { to: Role, values: Vec<T> },
    /// The party still lacks the rest of the shares of a sender.
    Await { from: Role, partial: Vec<T> },
    /// The party has its shares.
    Done { values: Vec<T> },
}

/// Whether `r` is what a party has after the first half of a resharing.
pub open spec fn reshares<T: IntRing2k + PrfDraw>(
    roles: FiveToThreeRoles,
    own: Role,
    keys: Seq<(Role, PrfRng)>,
    shares: Seq<T>,
    r: Reshared<T>,
    after: Seq<(Role, PrfRng)>,
) -> bool {
    let n = shares.len();
    let p = own.index as int;
    let (rv, sv) = (roles.receivers@, roles.senders@);
    match roles.route(own) {
        Some(route) => {
            let (x, y) = (route.0.index as int, route.1.index as int);
            let (a, b) = (
                peer_masks::<T>(keys, p, x, n),
                peer_masks::<T>(peer_drew::<T>(keys, p, x, n), p, y, n),
            );
            &&& r matches Reshared::Send { to, values }
            &&& to == route.2
            &&& values@ == Seq::new(
                n,
                |k: int| T::of_int(shares[k].val() - a[k].val() - b[k].val()),
            )
            &&& after == peer_drew::<T>(peer_drew::<T>(keys, p, x, n), p, y, n)
        },
        None => if own == rv[0] {
            let (x, y) = (sv[0].index as int, sv[1].index as int);
            let (a, b) = (
                peer_masks::<T>(keys, p, x, n),
                peer_masks::<T>(peer_drew::<T>(keys, p, x, n), p, y, n),
            );
            &&& r matches Reshared::Done { values }
            &&& values@ == Seq::new(
                n,
                |k: int| T::of_int(shares[k].val() + a[k].val() + b[k].val()),
            )
            &&& after == peer_drew::<T>(peer_drew::<T>(keys, p, x, n), p, y, n)
        } else {
            let (masked, source) = if own == rv[1] {
                (sv[1], sv[0])
            } else {
                (sv[0], sv[1])
            };
            let a = peer_masks::<T>(keys, p, masked.index as int, n);
            &&& r matches Reshared::Await { from, partial }
            &&& from == source
            &&& partial@ == Seq::new(n, |k: int| T::of_int(shares[k].val() + a[k].val()))
            &&& after == peer_drew::<T>(keys, p, masked.index as int, n)
        },
    }
}

/// The entries after the first half of a resharing. A sender takes off the values that it draws with
/// two receivers. The first receiver adds those that it draws with both senders, each other receiver
/// those that it draws with the sender that does not send to it.
pub proof fn lemma_reshared_entries<T: IntRing2k + PrfDraw>(
    roles: FiveToThreeRoles,
    own: Role,
    keys: Seq<(Role, PrfRng)>,
    shares: Seq<T>,
    r: Reshared<T>,
    after: Seq<(Role, PrfRng)>,
    k: int,
)
    requires
        roles.valid(),
        own.index < 5,
        keys.len() == 4,
        reshares(roles, own, keys, shares, r, after),
        0 <= k < shares.len(),
    ensures
        ({
            let (x, y) = (roles.receivers@, roles.senders@);
            let drawn = |other: Role|
                T::drawn(
                    keys[if other.index < own.index {
                        other.index as int
                    } else {
                        other.index - 1
                    }].1.advanced(k * T::words()),
                ).val();
            match r {
                Reshared::Send { to, values } => {
                    let (kept, sent) = if own == y[0] {
                        (x[2], x[1])
                    } else {
                        (x[1], x[2])
                    };
                    &&& (own == y[0] || own == y[1]) && to == sent && values@.len() == shares.len()
                    &&& values@[k] == T::of_int(shares[k].val() - drawn(x[0]) - drawn(kept))
                },
                Reshared::Done { values } => {
                    &&& own == x[0] && values@.len() == shares.len()
                    &&& values@[k] == T::of_int(shares[k].val() + drawn(y[0]) + drawn(y[1]))
                },
                Reshared::Await { from, partial } => {
                    let (source, masked) = if own == x[1] {
                        (y[0], y[1])
                    } else {
                        (y[1], y[0])
                    };
                    &&& own != x[0] && own != y[0] && own != y[1] && from == source
                    &&& partial@.len() == shares.len()
                    &&& partial@[k] == T::of_int(shares[k].val() + drawn(masked))
                },
            }
        }),
{
    let n = shares.len();
    let p = own.index as int;
    let (x, y) = (roles.receivers@, roles.senders@);
    assert(roles.named()[0] == x[0] && roles.named()[1] == x[1] && roles.named()[2] == x[2]
        && roles.named()[3] == y[0] && roles.named()[4] == y[1]);
    if own == y[0] {
        lemma_other_slot::<T>(keys, p, x[0].index as int, x[2].index as int, n);
    } else if own == y[1] {
        lemma_other_slot::<T>(keys, p, x[0].index as int, x[1].index as int, n);
    } else if own == x[0] {
        lemma_other_slot::<T>(keys, p, y[0].index as int, y[1].index as int, n);
    }
}

/// Every entry plus its masks.
fn add_masks<T: IntRing2k>(x: &[T], a: &[T]) -> (r: Vec<T>)
    requires
        x@.len() == a@.len(),
    ensures
        r@ == Seq::new(x@.len(), |k: int| T::of_int(x@[k].val() + a@[k].val())),
{
    let mut out: Vec<T> = Vec::new();
    let mut k: usize = 0;
    while k < x.len()
        invariant
            k <= x@.len(),
            x@.len() == a@.len(),
            out@.len() == k,
            forall|j: int|
                0 <= j < k ==> #[trigger] out@[j] == T::of_int(x@[j].val() + a@[j].val()),
        decreases x@.len() - k,
    {
        out.push(x[k].ring_add(a[k]));
        k += 1;
    }
    assert(out@ =~= Seq::new(x@.len(), |j: int| T::of_int(x@[j].val() + a@[j].val())));
    out
}

/// Every entry minus its masks.
fn sub_masks<T: IntRing2k>(x: &[T], a: &[T]) -> (r: Vec<T>)
    requires
        x@.len() == a@.len(),
    ensures
        r@ == Seq::new(x@.len(), |k: int| T::of_int(x@[k].val() - a@[k].val())),
{
    let mut out: Vec<T> = Vec::new();
    let mut k: usize = 0;
    while k < x.len()
        invariant
            k <= x@.len(),
            x@.len() == a@.len(),
            out@.len() == k,
            forall|j: int|
                0 <= j < k ==> #[trigger] out@[j] == T::of_int(x@[j].val() - a@[j].val()),
        decreases x@.len() - k,
    {
        out.push(x[k].ring_sub(a[k]));
        k += 1;
    }
    assert(out@ =~= Seq::new(x@.len(), |j: int| T::of_int(x@[j].val() - a@[j].val())));
    out
}

/// First half of turning additive shares of five parties into additive shares of the three
/// receivers: every sender splits each of its shares into two masks, which two receivers draw
/// themselves, and a rest, which it sends to the third one.
pub fn reshare_five_to_three_party_additive<T: IntRing2k + PrfDraw>(
    pairwise: &mut PairwisePrfKeys,
    roles: &FiveToThreeRoles,
    shares: &[T],
) -> (r: Result<Reshared<T>, ProtocolError>)
    requires
        old(pairwise).wf(),
        roles.valid(),
    ensures
        final(pairwise).wf(),
        final(pairwise).own_role == old(pairwise).own_role,
        if shares@.len() == 0 {
            &&& r == Err::<Reshared<T>, ProtocolError>(ProtocolError::EmptyInput)
            &&& *final(pairwise) == *old(pairwise)
        } else if old(pairwise).own_role.index >= 5 {
            &&& r == Err::<Reshared<T>, ProtocolError>(ProtocolError::UnsupportedRole)
            &&& *final(pairwise) == *old(pairwise)
        } else {
            &&& r is Ok
            &&& reshares(
                *roles,
                old(pairwise).own_role,
                old(pairwise).keys@,
                shares@,
                r->Ok_0,
                final(pairwise).keys@,
            )
        },
{
    if shares.len() == 0 {
        return Err(ProtocolError::EmptyInput);
    }
    let own: Role = pairwise.own_role();
    if own.index >= 5 {
        return Err(ProtocolError::UnsupportedRole);
    }
    let len: usize = shares.len();
    let ghost named = roles.named();
    proof {
        assert(named[0] == roles.receivers@[0] && named[1] == roles.receivers@[1] && named[2]
            == roles.receivers@[2] && named[3] == roles.senders@[0] && named[4]
            == roles.senders@[1]);
    }
    if let Some((masked, to)) = roles.sender_route(own) {
        let a: Vec<T> = prf_piece(pairwise, masked[0], len);
        let b: Vec<T> = prf_piece(pairwise, masked[1], len);
        let one: Vec<T> = sub_masks(shares, a.as_slice());
        let values: Vec<T> = sub_masks(one.as_slice(), b.as_slice());
        proof {
            assert forall|k: int| 0 <= k < len implies #[trigger] values@[k] == T::of_int(
                shares@[k].val() - a@[k].val() - b@[k].val(),
            ) by {
                lemma_absorb::<T>(shares@[k].val() - a@[k].val(), -b@[k].val());
            }
            assert(values@ =~= Seq::new(
                len as nat,
                |k: int| T::of_int(shares@[k].val() - a@[k].val() - b@[k].val()),
            ));
        }
        return Ok(Reshared::Send { to, values });
    }
    if own == roles.receivers[0] {
        let a: Vec<T> = prf_piece(pairwise, roles.senders[0], len);
        let b: Vec<T> = prf_piece(pairwise, roles.senders[1], len);
        let one: Vec<T> = add_masks(shares, a.as_slice());
        let values: Vec<T> = add_masks(one.as_slice(), b.as_slice());
        proof {
            assert forall|k: int| 0 <= k < len implies #[trigger] values@[k] == T::of_int(
                shares@[k].val() + a@[k].val() + b@[k].val(),
            ) by {
                lemma_absorb::<T>(shares@[k].val() + a@[k].val(), b@[k].val());
            }
            assert(values@ =~= Seq::new(
                len as nat,
                |k: int| T::of_int(shares@[k].val() + a@[k].val() + b@[k].val()),
            ));
        }
        return Ok(Reshared::Done { values });
    }
    let (masked, from): (Role, Role) = if own == roles.receivers[1] {
        (roles.senders[1], roles.senders[0])
    } else {
        (roles.senders[0], roles.senders[1])
    };
    let a: Vec<T> = prf_piece(pairwise, masked, len);
    Ok(Reshared::Await { from, partial: add_masks(shares, a.as_slice()) })
}

/// Second half of a resharing for the second and third receiver, with the rest that a sender sent.
pub fn receive_reshared<T: IntRing2k + Wire>(partial: &[T], msg: &NetworkValue) -> (r: Result<
    Vec<T>,
    ProtocolError,
>)
    ensures
        match expected_vec::<T>(*msg, partial@.len()) {
            Ok(rest) => {
                &&& r is Ok
                &&& r->Ok_0@ == Seq::new(
                    partial@.len(),
                    |k: int| T::of_int(partial@[k].val() + rest[k].val()),
                )
            },
            Err(e) => r == Err::<Vec<T>, ProtocolError>(e),
        },
{
    match recv_elems::<T>(msg, partial.len()) {
        Ok(rest) => Ok(add_masks(partial, rest.as_slice())),
        Err(e) => Err(e),
    }
}

/// First half of a resharing where parties 0, 1 and 2 receive.
pub fn reshare_five_to_three_additive_canonical<T: IntRing2k + PrfDraw>(
    pairwise: &mut PairwisePrfKeys,
    shares: &[T],
) -> (r: Result<Reshared<T>, ProtocolError>)
    requires
        old(pairwise).wf(),
    ensures
        final(pairwise).wf(),
        final(pairwise).own_role == old(pairwise).own_role,
        if shares@.len() == 0 {
            &&& r == Err::<Reshared<T>, ProtocolError>(ProtocolError::EmptyInput)
            &&& *final(pairwise) == *old(pairwise)
        } else if old(pairwise).own_role.index >= 5 {
            &&& r == Err::<Reshared<T>, ProtocolError>(ProtocolError::UnsupportedRole)
            &&& *final(pairwise) == *old(pairwise)
        } else {
            &&& r is Ok
            &&& exists|roles: FiveToThreeRoles| #[trigger]
                canonical_roles(roles) && reshares(
                    roles,
                    old(pairwise).own_role,
                    old(pairwise).keys@,
                    shares@,
                    r->Ok_0,
                    final(pairwise).keys@,
                )
        },
{
    let roles = FiveToThreeRoles::canonical();
    assert(canonical_roles(roles));
    reshare_five_to_three_party_additive(pairwise, &roles, shares)
}

/// Parties 0, 1 and 2 receive, parties 3 and 4 send.
pub open spec fn canonical_roles(roles: FiveToThreeRoles) -> bool {
    forall|i: int| 0 <= i < 5 ==> (#[trigger] roles.named()[i]).index == i
}

/// The streams of any two parties agree.
pub open spec fn peers_in_step(keys: Seq<Seq<(Role, PrfRng)>>) -> bool {
    &&& keys.len() == 5
    &&& forall|p: int, q: int|
        0 <= p < 5 && 0 <= q < 5 && p != q ==> (#[trigger] keys[p][peer_slot(p, q)]).1
            == keys[q][peer_slot(q, p)].1
}

/// The shares of the three receivers add up to what the five shares added up to.
pub proof fn lemma_resharing_correct<T: IntRing2k + PrfDraw>(
    roles: FiveToThreeRoles,
    keys: Seq<Seq<(Role, PrfRng)>>,
    shares: Seq<Seq<T>>,
    r: Seq<Reshared<T>>,
    after: Seq<Seq<(Role, PrfRng)>>,
    k: int,
)
    requires
        roles.valid(),
        peers_in_step(keys),
        shares.len() == 5,
        forall|p: int| 0 <= p < 5 ==> (#[trigger] keys[p]).len() == 4,
        forall|p: int| 0 <= p < 5 ==> 0 <= k < (#[trigger] shares[p]).len() == shares[0].len(),
        forall|p: int|
            0 <= p < 5 ==> reshares(
                roles,
                Role { index: p as usize },
                keys[p],
                shares[p],
                #[trigger] r[p],
                after[p],
            ),
    ensures
        ({
            let (r0, r1, r2) = (
                roles.receivers@[0].index as int,
                roles.receivers@[1].index as int,
                roles.receivers@[2].index as int,
            );
            let (s0, s1) = (roles.senders@[0].index as int, roles.senders@[1].index as int);
            let v0 = r[r0]->Done_values@[k];
            let v1 = T::of_int(r[r1]->partial@[k].val() + r[s0]->Send_values@[k].val());
            let v2 = T::of_int(r[r2]->partial@[k].val() + r[s1]->Send_values@[k].val());
            T::of_int(v0.val() + v1.val() + v2.val()) == T::of_int(
                shares[0][k].val() + shares[1][k].val() + shares[2][k].val() + shares[3][k].val()
                    + shares[4][k].val(),
            )
        }),
{
    let named = roles.named();
    assert(named[0] == roles.receivers@[0] && named[1] == roles.receivers@[1] && named[2]
        == roles.receivers@[2] && named[3] == roles.senders@[0] && named[4] == roles.senders@[1]);
    let (r0, r1, r2) = (named[0].index as int, named[1].index as int, named[2].index as int);
    let (s0, s1) = (named[3].index as int, named[4].index as int);
    let n = shares[0].len();
    assert(named[0] == (Role { index: r0 as usize }) && named[1] == (Role { index: r1 as usize })
        && named[2] == (Role { index: r2 as usize }) && named[3] == (Role { index: s0 as usize })
        && named[4] == (Role { index: s1 as usize }));
    assert(r0 != r1 && r0 != r2 && r0 != s0 && r0 != s1 && r1 != r2 && r1 != s0 && r1 != s1 && r2
        != s0 && r2 != s1 && s0 != s1);
    assert(shares[r0].len() == n && shares[r1].len() == n && shares[r2].len() == n
        && shares[s0].len() == n && shares[s1].len() == n);
    let m = |p: int, q: int| drawn_batch::<T>(keys[p][peer_slot(p, q)].1, n)[k].val();
    let d = |p: int| shares[p][k].val();
    assert(keys[s0].len() == 4 && keys[s1].len() == 4 && keys[r0].len() == 4);
    // what each party has
    assert(reshares(roles, named[3], keys[s0], shares[s0], r[s0], after[s0]));
    assert(reshares(roles, named[4], keys[s1], shares[s1], r[s1], after[s1]));
    assert(reshares(roles, named[0], keys[r0], shares[r0], r[r0], after[r0]));
    assert(reshares(roles, named[1], keys[r1], shares[r1], r[r1], after[r1]));
    assert(reshares(roles, named[2], keys[r2], shares[r2], r[r2], after[r2]));
    lemma_other_slot::<T>(keys[s0], s0, r0, r2, n);
    lemma_other_slot::<T>(keys[s1], s1, r0, r1, n);
    lemma_other_slot::<T>(keys[r0], r0, s0, s1, n);
    let c0 = r[s0]->Send_values@[k];
    let c1 = r[s1]->Send_values@[k];
    assert(c0 == T::of_int(d(s0) - m(s0, r0) - m(s0, r2)));
    assert(c1 == T::of_int(d(s1) - m(s1, r0) - m(s1, r1)));
    let v0 = r[r0]->Done_values@[k];
    assert(v0 == T::of_int(d(r0) + m(r0, s0) + m(r0, s1)));
    let p1 = r[r1]->partial@[k];
    let p2 = r[r2]->partial@[k];
    assert(p1 == T::of_int(d(r1) + m(r1, s1)));
    assert(p2 == T::of_int(d(r2) + m(r2, s0)));
    // masks agree
    assert(keys[s0][peer_slot(s0, r0)].1 == keys[r0][peer_slot(r0, s0)].1);
    assert(keys[s0][peer_slot(s0, r2)].1 == keys[r2][peer_slot(r2, s0)].1);
    assert(keys[s1][peer_slot(s1, r0)].1 == keys[r0][peer_slot(r0, s1)].1);
    assert(keys[s1][peer_slot(s1, r1)].1 == keys[r1][peer_slot(r1, s1)].1);
    let v1 = T::of_int(p1.val() + c0.val());
    let v2 = T::of_int(p2.val() + c1.val());
    let x1 = d(r1) + m(r1, s1) + d(s0) - m(s0, r0) - m(s0, r2);
    let x2 = d(r2) + m(r2, s0) + d(s1) - m(s1, r0) - m(s1, r1);
    let x0 = d(r0) + m(r0, s0) + m(r0, s1);
    lemma_absorb::<T>(d(r1) + m(r1, s1), c0.val());
    lemma_absorb::<T>(d(s0) - m(s0, r0) - m(s0, r2), d(r1) + m(r1, s1));
    assert(v1 == T::of_int(x1));
    lemma_absorb::<T>(d(r2) + m(r2, s0), c1.val());
    lemma_absorb::<T>(d(s1) - m(s1, r0) - m(s1, r1), d(r2) + m(r2, s0));
    assert(v2 == T::of_int(x2));
    crate::ring_lemmas::lemma_sum3::<T>(x0, x1, x2);
    assert(x0 + x1 + x2 == d(r0) + d(r1) + d(r2) + d(s0) + d(s1));
    lemma_sum_of_permutation(d, r0, r1, r2, s0, s1);
}

/// The sum over five different parties is the sum over all parties.
proof fn lemma_sum_of_permutation(d: spec_fn(int) -> int, a: int, b: int, c: int, e: int, f: int)
    requires
        0 <= a < 5 && 0 <= b < 5 && 0 <= c < 5 && 0 <= e < 5 && 0 <= f < 5,
        a != b && a != c && a != e && a != f,
        b != c && b != e && b != f,
        c != e && c != f && e != f,
    ensures
        d(a) + d(b) + d(c) + d(e) + d(f) == d(0) + d(1) + d(2) + d(3) + d(4),
{
}

/// Drawing from one stream leaves the others where they are.
proof fn lemma_other_slot<T: PrfDraw>(keys: Seq<(Role, PrfRng)>, own: int, x: int, y: int, n: nat)
    requires
        keys.len() == 4,
        0 <= own < 5,
        0 <= x < 5,
        0 <= y < 5,
        x != own,
        y != own,
        x != y,
    ensures
        peer_masks::<T>(peer_drew::<T>(keys, own, x, n), own, y, n) == peer_masks::<T>(
            keys,
            own,
            y,
            n,
        ),
{
}

/// Why additive shares of three parties cannot be dealt.
pub open spec fn boolean_deal_error(
    roles: FiveToThreeRoles,
    own_role: Role,
    key_role: Role,
    given: nat,
    batch_len: nat,
) -> Option<ProtocolError> {
    if !roles.valid() {
        Some(ProtocolError::InvalidRoles)
    } else if batch_len == 0 {
        Some(ProtocolError::EmptyInput)
    } else if key_role != own_role {
        Some(ProtocolError::WrongKeySet)
    } else if roles.receivers@.contains(own_role) {
        if given != batch_len {
            Some(ProtocolError::LengthMismatch)
        } else {
            None
        }
    } else if roles.senders@.contains(own_role) {
        if given != 0 {
            Some(ProtocolError::UnexpectedInput)
        } else {
            None
        }
    } else {
        Some(ProtocolError::UnsupportedRole)
    }
}

/// The streams of a party after the first `d` receivers dealt a batch each.
pub open spec fn keys_after_receivers<T: PrfDraw>(
    keys: Seq<(PartyPair, PrfRng)>,
    own: int,
    roles: FiveToThreeRoles,
    n: nat,
    d: nat,
) -> Seq<(PartyPair, PrfRng)>
    decreases d,
{
    if d == 0 {
        keys
    } else {
        keys_after::<T>(
            keys_after_receivers::<T>(keys, own, roles, n, (d - 1) as nat),
            own,
            roles.receivers@[d - 1].index as int,
            n,
        )
    }
}

/// A party with the given streams has the given result after the first half of a dealing.
pub open spec fn dealing_of<T: IntRing2k + PrfDraw>(
    own_role: Role,
    keys: Seq<(PartyPair, PrfRng)>,
    dealer: Role,
    inputs: Seq<T>,
    n: nat,
    shares: Seq<RssShare<T>>,
    corr: Option<Vec<T>>,
) -> bool {
    let (own, from) = (own_role.index as int, dealer.index as int);
    &&& (corr is Some) == (own_role == dealer)
    &&& own_role == dealer ==> (corr->0)@ == Seq::new(
        n,
        |k: int|
            crate::dealer_5pc::deal_correction(ShareType::Boolean, keys, from, inputs, k),
    )
    &&& shares.len() == n
    &&& forall|k: int|
        0 <= k < n ==> crate::dealer_5pc::dealt_to(
            keys,
            own,
            from,
            n,
            k,
            if own_role == dealer {
                (corr->0)@[k]
            } else {
                crate::ring_lemmas::zero::<T>()
            },
            #[trigger] shares[k],
        )
}

/// First half of dealing the additive shares of the three receivers bit by bit: one dealing for
/// each receiver, in order. The values of a dealing combine by exclusive or, and those of the three
/// dealings add up to the shared value.
pub fn dealer_three_party_additive_as_boolean_rss5_batches<T: IntRing2k + PrfDraw>(
    own_role: Role,
    threshold: &mut ThresholdPrfKeys,
    roles: &FiveToThreeRoles,
    additive_shares: &[T],
    batch_len: usize,
) -> (r: Result<Vec<(Vec<RssShare<T>>, Option<Vec<T>>)>, ProtocolError>)
    requires
        old(threshold).wf(),
    ensures
        final(threshold).wf(),
        match boolean_deal_error(
            *roles,
            own_role,
            old(threshold).own_role,
            additive_shares@.len(),
            batch_len as nat,
        ) {
            Some(e) => {
                &&& r == Err::<Vec<(Vec<RssShare<T>>, Option<Vec<T>>)>, ProtocolError>(e)
                &&& *final(threshold) == *old(threshold)
            },
            None => {
                let (own, n) = (own_role.index as int, batch_len as nat);
                let keys = old(threshold).keys@;
                &&& r is Ok
                &&& final(threshold).own_role == own_role
                &&& final(threshold).keys@ == keys_after_receivers::<T>(keys, own, *roles, n, 3)
                &&& r->Ok_0@.len() == 3
                &&& forall|d: int|
                    0 <= d < 3 ==> dealing_of(
                        own_role,
                        keys_after_receivers::<T>(keys, own, *roles, n, d as nat),
                        roles.receivers@[d],
                        additive_shares@,
                        n,
                        (#[trigger] r->Ok_0@[d]).0@,
                        r->Ok_0@[d].1,
                    )
            },
        },
        !roles.valid() ==> r == Err::<Vec<(Vec<RssShare<T>>, Option<Vec<T>>)>, ProtocolError>(ProtocolError::InvalidRoles),
        roles.valid() && batch_len == 0 ==> r == Err::<Vec<(Vec<RssShare<T>>, Option<Vec<T>>)>, ProtocolError>(ProtocolError::EmptyInput),
        roles.valid() && batch_len > 0 && old(threshold).own_role != own_role ==> r == Err::<Vec<(Vec<RssShare<T>>, Option<Vec<T>>)>, ProtocolError>(
            ProtocolError::WrongKeySet,
        ),
        roles.valid() && batch_len > 0 && old(threshold).own_role == own_role ==> {
            &&& roles.receivers@.contains(own_role) ==> if additive_shares@.len() == batch_len {
                r is Ok
            } else {
                r == Err::<Vec<(Vec<RssShare<T>>, Option<Vec<T>>)>, ProtocolError>(ProtocolError::LengthMismatch)
            }
            &&& !roles.receivers@.contains(own_role) && roles.senders@.contains(own_role)
                ==> if additive_shares@.len() == 0 {
                r is Ok
            } else {
                r == Err::<Vec<(Vec<RssShare<T>>, Option<Vec<T>>)>, ProtocolError>(ProtocolError::UnexpectedInput)
            }
            &&& !roles.receivers@.contains(own_role) && !roles.senders@.contains(own_role) ==> r
                == Err::<Vec<(Vec<RssShare<T>>, Option<Vec<T>>)>, ProtocolError>(ProtocolError::UnsupportedRole)
        },
        r is Err ==> *final(threshold) == *old(threshold),
{
    match roles.validate() {
        Ok(_) => {},
        Err(e) => {
            return Err(e);
        },
    }
    if batch_len == 0 {
        return Err(ProtocolError::EmptyInput);
    }
    if threshold.own_role() != own_role {
        return Err(ProtocolError::WrongKeySet);
    }
    let receives: bool = own_role == roles.receivers[0] || own_role == roles.receivers[1]
        || own_role == roles.receivers[2];
    let sends: bool = own_role == roles.senders[0] || own_role == roles.senders[1];
    proof {
        let (rv, sv) = (roles.receivers@, roles.senders@);
        assert(receives == rv.contains(own_role)) by {
            if receives {
                assert(rv[0] == own_role || rv[1] == own_role || rv[2] == own_role);
            }
        }
        assert(sends == sv.contains(own_role)) by {
            if sends {
                assert(sv[0] == own_role || sv[1] == own_role);
            }
        }
        let named = roles.named();
        assert(named[0] == rv[0] && named[1] == rv[1] && named[2] == rv[2] && named[3] == sv[0]
            && named[4] == sv[1]);
    }
    if receives {
        if additive_shares.len() != batch_len {
            return Err(ProtocolError::LengthMismatch);
        }
    } else if sends {
        if additive_shares.len() != 0 {
            return Err(ProtocolError::UnexpectedInput);
        }
    } else {
        return Err(ProtocolError::UnsupportedRole);
    }
    let ghost keys = threshold.keys@;
    let ghost own = own_role.index as int;
    let mut out: Vec<(Vec<RssShare<T>>, Option<Vec<T>>)> = Vec::new();
    let mut d: usize = 0;
    while d < 3
        invariant
            d <= 3,
            batch_len > 0,
            own == own_role.index,
            own_role.index < 5,
            forall|i: int| 0 <= i < 3 ==> (#[trigger] roles.receivers@[i]).index < 5,
            receives == roles.receivers@.contains(own_role),
            receives ==> additive_shares@.len() == batch_len,
            threshold.wf(),
            threshold.own_role == own_role,
            threshold.keys@ == keys_after_receivers::<T>(
                keys,
                own,
                *roles,
                batch_len as nat,
                d as nat,
            ),
            out@.len() == d,
            forall|e: int|
                0 <= e < d ==> dealing_of(
                    own_role,
                    keys_after_receivers::<T>(keys, own, *roles, batch_len as nat, e as nat),
                    roles.receivers@[e],
                    additive_shares@,
                    batch_len as nat,
                    (#[trigger] out@[e]).0@,
                    out@[e].1,
                ),
        decreases 3 - d,
    {
        let dealer: Role = roles.receivers[d];
        let mut given: Option<Vec<T>> = None;
        if dealer == own_role {
            assert(roles.receivers@[d as int] == own_role);
            let mut copy: Vec<T> = Vec::new();
            let mut k: usize = 0;
            while k < additive_shares.len()
                invariant
                    k <= additive_shares@.len(),
                    copy@.len() == k,
                    forall|j: int| 0 <= j < k ==> #[trigger] copy@[j] == additive_shares@[j],
                decreases additive_shares@.len() - k,
            {
                copy.push(additive_shares[k]);
                k += 1;
            }
            assert(copy@ =~= additive_shares@);
            given = Some(copy);
        }
        match dealer_rss5_batch(own_role, threshold, dealer, batch_len, given, ShareType::Boolean) {
            Ok(dealt) => {
                out.push(dealt);
            },
            Err(_) => {
                assert(false);
            },
        }
        d += 1;
    }
    Ok(out)
}

impl RssShare<u64> {
    /// The exclusive or of two shares, component by component.
    pub open spec fn xor_spec(self, other: RssShare<u64>) -> RssShare<u64> {
        RssShare { slots: self.share5().xor_spec(other.share5()).c }
    }

    /// The exclusive or of two shares.
    pub fn xor(self, other: RssShare<u64>) -> (r: RssShare<u64>)
        ensures
            r == self.xor_spec(other),
            forall|i: int|
                0 <= i < 6 ==> #[trigger] r.slots@[i] == self.slots@[i].bxor(other.slots@[i]),
    {
        let a = Share5 { c: self.slots };
        let b = Share5 { c: other.slots };
        RssShare { slots: a.xor(b).c }
    }
}

/// First half of the bitwise and of two batches of shared words: every party computes the products
/// that are assigned to it and deals them. An empty batch needs no round.
pub fn and_many(
    own_role: Role,
    threshold: &mut ThresholdPrfKeys,
    lhs: &[RssShare<u64>],
    rhs: &[RssShare<u64>],
) -> (r: Result<Option<(Vec<Vec<RssShare<u64>>>, Vec<u64>)>, ProtocolError>)
    requires
        old(threshold).wf(),
    ensures
        final(threshold).wf(),
        if lhs@.len() != rhs@.len() {
            &&& r == Err::<Option<(Vec<Vec<RssShare<u64>>>, Vec<u64>)>, ProtocolError>(
                ProtocolError::LengthMismatch,
            )
            &&& *final(threshold) == *old(threshold)
        } else if lhs@.len() == 0 {
            &&& r == Ok::<Option<(Vec<Vec<RssShare<u64>>>, Vec<u64>)>, ProtocolError>(None)
            &&& *final(threshold) == *old(threshold)
        } else if own_role.index >= 5 {
            &&& r == Err::<Option<(Vec<Vec<RssShare<u64>>>, Vec<u64>)>, ProtocolError>(
                ProtocolError::UnsupportedRole,
            )
            &&& *final(threshold) == *old(threshold)
        } else if old(threshold).own_role != own_role {
            &&& r == Err::<Option<(Vec<Vec<RssShare<u64>>>, Vec<u64>)>, ProtocolError>(
                ProtocolError::WrongKeySet,
            )
            &&& *final(threshold) == *old(threshold)
        } else {
            let own = own_role.index as int;
            &&& r is Ok
            &&& r->Ok_0 is Some
            &&& final(threshold).own_role == own_role
            &&& final(threshold).keys@ == keys_after_dealers(
                old(threshold).keys@,
                own,
                lhs@.len(),
                5,
            )
            &&& all_dealt(
                old(threshold).keys@,
                own,
                local_products(own, lhs@, rhs@),
                (r->Ok_0->0).0@,
                (r->Ok_0->0).1@,
            )
        },
{
    if lhs.len() != rhs.len() {
        return Err(ProtocolError::LengthMismatch);
    }
    if lhs.len() == 0 {
        return Ok(None);
    }
    if own_role.index >= 5 {
        return Err(ProtocolError::UnsupportedRole);
    }
    if threshold.own_role() != own_role {
        return Err(ProtocolError::WrongKeySet);
    }
    let topo = Topology::new(own_role.index);
    let mut local: Vec<u64> = Vec::new();
    let mut k: usize = 0;
    while k < lhs.len()
        invariant
            k <= lhs@.len(),
            lhs@.len() == rhs@.len(),
            topo.wf(),
            topo.party == own_role.index,
            own_role.index < 5,
            local@.len() == k,
            forall|j: int|
                0 <= j < k ==> #[trigger] local@[j] == and_sum(
                    assigned(own_role.index as int, 100),
                    lhs@[j].share5(),
                    rhs@[j].share5(),
                ),
        decreases lhs@.len() - k,
    {
        let (x, y) = (Share5 { c: lhs[k].slots }, Share5 { c: rhs[k].slots });
        local.push(and_local(&topo, &x, &y));
        k += 1;
    }
    assert(local@ =~= local_products(own_role.index as int, lhs@, rhs@));
    Ok(Some(deal_all(own_role, threshold, local)))
}

/// The products of a party.
pub open spec fn local_products(
    own: int,
    lhs: Seq<RssShare<u64>>,
    rhs: Seq<RssShare<u64>>,
) -> Seq<u64> {
    Seq::new(
        lhs.len(),
        |k: int| and_sum(assigned(own, 100), lhs[k].share5(), rhs[k].share5()),
    )
}

/// The share that five contributions combine to.
pub open spec fn joined5(a: Seq<RssShare<u64>>) -> RssShare<u64> {
    a[0].xor_spec(a[1]).xor_spec(a[2]).xor_spec(a[3]).xor_spec(a[4])
}

/// Last step of the bitwise and: combines the batches of the five dealers.
pub fn join_batches(batches: &[Vec<RssShare<u64>>], n: usize) -> (r: Vec<RssShare<u64>>)
    requires
        batches@.len() == 5,
        forall|d: int| 0 <= d < 5 ==> (#[trigger] batches@[d])@.len() == n,
    ensures
        r@ == Seq::new(n as nat, |k: int| joined5(Seq::new(5, |d: int| batches@[d]@[k]))),
        r@.len() == n,
        forall|k: int|
            0 <= k < n ==> #[trigger] r@[k] == batches@[0]@[k].xor_spec(batches@[1]@[k]).xor_spec(
                batches@[2]@[k],
            ).xor_spec(batches@[3]@[k]).xor_spec(batches@[4]@[k]),
{
    let mut out: Vec<RssShare<u64>> = Vec::new();
    let mut k: usize = 0;
    while k < n
        invariant
            k <= n,
            batches@.len() == 5,
            forall|d: int| 0 <= d < 5 ==> (#[trigger] batches@[d])@.len() == n,
            out@.len() == k,
            forall|j: int|
                0 <= j < k ==> #[trigger] out@[j] == joined5(
                    Seq::new(5, |d: int| batches@[d]@[j]),
                ),
        decreases n - k,
    {
        let two: RssShare<u64> = batches[0][k].xor(batches[1][k]);
        let four: RssShare<u64> = two.xor(batches[2][k]).xor(batches[3][k]);
        out.push(four.xor(batches[4][k]));
        k += 1;
    }
    assert(out@ =~= Seq::new(n as nat, |j: int| joined5(Seq::new(5, |d: int| batches@[d]@[j]))));
    out
}

/// The dealt products combine to shares of the bitwise and.
///
/// `dealt[d]` holds the shares of all parties of what party `d` dealt.
pub proof fn lemma_and_many5_correct(
    x: Seq<RssShare<u64>>,
    y: Seq<RssShare<u64>>,
    dealt: Seq<Seq<RssShare<u64>>>,
)
    requires
        x.len() == 5,
        y.len() == 5,
        consistent5(shares5(x)),
        consistent5(shares5(y)),
        dealt.len() == 5,
        forall|d: int|
            0 <= d < 5 ==> (#[trigger] dealt[d]).len() == 5 && consistent5(shares5(dealt[d]))
                && rss_value(ShareType::Boolean, dealt[d]) == and_sum(
                assigned(d, 100),
                x[d].share5(),
                y[d].share5(),
            ),
    ensures
        ({
            let r = Seq::new(5, |p: int| joined5(Seq::new(5, |d: int| dealt[d][p])));
            &&& consistent5(shares5(r))
            &&& rss_value(ShareType::Boolean, r) == rss_value(ShareType::Boolean, x).band(
                rss_value(ShareType::Boolean, y),
            )
        }),
{
    let r = Seq::new(5, |p: int| joined5(Seq::new(5, |d: int| dealt[d][p])));
    let s = |d: int| shares5(dealt[d]);
    assert forall|d: int| 0 <= d < 5 implies consistent5(#[trigger] s(d)) && value5(s(d))
        == and_sum(assigned(d, 100), x[d].share5(), y[d].share5()) by {
        assert(dealt[d].len() == 5);
        lemma_all_boolean(crate::rss5::parts_of(shares5(dealt[d])), 10);
    }
    let a1 = Seq::new(5, |p: int| s(0)[p].xor_spec(s(1)[p]));
    let a2 = Seq::new(5, |p: int| a1[p].xor_spec(s(2)[p]));
    let a3 = Seq::new(5, |p: int| a2[p].xor_spec(s(3)[p]));
    let a4 = Seq::new(5, |p: int| a3[p].xor_spec(s(4)[p]));
    lemma_xor5_value(s(0), s(1));
    lemma_xor5_value(a1, s(2));
    lemma_xor5_value(a2, s(3));
    lemma_xor5_value(a3, s(4));
    assert forall|p: int| 0 <= p < 5 implies shares5(r)[p] == a4[p] by {
        assert(dealt[0].len() == 5 && dealt[1].len() == 5 && dealt[2].len() == 5 && dealt[3].len()
            == 5 && dealt[4].len() == 5);
    }
    assert(shares5(r) =~= a4);
    let (xs, ys) = (shares5(x), shares5(y));
    lemma_and_local_correct(xs, ys);
    let z = Seq::new(5, |p: int| and_sum(assigned(p, 100), xs[p], ys[p]));
    reveal_with_fuel(xor_all, 6);
    lemma_xor_zero(z[0]);
    assert(xor_all(z, 5) == z[0].bxor(z[1]).bxor(z[2]).bxor(z[3]).bxor(z[4]));
    lemma_all_boolean(crate::rss5::parts_of(a4), 10);
    lemma_all_boolean(crate::rss5::parts_of(xs), 10);
    lemma_all_boolean(crate::rss5::parts_of(ys), 10);
}

} // verus!
