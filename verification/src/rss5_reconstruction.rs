//! Putting the shares of five parties together.

use crate::dealer_5pc::{all_of, rss_value, shares5, RssShare, ShareType};
use crate::message::ProtocolError;
use crate::player::Role;
use crate::ring::IntRing2k;
use crate::rss5::{
    consistent5, holds_parts, in_set, lemma_slots, open_provider, part, parts_of, set_contains,
    slot_of, Share5,
};
use vstd::prelude::*;

verus! {

/// Some view is that of role `r`.
pub open spec fn has_role<T>(shares: Seq<(Role, Vec<RssShare<T>>)>, r: int) -> bool {
    exists|i: int| 0 <= i < shares.len() && (#[trigger] shares[i]).0.index == r
}

/// There is exactly one view for each of the five roles.
pub open spec fn roles_complete<T>(shares: Seq<(Role, Vec<RssShare<T>>)>) -> bool {
    &&& shares.len() == 5
    &&& forall|r: int| 0 <= r < 5 ==> #[trigger] has_role(shares, r)
}

/// The place of the view of role `r`.
pub open spec fn place_of<T>(shares: Seq<(Role, Vec<RssShare<T>>)>, r: int) -> int {
    choose|i: int| 0 <= i < shares.len() && (#[trigger] shares[i]).0.index == r
}

/// Entry `k` of all views, in the order of the roles.
pub open spec fn entry<T>(shares: Seq<(Role, Vec<RssShare<T>>)>, k: int) -> Seq<RssShare<T>> {
    Seq::new(5, |r: int| shares[place_of(shares, r)].1@[k])
}

/// Where role `r` stands among the views.
fn find_role<T>(shares: &[(Role, Vec<RssShare<T>>)], r: usize) -> (at: Option<usize>)
    ensures
        match at {
            Some(i) => i < shares@.len() && shares@[i as int].0.index == r,
            None => !has_role(shares@, r as int),
        },
{
    let mut i: usize = 0;
    while i < shares.len()
        invariant
            i <= shares@.len(),
            forall|j: int| 0 <= j < i ==> (#[trigger] shares@[j]).0.index != r,
        decreases shares@.len() - i,
    {
        if shares[i].0.index == r {
            return Some(i);
        }
        i += 1;
    }
    None
}

/// Checks that there is exactly one view for each of the five roles.
pub fn validate_reconstruction_roles<T>(shares: &[(Role, Vec<RssShare<T>>)]) -> (r: Result<
    (),
    ProtocolError,
>)
    ensures
        r == (if roles_complete(shares@) {
            Ok::<(), ProtocolError>(())
        } else {
            Err::<(), ProtocolError>(ProtocolError::InvalidRoles)
        }),
        (r is Ok) == (shares@.len() == 5 && (exists|i: int|
            0 <= i < 5 && (#[trigger] shares@[i]).0.index == 0) && (exists|i: int|
            0 <= i < 5 && (#[trigger] shares@[i]).0.index == 1) && (exists|i: int|
            0 <= i < 5 && (#[trigger] shares@[i]).0.index == 2) && (exists|i: int|
            0 <= i < 5 && (#[trigger] shares@[i]).0.index == 3) && (exists|i: int|
            0 <= i < 5 && (#[trigger] shares@[i]).0.index == 4)),
{
    if shares.len() != 5 {
        return Err(ProtocolError::InvalidRoles);
    }
    let mut i: usize = 0;
    while i < 5
        invariant
            i <= 5,
            shares@.len() == 5,
            forall|r: int| 0 <= r < i ==> #[trigger] has_role(shares@, r),
        decreases 5 - i,
    {
        match find_role(shares, i) {
            Some(at) => {
                assert(has_role(shares@, i as int));
            },
            None => {
                assert(i == 0 || i == 1 || i == 2 || i == 3 || i == 4);
                return Err(ProtocolError::InvalidRoles);
            },
        }
        i += 1;
    }
    assert(has_role(shares@, 0) && has_role(shares@, 1) && has_role(shares@, 2) && has_role(
        shares@,
        3,
    ) && has_role(shares@, 4));
    Ok(())
}

/// With five views for five roles, the place of every role is unique.
pub proof fn lemma_place_unique<T>(shares: Seq<(Role, Vec<RssShare<T>>)>, r: int, at: int)
    requires
        roles_complete(shares),
        0 <= r < 5,
        0 <= at < 5,
        shares[at].0.index == r,
    ensures
        place_of(shares, r) == at,
{
    assert(has_role(shares, 0) && has_role(shares, 1) && has_role(shares, 2) && has_role(shares, 3)
        && has_role(shares, 4));
    let a = choose|i: int| 0 <= i < shares.len() && (#[trigger] shares[i]).0.index == 0;
    let b = choose|i: int| 0 <= i < shares.len() && (#[trigger] shares[i]).0.index == 1;
    let c = choose|i: int| 0 <= i < shares.len() && (#[trigger] shares[i]).0.index == 2;
    let d = choose|i: int| 0 <= i < shares.len() && (#[trigger] shares[i]).0.index == 3;
    let e = choose|i: int| 0 <= i < shares.len() && (#[trigger] shares[i]).0.index == 4;
    assert(at == a || at == b || at == c || at == d || at == e);
}

/// The first complaint about the lengths of the views, in order.
pub open spec fn length_error<T>(
    shares: Seq<(Role, Vec<RssShare<T>>)>,
    n: nat,
) -> Option<ProtocolError>
    decreases n,
{
    if n == 0 {
        None
    } else {
        match length_error(shares, (n - 1) as nat) {
            Some(e) => Some(e),
            None => if shares[n - 1].1@.len() == 0 {
                Some(ProtocolError::EmptyInput)
            } else if shares[n - 1].1@.len() != shares[0].1@.len() {
                Some(ProtocolError::LengthMismatch)
            } else {
                None
            },
        }
    }
}

/// Why views cannot be put together.
pub open spec fn reconstruction_error<T: IntRing2k>(
    shares: Seq<(Role, Vec<RssShare<T>>)>,
) -> Option<ProtocolError> {
    if shares.len() == 0 {
        Some(ProtocolError::EmptyInput)
    } else if !roles_complete(shares) {
        Some(ProtocolError::InvalidRoles)
    } else {
        match length_error(shares, 5) {
            Some(e) => Some(e),
            None => if forall|k: int|
                0 <= k < shares[0].1@.len() ==> consistent5(shares5(#[trigger] entry(shares, k))) {
                None
            } else {
                Some(ProtocolError::InconsistentShares)
            },
        }
    }
}

proof fn lemma_length_error_stays<T>(
    shares: Seq<(Role, Vec<RssShare<T>>)>,
    m: nat,
    n: nat,
    e: ProtocolError,
)
    requires
        m <= n,
        length_error(shares, m) == Some(e),
    ensures
        length_error(shares, n) == Some(e),
    decreases n,
{
    if m < n {
        lemma_length_error_stays(shares, m, (n - 1) as nat, e);
    }
}

proof fn lemma_lengths_agree<T>(shares: Seq<(Role, Vec<RssShare<T>>)>, n: nat)
    requires
        length_error(shares, n) is None,
    ensures
        forall|i: int|
            0 <= i < n ==> (#[trigger] shares[i]).1@.len() == shares[0].1@.len(),
    decreases n,
{
    if n > 0 {
        lemma_lengths_agree(shares, (n - 1) as nat);
    }
}

/// Where a party keeps a component.
fn slot_at(p: usize, t: usize) -> (r: usize)
    requires
        p < 5,
        t < 10,
        !in_set(t as int, p as int),
    ensures
        r == slot_of(p as int, t as int),
        r < 6,
{
    let mut slot: usize = 0;
    let mut u: usize = 0;
    while u < t
        invariant
            u <= t < 10,
            slot <= u,
            slot == slot_of(p as int, u as int),
        decreases t - u,
    {
        if !set_contains(u, p) {
            slot += 1;
        }
        u += 1;
    }
    proof {
        lemma_slots(p as int, t as nat);
    }
    slot
}

/// The holders of the first `t` components agree on entry `k`.
spec fn agree_below<T: IntRing2k>(shares: Seq<Share5<T>>, t: int) -> bool {
    forall|p: int, u: int|
        0 <= p < 5 && 0 <= u < t && !in_set(u, p) ==> #[trigger] part(p, shares[p], u)
            == parts_of(shares)[u]
}

/// Checks all five views of a batch and puts the values together, in order.
pub fn rss5_reconstruction<T: IntRing2k>(
    shares: &[(Role, Vec<RssShare<T>>)],
    share_type: ShareType,
) -> (r: Result<Vec<T>, ProtocolError>)
    ensures
        match reconstruction_error(shares@) {
            Some(e) => r == Err::<Vec<T>, ProtocolError>(e),
            None => {
                &&& r is Ok
                &&& r->Ok_0@ == Seq::new(
                    shares@[0].1@.len(),
                    |k: int| rss_value(share_type, entry(shares@, k)),
                )
            },
        },
        shares@.len() == 0 ==> r == Err::<Vec<T>, ProtocolError>(ProtocolError::EmptyInput),
        shares@.len() > 0 && !roles_complete(shares@) ==> r == Err::<Vec<T>, ProtocolError>(
            ProtocolError::InvalidRoles,
        ),
        roles_complete(shares@) ==> (r is Ok) == ((forall|i: int|
            0 <= i < 5 ==> (#[trigger] shares@[i]).1@.len() > 0 && shares@[i].1@.len()
                == shares@[0].1@.len()) && forall|k: int|
            0 <= k < shares@[0].1@.len() ==> consistent5(shares5(#[trigger] entry(shares@, k)))),
        r is Ok ==> r->Ok_0@.len() == shares@[0].1@.len() && forall|k: int|
            0 <= k < r->Ok_0@.len() ==> #[trigger] r->Ok_0@[k] == all_of(
                share_type,
                parts_of(shares5(entry(shares@, k))),
                10,
            ),
{
    if shares.len() == 0 {
        return Err(ProtocolError::EmptyInput);
    }
    match validate_reconstruction_roles(shares) {
        Ok(_) => {},
        Err(e) => {
            return Err(e);
        },
    }
    let len: usize = shares[0].1.len();
    let mut i: usize = 0;
    while i < 5
        invariant
            i <= 5,
            shares@.len() == 5,
            roles_complete(shares@),
            len == shares@[0].1@.len(),
            length_error(shares@, i as nat) is None,
        decreases 5 - i,
    {
        if shares[i].1.len() == 0 {
            proof {
                lemma_length_error_stays(
                    shares@,
                    (i + 1) as nat,
                    5,
                    ProtocolError::EmptyInput,
                );
            }
            return Err(ProtocolError::EmptyInput);
        }
        if shares[i].1.len() != len {
            proof {
                lemma_length_error_stays(
                    shares@,
                    (i + 1) as nat,
                    5,
                    ProtocolError::LengthMismatch,
                );
            }
            return Err(ProtocolError::LengthMismatch);
        }
        i += 1;
    }
    proof {
        lemma_lengths_agree(shares@, 5);
    }
    let mut at: Vec<usize> = Vec::new();
    let mut r: usize = 0;
    while r < 5
        invariant
            r <= 5,
            roles_complete(shares@),
            at@.len() == r,
            forall|q: int|
                0 <= q < r ==> #[trigger] at@[q] < 5 && at@[q] == place_of(shares@, q),
        decreases 5 - r,
    {
        assert(has_role(shares@, r as int));
        match find_role(shares, r) {
            Some(place) => {
                proof {
                    lemma_place_unique(shares@, r as int, place as int);
                }
                at.push(place);
            },
            None => {
                return Err(ProtocolError::InvalidRoles);
            },
        }
        r += 1;
    }
    let mut secrets: Vec<T> = Vec::new();
    let mut k: usize = 0;
    while k < len
        invariant
            k <= len,
            len == shares@[0].1@.len(),
            roles_complete(shares@),
            length_error(shares@, 5) is None,
            forall|j: int| 0 <= j < 5 ==> (#[trigger] shares@[j]).1@.len() == len,
            at@.len() == 5,
            forall|q: int|
                0 <= q < 5 ==> #[trigger] at@[q] < 5 && at@[q] == place_of(shares@, q),
            secrets@.len() == k,
            forall|j: int|
                0 <= j < k ==> #[trigger] secrets@[j] == rss_value(
                    share_type,
                    entry(shares@, j),
                ),
            forall|j: int| 0 <= j < k ==> consistent5(shares5(#[trigger] entry(shares@, j))),
        decreases len - k,
    {
        let ghost five = shares5(entry(shares@, k as int));
        let mut acc: T = T::from_bit(false);
        let mut t: usize = 0;
        while t < 10
            invariant
                t <= 10,
                k < len,
                len == shares@[0].1@.len(),
                roles_complete(shares@),
                length_error(shares@, 5) is None,
                forall|j: int| 0 <= j < 5 ==> (#[trigger] shares@[j]).1@.len() == len,
                at@.len() == 5,
                forall|q: int|
                    0 <= q < 5 ==> #[trigger] at@[q] < 5 && at@[q] == place_of(shares@, q),
                five == shares5(entry(shares@, k as int)),
                five.len() == 5,
                acc == all_of(share_type, parts_of(five), t as nat),
                agree_below(five, t as int),
            decreases 10 - t,
        {
            let first: usize = open_provider(t);
            assert(at@[first as int] < 5);
            assert(five[first as int] == shares@[at@[first as int] as int].1@[k as int].share5());
            let value: T = shares[at[first]].1[k].slots[slot_at(first, t)];
            assert(value == parts_of(five)[t as int]);
            let mut p: usize = 0;
            while p < 5
                invariant
                    p <= 5,
                    t < 10,
                    k < len,
                    len == shares@[0].1@.len(),
                    roles_complete(shares@),
                    length_error(shares@, 5) is None,
                    forall|j: int| 0 <= j < 5 ==> (#[trigger] shares@[j]).1@.len() == len,
                    at@.len() == 5,
                    forall|q: int|
                        0 <= q < 5 ==> #[trigger] at@[q] < 5 && at@[q] == place_of(shares@, q),
                    five == shares5(entry(shares@, k as int)),
                    five.len() == 5,
                    value == parts_of(five)[t as int],
                    forall|q: int|
                        0 <= q < p && !in_set(t as int, q) ==> #[trigger] part(
                            q,
                            five[q],
                            t as int,
                        ) == value,
                decreases 5 - p,
            {
                if !set_contains(t, p) {
                    assert(at@[p as int] < 5);
                    assert(five[p as int] == shares@[at@[p as int] as int].1@[k as int].share5());
                    let other: T = shares[at[p]].1[k].slots[slot_at(p, t)];
                    assert(other == part(p as int, five[p as int], t as int));
                    if !other.same(value) {
                        proof {
                            assert(!holds_parts(p as int, five[p as int], parts_of(five)));
                            assert(!consistent5(shares5(entry(shares@, k as int))));
                        }
                        return Err(ProtocolError::InconsistentShares);
                    }
                }
                p += 1;
            }
            acc = share_type.combine(acc, value);
            t += 1;
        }
        proof {
            assert forall|p: int| 0 <= p < 5 implies holds_parts(
                p,
                #[trigger] five[p],
                parts_of(five),
            ) by {
                assert forall|u: int| 0 <= u < 10 && !in_set(u, p) implies part(p, five[p], u)
                    == #[trigger] parts_of(five)[u] by {
                }
            }
            assert(consistent5(five));
        }
        secrets.push(acc);
        k += 1;
    }
    assert(secrets@ =~= Seq::new(
        shares@[0].1@.len(),
        |j: int| rss_value(share_type, entry(shares@, j)),
    ));
    Ok(secrets)
}

} // verus!
