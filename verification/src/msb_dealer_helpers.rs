//! Exchanges with a dealer.
//!
//! Roles 0 and 1 hold additive shares; role 2 deals. Each exchange is a step that says what a
//! role sends or waits for, and a step that takes what was received.

use crate::message::{
    elements_of, into_vec, pack, packed, unpack, unpacked, NetworkValue, ProtocolError, Wire,
};
use crate::player::Role;
use crate::primefield::PrimeElement;
use crate::ring::{bit_int, IntRing2k};
use crate::ring_lemmas::lemma_absorb;
use vstd::arithmetic::div_mod::*;
use vstd::prelude::*;

verus! {

/// A seed of a pseudo-random function.
pub type PrfSeed = [u8; 16];

/// What a role does in one round.
#[derive(Debug)]
pub enum Exchange {
    /// Send a message to the previous party.
    SendPrev(NetworkValue),
    /// Send a message to the next party.
    SendNext(NetworkValue),
    /// Send a message to each of the other parties.
    SendBoth { next: NetworkValue, prev: NetworkValue },
    /// Wait for a message of the previous party.
    ReceivePrev,
    /// Wait for a message of the next party.
    ReceiveNext,
    /// Wait for a message of each of the other parties.
    ReceiveBoth,
}

/// The bytewise exclusive or of two seeds.
pub open spec fn xor_seeds(a: Seq<u8>, b: Seq<u8>) -> Seq<u8> {
    Seq::new(16, |i: int| a[i] ^ b[i])
}

/// The bytewise exclusive or of two seeds.
pub fn combine_seeds(a: &PrfSeed, b: &PrfSeed) -> (r: PrfSeed)
    ensures
        r@ == xor_seeds(a@, b@),
        forall|i: int| 0 <= i < 16 ==> #[trigger] r@[i] == a@[i] ^ b@[i],
{
    let mut out: PrfSeed = [0; 16];
    let mut i: usize = 0;
    while i < 16
        invariant
            i <= 16,
            forall|j: int| 0 <= j < i ==> out@[j] == a@[j] ^ b@[j],
        decreases 16 - i,
    {
        out[i] = a[i] ^ b[i];
        i += 1;
    }
    assert(out@ =~= xor_seeds(a@, b@));
    out
}

/// The first half of setting up a seed that roles 0 and 1 share: role 0 sends its own seed to
/// the next party, role 1 to the previous one.
pub fn shared_seed_exchange(own_role: Role, my_seed: PrfSeed) -> (r: Result<
    Exchange,
    ProtocolError,
>)
    ensures
        r == match own_role.index {
            0 => Ok::<Exchange, ProtocolError>(Exchange::SendNext(NetworkValue::PrfKey(my_seed))),
            1 => Ok(Exchange::SendPrev(NetworkValue::PrfKey(my_seed))),
            _ => Err(ProtocolError::UnsupportedRole),
        },
{
    match own_role.index {
        0 => Ok(Exchange::SendNext(NetworkValue::PrfKey(my_seed))),
        1 => Ok(Exchange::SendPrev(NetworkValue::PrfKey(my_seed))),
        _ => Err(ProtocolError::UnsupportedRole),
    }
}

/// The second half of setting up a seed that roles 0 and 1 share: the seed of the other role is
/// combined with the own one.
pub fn setup_shared_seed_dealer_model(
    own_role: Role,
    my_seed: &PrfSeed,
    reply: &NetworkValue,
) -> (r: Result<PrfSeed, ProtocolError>)
    ensures
        own_role.index > 1 ==> r == Err::<PrfSeed, ProtocolError>(ProtocolError::UnsupportedRole),
        own_role.index <= 1 ==> match *reply {
            NetworkValue::PrfKey(other) => {
                &&& r is Ok
                &&& r->Ok_0@ == xor_seeds(my_seed@, other@)
                &&& forall|i: int| 0 <= i < 16 ==> #[trigger] r->Ok_0@[i] == my_seed@[i] ^ other@[i]
            },
            _ => r == Err::<PrfSeed, ProtocolError>(ProtocolError::WrongValueType),
        },
{
    if own_role.index > 1 {
        return Err(ProtocolError::UnsupportedRole);
    }
    match reply {
        NetworkValue::PrfKey(other) => Ok(combine_seeds(my_seed, other)),
        _ => Err(ProtocolError::WrongValueType),
    }
}

/// The shared seed is as random as the own one, whatever the other seed is: combining the result with
/// the other seed again gives the own seed back, so different own seeds give different results. A
/// seed of zeros changes nothing.
pub proof fn lemma_seeds_combine(own: Seq<u8>, other: Seq<u8>, third: Seq<u8>)
    requires
        own.len() == 16,
        other.len() == 16,
        third.len() == 16,
    ensures
        xor_seeds(own, other).len() == 16,
        xor_seeds(xor_seeds(own, other), other) == own,
        xor_seeds(own, Seq::new(16, |i: int| 0u8)) == own,
        xor_seeds(own, own) == Seq::new(16, |i: int| 0u8),
        xor_seeds(own, other) == xor_seeds(other, own),
        xor_seeds(xor_seeds(own, other), third) == xor_seeds(own, xor_seeds(other, third)),
        forall|i: int|
            0 <= i < 16 ==> #[trigger] xor_seeds(own, other)[i] == own[i] ^ other[i],
{
    let (x, nil) = (xor_seeds(own, other), Seq::new(16, |i: int| 0u8));
    assert forall|i: int| 0 <= i < 16 implies {
        &&& #[trigger] xor_seeds(x, other)[i] == own[i]
        &&& xor_seeds(own, nil)[i] == own[i]
        &&& xor_seeds(own, own)[i] == 0
        &&& x[i] == xor_seeds(other, own)[i]
        &&& xor_seeds(x, third)[i] == xor_seeds(own, xor_seeds(other, third))[i]
    } by {
        let (a, b, c) = (own[i], other[i], third[i]);
        assert((a ^ b) ^ b == a && a ^ 0 == a && a ^ a == 0 && a ^ b == b ^ a && (a ^ b) ^ c == a
            ^ (b ^ c)) by (bit_vector);
    }
    assert(xor_seeds(x, other) =~= own);
    assert forall|i: int| 0 <= i < 16 implies {
        &&& #[trigger] xor_seeds(own, nil)[i] == own[i]
    } by {
        assert(xor_seeds(x, other)[i] == own[i]);
    }
    assert(xor_seeds(own, nil) =~= own);
    assert forall|i: int| 0 <= i < 16 implies #[trigger] xor_seeds(own, own)[i] == 0 by {
        assert(xor_seeds(x, other)[i] == own[i]);
    }
    assert(xor_seeds(own, own) =~= nil);
    assert forall|i: int| 0 <= i < 16 implies #[trigger] x[i] == xor_seeds(other, own)[i] by {
        assert(xor_seeds(x, other)[i] == own[i]);
    }
    assert(x =~= xor_seeds(other, own));
    let (u, v) = (xor_seeds(x, third), xor_seeds(own, xor_seeds(other, third)));
    assert forall|i: int| 0 <= i < 16 implies #[trigger] u[i] == v[i] by {
        assert(xor_seeds(x, other)[i] == own[i]);
    }
    assert(u =~= v);
}

/// Both roles arrive at the same seed.
pub proof fn lemma_shared_seed_agrees(seed_0: Seq<u8>, seed_1: Seq<u8>)
    ensures
        xor_seeds(seed_0, seed_1) == xor_seeds(seed_1, seed_0),
{
    assert forall|i: int| 0 <= i < 16 implies xor_seeds(seed_0, seed_1)[i] == xor_seeds(
        seed_1,
        seed_0,
    )[i] by {
        let (a, b) = (seed_0[i], seed_1[i]);
        assert(a ^ b == b ^ a) by (bit_vector);
    }
    assert(xor_seeds(seed_0, seed_1) =~= xor_seeds(seed_1, seed_0));
}

/// What the three roles do when the compute roles hand a batch to the dealer.
pub open spec fn to_dealer<W: Wire>(
    own_role: Role,
    shares: Seq<W>,
    r: Result<Exchange, ProtocolError>,
) -> bool {
    match own_role.index {
        0 => r is Ok && r->Ok_0 is SendPrev && packed(shares, r->Ok_0->SendPrev_0),
        1 => r is Ok && r->Ok_0 is SendNext && packed(shares, r->Ok_0->SendNext_0),
        2 => r == Ok::<Exchange, ProtocolError>(Exchange::ReceiveBoth),
        _ => r == Err::<Exchange, ProtocolError>(ProtocolError::UnsupportedRole),
    }
}

fn hand_to_dealer<W: Wire>(own_role: Role, shares: &[W]) -> (r: Result<Exchange, ProtocolError>)
    ensures
        to_dealer(own_role, shares@, r),
        own_role.index == 0 ==> r is Ok && r->Ok_0 is SendPrev && packed(
            shares@,
            r->Ok_0->SendPrev_0,
        ),
        own_role.index == 1 ==> r is Ok && r->Ok_0 is SendNext && packed(
            shares@,
            r->Ok_0->SendNext_0,
        ),
        own_role.index == 2 ==> r == Ok::<Exchange, ProtocolError>(Exchange::ReceiveBoth),
        own_role.index > 2 ==> r == Err::<Exchange, ProtocolError>(ProtocolError::UnsupportedRole),
{
    match own_role.index {
        0 => Ok(Exchange::SendPrev(pack(shares))),
        1 => Ok(Exchange::SendNext(pack(shares))),
        2 => Ok(Exchange::ReceiveBoth),
        _ => Err(ProtocolError::UnsupportedRole),
    }
}

/// The compute roles send their bit shares to the dealer, who waits for both.
pub fn send_binary_shares_to_dealer(own_role: Role, shares: &[bool]) -> (r: Result<
    Exchange,
    ProtocolError,
>)
    ensures
        to_dealer(own_role, shares@, r),
        own_role.index == 0 ==> r is Ok && r->Ok_0 is SendPrev && packed(
            shares@,
            r->Ok_0->SendPrev_0,
        ),
        own_role.index == 1 ==> r is Ok && r->Ok_0 is SendNext && packed(
            shares@,
            r->Ok_0->SendNext_0,
        ),
        own_role.index == 2 ==> r == Ok::<Exchange, ProtocolError>(Exchange::ReceiveBoth),
        own_role.index > 2 ==> r == Err::<Exchange, ProtocolError>(ProtocolError::UnsupportedRole),
{
    hand_to_dealer(own_role, shares)
}

/// The exclusive or of two bit vectors, as long as the shorter one.
pub open spec fn xor_bits(a: Seq<bool>, b: Seq<bool>) -> Seq<bool> {
    Seq::new(
        if a.len() <= b.len() {
            a.len()
        } else {
            b.len()
        },
        |i: int| a[i] != b[i],
    )
}

/// The dealer combines the bit shares of the two compute roles.
pub fn combine_binary_shares(
    from_prev: &NetworkValue,
    from_next: &NetworkValue,
    single: bool,
) -> (r: Result<Vec<bool>, ProtocolError>)
    ensures
        match (unpacked::<bool>(*from_prev, single), unpacked::<bool>(*from_next, single)) {
            (Some(a), Some(b)) => r is Ok && r->Ok_0@ == xor_bits(a, b),
            _ => r == Err::<Vec<bool>, ProtocolError>(ProtocolError::WrongValueType),
        },
        r is Ok ==> {
            let (a, b) = (
                unpacked::<bool>(*from_prev, single)->0,
                unpacked::<bool>(*from_next, single)->0,
            );
            &&& r->Ok_0@.len() <= a.len() && r->Ok_0@.len() <= b.len()
            &&& r->Ok_0@.len() == a.len() || r->Ok_0@.len() == b.len()
            &&& forall|i: int|
                0 <= i < r->Ok_0@.len() ==> #[trigger] r->Ok_0@[i] == (a[i] != b[i])
        },
{
    let a: Vec<bool> = match unpack(from_prev, single) {
        Ok(v) => v,
        Err(e) => {
            return Err(e);
        },
    };
    let b: Vec<bool> = match unpack(from_next, single) {
        Ok(v) => v,
        Err(e) => {
            return Err(e);
        },
    };
    let mut out: Vec<bool> = Vec::new();
    let mut i: usize = 0;
    while i < a.len() && i < b.len()
        invariant
            i <= a@.len(),
            i <= b@.len(),
            out@.len() == i,
            forall|j: int| 0 <= j < i ==> out@[j] == (a@[j] != b@[j]),
        decreases a@.len() - i,
    {
        out.push(a[i] != b[i]);
        i += 1;
    }
    assert(out@ =~= xor_bits(a@, b@));
    Ok(out)
}

/// The compute roles send their field shares to the dealer, who waits for both.
pub fn send_prime16_shares_to_dealer(own_role: Role, shares: &[PrimeElement]) -> (r: Result<
    Exchange,
    ProtocolError,
>)
    ensures
        to_dealer(own_role, shares@, r),
        own_role.index == 0 ==> r is Ok && r->Ok_0 is SendPrev && packed(
            shares@,
            r->Ok_0->SendPrev_0,
        ),
        own_role.index == 1 ==> r is Ok && r->Ok_0 is SendNext && packed(
            shares@,
            r->Ok_0->SendNext_0,
        ),
        own_role.index == 2 ==> r == Ok::<Exchange, ProtocolError>(Exchange::ReceiveBoth),
        own_role.index > 2 ==> r == Err::<Exchange, ProtocolError>(ProtocolError::UnsupportedRole),
{
    hand_to_dealer(own_role, shares)
}

/// Every element is a reduced element of the field with `p` elements.
pub open spec fn all_in_field(s: Seq<PrimeElement>, p: u16) -> bool {
    forall|i: int| 0 <= i < s.len() ==> (#[trigger] s[i]).wf() && s[i].modulus == p
}

/// The sums of two vectors of field elements, as long as the shorter one.
pub open spec fn sum_primes(a: Seq<PrimeElement>, b: Seq<PrimeElement>, p: u16) -> Seq<
    PrimeElement,
> {
    Seq::new(
        if a.len() <= b.len() {
            a.len()
        } else {
            b.len()
        },
        |i: int| PrimeElement::of_int(a[i].value + b[i].value, p),
    )
}

/// Whether every element is a reduced element of the field with `modulus` elements.
pub fn check_field(values: &[PrimeElement], modulus: u16) -> (r: bool)
    requires
        modulus >= 2,
    ensures
        r == all_in_field(values@, modulus),
        r == (forall|i: int|
            0 <= i < values@.len() ==> (#[trigger] values@[i]).modulus == modulus
                && values@[i].value < modulus),
{
    let mut i: usize = 0;
    while i < values.len()
        invariant
            modulus >= 2,
            i <= values@.len(),
            forall|j: int|
                0 <= j < i ==> (#[trigger] values@[j]).wf() && values@[j].modulus == modulus,
        decreases values@.len() - i,
    {
        if values[i].modulus != modulus || values[i].value >= modulus {
            assert(!(values@[i as int].wf() && values@[i as int].modulus == modulus));
            return false;
        }
        i += 1;
    }
    true
}

/// Takes field elements out of a message, of whatever field they are.
pub fn receive_primes(msg: &NetworkValue, single: bool) -> (r: Result<
    Vec<PrimeElement>,
    ProtocolError,
>)
    ensures
        match unpacked::<PrimeElement>(*msg, single) {
            Some(batch) => r is Ok && r->Ok_0@ == batch,
            None => r == Err::<Vec<PrimeElement>, ProtocolError>(ProtocolError::WrongValueType),
        },
{
    unpack(msg, single)
}

/// Two reduced elements of one field.
pub open spec fn same_field(a: PrimeElement, b: PrimeElement) -> bool {
    a.wf() && b.wf() && a.modulus == b.modulus
}

/// Elements that stand side by side belong to one field.
pub open spec fn paired_fields(a: Seq<PrimeElement>, b: Seq<PrimeElement>) -> bool {
    forall|i: int| 0 <= i < a.len() && i < b.len() ==> same_field(#[trigger] a[i], b[i])
}

/// The sums of elements that stand side by side, each in its own field.
pub open spec fn paired_sums(a: Seq<PrimeElement>, b: Seq<PrimeElement>) -> Seq<PrimeElement> {
    Seq::new(
        if a.len() <= b.len() {
            a.len()
        } else {
            b.len()
        },
        |i: int| PrimeElement::of_int(a[i].value + b[i].value, a[i].modulus),
    )
}

/// Adds up elements that stand side by side. Fails where two of them belong to different fields.
pub fn add_primes(a: &[PrimeElement], b: &[PrimeElement]) -> (r: Result<
    Vec<PrimeElement>,
    ProtocolError,
>)
    ensures
        if paired_fields(a@, b@) {
            r is Ok && r->Ok_0@ == paired_sums(a@, b@)
        } else {
            r == Err::<Vec<PrimeElement>, ProtocolError>(ProtocolError::WrongModulus)
        },
        forall|p: u16|
            all_in_field(a@, p) && all_in_field(b@, p) ==> {
                &&& r is Ok
                &&& r->Ok_0@ == #[trigger] sum_primes(a@, b@, p)
                &&& all_in_field(r->Ok_0@, p)
            },
        (r is Ok) == (forall|i: int|
            0 <= i < a@.len() && i < b@.len() ==> (#[trigger] a@[i]).modulus >= 2 && a@[i].modulus
                == b@[i].modulus && a@[i].value < a@[i].modulus && b@[i].value < b@[i].modulus),
        r is Ok ==> {
            &&& r->Ok_0@.len() <= a@.len() && r->Ok_0@.len() <= b@.len()
            &&& r->Ok_0@.len() == a@.len() || r->Ok_0@.len() == b@.len()
            &&& forall|i: int|
                0 <= i < r->Ok_0@.len() ==> (#[trigger] r->Ok_0@[i]).modulus == a@[i].modulus
                    && r->Ok_0@[i].value == (a@[i].value + b@[i].value) % a@[i].modulus as int
        },
{
    let mut out: Vec<PrimeElement> = Vec::new();
    let mut i: usize = 0;
    while i < a.len() && i < b.len()
        invariant
            i <= a@.len(),
            i <= b@.len(),
            out@.len() == i,
            forall|j: int| 0 <= j < i ==> same_field(#[trigger] a@[j], b@[j]),
            forall|j: int| 0 <= j < i ==> (#[trigger] out@[j]).wf(),
            forall|j: int|
                0 <= j < i ==> #[trigger] out@[j] == PrimeElement::of_int(
                    a@[j].value + b@[j].value,
                    a@[j].modulus,
                ),
        decreases a@.len() - i,
    {
        let (x, y): (PrimeElement, PrimeElement) = (a[i], b[i]);
        if x.modulus != y.modulus || x.modulus < 2 || x.value >= x.modulus || y.value >= y.modulus {
            assert(!same_field(a@[i as int], b@[i as int]));
            return Err(ProtocolError::WrongModulus);
        }
        out.push(x.plus(y));
        i += 1;
    }
    assert(out@ =~= paired_sums(a@, b@));
    proof {
        assert forall|j: int| 0 <= j < a@.len() && j < b@.len() implies (#[trigger] a@[j]).modulus
            >= 2 && a@[j].modulus == b@[j].modulus && a@[j].value < a@[j].modulus && b@[j].value
            < b@[j].modulus by {
            assert(same_field(a@[j], b@[j]));
        }
        assert forall|p: u16| all_in_field(a@, p) && all_in_field(b@, p) implies out@
            == #[trigger] sum_primes(a@, b@, p) && all_in_field(out@, p) by {
            assert(out@ =~= sum_primes(a@, b@, p));
        }
    }
    Ok(out)
}

/// The dealer adds up the field shares of the two compute roles.
pub fn combine_prime16_shares(
    from_prev: &NetworkValue,
    from_next: &NetworkValue,
    single: bool,
) -> (r: Result<Vec<PrimeElement>, ProtocolError>)
    ensures
        match (
            unpacked::<PrimeElement>(*from_prev, single),
            unpacked::<PrimeElement>(*from_next, single),
        ) {
            (Some(a), Some(b)) => {
                &&& if paired_fields(a, b) {
                    r is Ok && r->Ok_0@ == paired_sums(a, b)
                } else {
                    r == Err::<Vec<PrimeElement>, ProtocolError>(ProtocolError::WrongModulus)
                }
                &&& forall|p: u16|
                    all_in_field(a, p) && all_in_field(b, p) ==> {
                        &&& r is Ok
                        &&& r->Ok_0@ == #[trigger] sum_primes(a, b, p)
                        &&& all_in_field(r->Ok_0@, p)
                    }
            },
            _ => r == Err::<Vec<PrimeElement>, ProtocolError>(ProtocolError::WrongValueType),
        },
{
    let a: Vec<PrimeElement> = match receive_primes(from_prev, single) {
        Ok(v) => v,
        Err(e) => {
            return Err(e);
        },
    };
    let b: Vec<PrimeElement> = match receive_primes(from_next, single) {
        Ok(v) => v,
        Err(e) => {
            return Err(e);
        },
    };
    add_primes(a.as_slice(), b.as_slice())
}

/// The share of a bit that the dealer gives to role 0 when role 1 gets `rand`.
pub open spec fn dealt_prime(bit: bool, rand: PrimeElement, p: u16) -> PrimeElement {
    PrimeElement::of_int(bit_int(bit) - rand.value, p)
}

/// The shares that go to role 0.
pub open spec fn dealt_primes(values: Seq<bool>, rands: Seq<PrimeElement>, p: u16) -> Seq<
    PrimeElement,
> {
    Seq::new(values.len(), |i: int| dealt_prime(values[i], rands[i], p))
}

/// What the dealer deals: the field share that is left of a bit when the random one is taken off.
pub proof fn lemma_dealt_prime_entries(
    values: Seq<bool>,
    rands: Seq<PrimeElement>,
    p: u16,
    i: int,
)
    requires
        p >= 2,
        0 <= i < values.len(),
    ensures
        dealt_primes(values, rands, p).len() == values.len(),
        dealt_primes(values, rands, p)[i].modulus == p,
        dealt_primes(values, rands, p)[i].value == (if values[i] {
            1int
        } else {
            0int
        } - rands[i].value) % p as int,
{
}

/// What the dealer deals: whether a field element is zero, masked with a random bit.
pub proof fn lemma_dealt_bit_entries(values: Seq<PrimeElement>, rands: Seq<bool>, i: int)
    requires
        0 <= i < values.len(),
    ensures
        dealt_bits(values, rands).len() == values.len(),
        dealt_bits(values, rands)[i] == ((values[i].value == 0) != rands[i]),
{
}

/// The dealer turns bits into additive shares over a prime field: role 0 gets the bit minus a
/// random element, role 1 the random element. The compute roles wait for the dealer.
pub fn bin_to_primefield16(
    own_role: Role,
    values: &[bool],
    rands: &[PrimeElement],
    modulus: u16,
) -> (r: Result<Exchange, ProtocolError>)
    requires
        own_role.index == 2 ==> {
            &&& modulus >= 2
            &&& rands@.len() == values@.len()
            &&& all_in_field(rands@, modulus)
        },
    ensures
        match own_role.index {
            0 => r == Ok::<Exchange, ProtocolError>(Exchange::ReceivePrev),
            1 => r == Ok::<Exchange, ProtocolError>(Exchange::ReceiveNext),
            2 => {
                &&& r is Ok
                &&& r->Ok_0 is SendBoth
                &&& packed(dealt_primes(values@, rands@, modulus), r->Ok_0->next)
                &&& packed(rands@, r->Ok_0->prev)
            },
            _ => r == Err::<Exchange, ProtocolError>(ProtocolError::UnsupportedRole),
        },
{
    match own_role.index {
        0 => Ok(Exchange::ReceivePrev),
        1 => Ok(Exchange::ReceiveNext),
        2 => {
            let mut shares_0: Vec<PrimeElement> = Vec::new();
            let mut i: usize = 0;
            while i < values.len()
                invariant
                    modulus >= 2,
                    rands@.len() == values@.len(),
                    all_in_field(rands@, modulus),
                    i <= values@.len(),
                    shares_0@.len() == i,
                    forall|j: int|
                        0 <= j < i ==> shares_0@[j] == dealt_prime(values@[j], rands@[j], modulus),
                decreases values@.len() - i,
            {
                let bit: u16 = if values[i] {
                    1
                } else {
                    0
                };
                let elem = PrimeElement::new(bit, modulus);
                proof {
                    lemma_small_mod(bit as nat, modulus as nat);
                }
                shares_0.push(elem.minus(rands[i]));
                i += 1;
            }
            assert(shares_0@ =~= dealt_primes(values@, rands@, modulus));
            Ok(Exchange::SendBoth { next: pack(shares_0.as_slice()), prev: pack(rands) })
        },
        _ => Err(ProtocolError::UnsupportedRole),
    }
}

/// The share of the zero test of `value` that the dealer gives to role 0 when role 1 gets `rand`.
pub open spec fn dealt_bit(value: PrimeElement, rand: bool) -> bool {
    (value.value == 0) != rand
}

/// The shares that go to role 0.
pub open spec fn dealt_bits(values: Seq<PrimeElement>, rands: Seq<bool>) -> Seq<bool> {
    Seq::new(values.len(), |i: int| dealt_bit(values[i], rands[i]))
}

/// The dealer turns field elements into shares of the bits that say which of them are zero. The
/// compute roles wait for the dealer.
pub fn primefield16_to_bin_one_hot(own_role: Role, values: &[PrimeElement], rands: &[bool]) -> (r:
    Result<Exchange, ProtocolError>)
    requires
        own_role.index == 2 ==> rands@.len() == values@.len(),
    ensures
        match own_role.index {
            0 => r == Ok::<Exchange, ProtocolError>(Exchange::ReceivePrev),
            1 => r == Ok::<Exchange, ProtocolError>(Exchange::ReceiveNext),
            2 => {
                &&& r is Ok
                &&& r->Ok_0 is SendBoth
                &&& packed(dealt_bits(values@, rands@), r->Ok_0->next)
                &&& packed(rands@, r->Ok_0->prev)
            },
            _ => r == Err::<Exchange, ProtocolError>(ProtocolError::UnsupportedRole),
        },
{
    match own_role.index {
        0 => Ok(Exchange::ReceivePrev),
        1 => Ok(Exchange::ReceiveNext),
        2 => {
            let mut shares_0: Vec<bool> = Vec::new();
            let mut i: usize = 0;
            while i < values.len()
                invariant
                    rands@.len() == values@.len(),
                    i <= values@.len(),
                    shares_0@.len() == i,
                    forall|j: int|
                        0 <= j < i ==> shares_0@[j] == dealt_bit(values@[j], rands@[j]),
                decreases values@.len() - i,
            {
                shares_0.push(values[i].is_zero() != rands[i]);
                i += 1;
            }
            assert(shares_0@ =~= dealt_bits(values@, rands@));
            Ok(Exchange::SendBoth { next: pack(shares_0.as_slice()), prev: pack(rands) })
        },
        _ => Err(ProtocolError::UnsupportedRole),
    }
}

/// Takes the bit shares out of the message of the dealer.
pub fn receive_one_hot(msg: &NetworkValue, single: bool) -> (r: Result<Vec<bool>, ProtocolError>)
    ensures
        match unpacked::<bool>(*msg, single) {
            Some(batch) => r is Ok && r->Ok_0@ == batch,
            None => r == Err::<Vec<bool>, ProtocolError>(ProtocolError::WrongValueType),
        },
{
    unpack(msg, single)
}

/// The message that every role sends to both others to open additive shares.
pub fn open_additive_share_message<T: IntRing2k + Wire>(shares: &[T]) -> (msg: NetworkValue)
    ensures
        packed(shares@, msg),
{
    pack(shares)
}

/// The sums of three vectors, as long as the shortest one.
pub open spec fn sum3<T: IntRing2k>(a: Seq<T>, b: Seq<T>, c: Seq<T>) -> Seq<T> {
    Seq::new(
        if a.len() <= b.len() && a.len() <= c.len() {
            a.len()
        } else if b.len() <= c.len() {
            b.len()
        } else {
            c.len()
        },
        |i: int| T::of_int(a[i].val() + b[i].val() + c[i].val()),
    )
}

/// All three parties open the same values: each one adds its own shares to those of the previous and
/// the next party.
pub proof fn lemma_additive_opening_agrees<T: IntRing2k>(s0: Seq<T>, s1: Seq<T>, s2: Seq<T>)
    requires
        s1.len() == s0.len(),
        s2.len() == s0.len(),
    ensures
        sum3(s1, s0, s2) == sum3(s0, s2, s1),
        sum3(s2, s1, s0) == sum3(s0, s2, s1),
{
    assert(sum3(s1, s0, s2) =~= sum3(s0, s2, s1));
    assert(sum3(s2, s1, s0) =~= sum3(s0, s2, s1));
}

/// Opens additive shares: the own shares are added to those of the other two parties.
pub fn open_additive_share<T: IntRing2k + Wire>(
    shares: &[T],
    from_prev: &NetworkValue,
    from_next: &NetworkValue,
) -> (r: Result<Vec<T>, ProtocolError>)
    ensures
        match (elements_of::<T>(*from_prev), elements_of::<T>(*from_next)) {
            (Some(b), Some(c)) => r is Ok && r->Ok_0@ == sum3(shares@, b, c),
            _ => r == Err::<Vec<T>, ProtocolError>(ProtocolError::WrongValueType),
        },
        r is Ok ==> {
            let (b, c) = (elements_of::<T>(*from_prev)->0, elements_of::<T>(*from_next)->0);
            let n = r->Ok_0@.len();
            &&& n <= shares@.len() && n <= b.len() && n <= c.len()
            &&& n == shares@.len() || n == b.len() || n == c.len()
            &&& forall|i: int|
                0 <= i < n ==> #[trigger] r->Ok_0@[i] == T::of_int(
                    shares@[i].val() + b[i].val() + c[i].val(),
                )
        },
{
    let b: Vec<T> = match into_vec(from_prev) {
        Ok(v) => v,
        Err(e) => {
            return Err(e);
        },
    };
    let c: Vec<T> = match into_vec(from_next) {
        Ok(v) => v,
        Err(e) => {
            return Err(e);
        },
    };
    let mut out: Vec<T> = Vec::new();
    let mut i: usize = 0;
    while i < shares.len() && i < b.len() && i < c.len()
        invariant
            i <= shares@.len(),
            i <= b@.len(),
            i <= c@.len(),
            out@.len() == i,
            forall|j: int|
                0 <= j < i ==> out@[j] == T::of_int(
                    #[trigger] shares@[j].val() + b@[j].val() + c@[j].val(),
                ),
        decreases shares@.len() - i,
    {
        let x = shares[i].ring_add(b[i]);
        out.push(x.ring_add(c[i]));
        proof {
            lemma_absorb::<T>(
                shares@[i as int].val() + b@[i as int].val(),
                c@[i as int].val(),
            );
        }
        i += 1;
    }
    assert(out@ =~= sum3(shares@, b@, c@));
    Ok(out)
}

/// Opens a single additive bit share.
pub fn open_additive_share_bit(share: bool, from_prev: &NetworkValue, from_next: &NetworkValue) -> (
r: Result<bool, ProtocolError>)
    ensures
        r == match (*from_prev, *from_next) {
            (NetworkValue::RingElementBit(b), NetworkValue::RingElementBit(c)) => Ok::<
                bool,
                ProtocolError,
            >((share != b) != c),
            _ => Err(ProtocolError::WrongValueType),
        },
{
    match (from_prev, from_next) {
        (NetworkValue::RingElementBit(b), NetworkValue::RingElementBit(c)) => Ok((share != *b)
            != *c),
        _ => Err(ProtocolError::WrongValueType),
    }
}

/// The two field shares of a dealt bit add up to it.
pub proof fn lemma_dealt_prime_adds_up(bit: bool, rand: PrimeElement, p: u16)
    requires
        p >= 2,
        rand.wf(),
        rand.modulus == p,
    ensures
        (dealt_prime(bit, rand, p).value + rand.value) % p as int == bit_int(bit),
{
    let d = bit_int(bit) - rand.value;
    lemma_mod_bound(d, p as int);
    lemma_add_mod_noop(d, rand.value as int, p as int);
    lemma_add_mod_noop(d % p as int, rand.value as int, p as int);
    lemma_mod_twice(d, p as int);
    lemma_small_mod(bit_int(bit) as nat, p as nat);
}

/// The two bit shares of a dealt zero test differ exactly where the element is zero.
pub proof fn lemma_dealt_bit_adds_up(value: PrimeElement, rand: bool)
    ensures
        (dealt_bit(value, rand) != rand) == (value.value == 0),
{
}

} // verus!
