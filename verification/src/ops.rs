//! Arithmetic protocols of three parties with replicated shares.

use crate::binary::{open_bin, opened_bits};
use crate::message::{
    elements_of, into_vec, lemma_pack_roundtrip, pack, packed, unpack_vec, unpacked, vec_of,
    NetworkValue,
    ProtocolError, Wire,
};
use crate::msb_dealer_helpers::{combine_seeds, open_additive_share, sum3, xor_seeds, PrfSeed};
use crate::player::Role;
use crate::prf::{blake3_hash, drawn_batch, in_step, Prf, PrfDraw, PrfRng};
use crate::ring::IntRing2k;
use crate::ring48::Ring48;
use crate::ring_lemmas::{bit, lemma_absorb, lemma_shift, lemma_small, lemma_sum3, zero};
use crate::shares::{consistent, sum_value, Share};
use vstd::arithmetic::power2::*;
use vstd::prelude::*;

verus! {

/// Number of fractional bits of a threshold.
pub const B_BITS: u64 = 16;

/// The denominator of a threshold.
pub const B: u64 = 0x1_0000;

/// What a party sends when local parts of a result are shared again: each part, masked with a
/// share of zero.
pub open spec fn reshared_parts<T: IntRing2k + PrfDraw>(prf: Prf, parts: Seq<T>) -> Seq<T> {
    let mine = drawn_batch::<T>(prf.my_prf, parts.len());
    let prev = drawn_batch::<T>(prf.prev_prf, parts.len());
    Seq::new(
        parts.len(),
        |i: int| T::of_int((mine[i].val() - prev[i].val()) + parts[i].val()),
    )
}

/// First half of a replicated multiplication: masks the local parts, which go to the next party.
pub fn reshare_products_send<T: IntRing2k + PrfDraw>(prf: &mut Prf, parts: &[T]) -> (r: Vec<T>)
    ensures
        r@ == reshared_parts(*old(prf), parts@),
        *final(prf) == old(prf).after::<T>(parts@.len() as int),
        r@.len() == parts@.len(),
        forall|i: int|
            0 <= i < r@.len() ==> #[trigger] r@[i] == T::of_int(
                T::drawn(old(prf).my_prf.advanced(i * T::words())).val() - T::drawn(
                    old(prf).prev_prf.advanced(i * T::words()),
                ).val() + parts@[i].val(),
            ),
{
    let ghost start = *prf;
    let n: usize = parts.len();
    let (mine, prev): (Vec<T>, Vec<T>) = prf.gen_rands_batch(n);
    let mut out: Vec<T> = Vec::new();
    let mut i: usize = 0;
    while i < n
        invariant
            n == parts@.len(),
            mine@ == drawn_batch::<T>(start.my_prf, n as nat),
            prev@ == drawn_batch::<T>(start.prev_prf, n as nat),
            i <= n,
            out@.len() == i,
            forall|j: int| 0 <= j < i ==> #[trigger] out@[j] == reshared_parts(start, parts@)[j],
        decreases n - i,
    {
        let nil: T = mine[i].ring_sub(prev[i]);
        out.push(nil.ring_add(parts[i]));
        proof {
            lemma_absorb::<T>(
                mine@[i as int].val() - prev@[i as int].val(),
                parts@[i as int].val(),
            );
        }
        i += 1;
    }
    assert(out@ =~= reshared_parts(start, parts@));
    out
}

/// The shares whose parts are two vectors, as many as the shorter one has.
pub open spec fn joined<T>(own: Seq<T>, received: Seq<T>) -> Seq<Share<T>> {
    Seq::new(
        if own.len() <= received.len() {
            own.len()
        } else {
            received.len()
        },
        |i: int| Share { a: own[i], b: received[i] },
    )
}

/// Second half of a replicated multiplication: joins the own parts with those of the previous
/// party.
pub fn reshare_products<T: IntRing2k>(own: &[T], received: &[T]) -> (r: Vec<Share<T>>)
    ensures
        r@ == joined(own@, received@),
        r@.len() <= own@.len() && r@.len() <= received@.len(),
        r@.len() == own@.len() || r@.len() == received@.len(),
        forall|i: int|
            0 <= i < r@.len() ==> (#[trigger] r@[i]).a == own@[i] && r@[i].b == received@[i],
{
    let mut out: Vec<Share<T>> = Vec::new();
    let mut i: usize = 0;
    while i < own.len() && i < received.len()
        invariant
            i <= own@.len(),
            i <= received@.len(),
            out@.len() == i,
            forall|j: int| 0 <= j < i ==> #[trigger] out@[j] == joined(own@, received@)[j],
        decreases own@.len() - i,
    {
        out.push(Share { a: own[i], b: received[i] });
        i += 1;
    }
    assert(out@ =~= joined(own@, received@));
    out
}

/// Sharing again is correct: the joined shares of the three parties are consistent shares of the
/// sum of their parts.
pub proof fn lemma_reshare_correct<T: IntRing2k + PrfDraw>(
    prf: (Prf, Prf, Prf),
    parts: (Seq<T>, Seq<T>, Seq<T>),
    i: int,
)
    requires
        in_step(prf.0, prf.1, prf.2),
        0 <= i < parts.0.len(),
        parts.1.len() == parts.0.len(),
        parts.2.len() == parts.0.len(),
    ensures
        ({
            let (c0, c1, c2) = (
                reshared_parts(prf.0, parts.0),
                reshared_parts(prf.1, parts.1),
                reshared_parts(prf.2, parts.2),
            );
            let (r0, r1, r2) = (joined(c0, c2)[i], joined(c1, c0)[i], joined(c2, c1)[i]);
            &&& consistent(r0, r1, r2)
            &&& sum_value(r0, r1, r2) == T::of_int(
                parts.0[i].val() + parts.1[i].val() + parts.2[i].val(),
            )
        }),
{
    let n = parts.0.len();
    let (a, b, c) = (
        drawn_batch::<T>(prf.0.my_prf, n)[i].val(),
        drawn_batch::<T>(prf.1.my_prf, n)[i].val(),
        drawn_batch::<T>(prf.2.my_prf, n)[i].val(),
    );
    lemma_sum3::<T>(
        (a - c) + parts.0[i].val(),
        (b - a) + parts.1[i].val(),
        (c - b) + parts.2[i].val(),
    );
}

/// Sets up the two streams of a party from its own seed, which it sends to the next party, and
/// the seed in the message of the previous party.
pub fn setup_replicated_prf(my_seed: &PrfSeed, from_prev: &NetworkValue) -> (r: Result<
    Prf,
    ProtocolError,
>)
    ensures
        match *from_prev {
            NetworkValue::PrfKey(seed) => {
                &&& r is Ok
                &&& PrfRng::fresh(blake3_hash(my_seed@), r->Ok_0.my_prf)
                &&& PrfRng::fresh(blake3_hash(seed@), r->Ok_0.prev_prf)
                &&& r->Ok_0.my_prf.key@ == blake3_hash(my_seed@) && r->Ok_0.my_prf.pos == 0
                &&& r->Ok_0.prev_prf.key@ == blake3_hash(seed@) && r->Ok_0.prev_prf.pos == 0
            },
            _ => r == Err::<Prf, ProtocolError>(ProtocolError::WrongValueType),
        },
{
    match from_prev {
        NetworkValue::PrfKey(seed) => Ok(Prf::new(my_seed, seed)),
        _ => Err(ProtocolError::WrongValueType),
    }
}

/// The parties are in step after the setup, when each one receives the seed of the previous one.
pub proof fn lemma_setup_in_step(p0: Prf, p1: Prf, p2: Prf, s0: Seq<u8>, s1: Seq<u8>, s2: Seq<u8>)
    requires
        PrfRng::fresh(blake3_hash(s0), p0.my_prf),
        PrfRng::fresh(blake3_hash(s2), p0.prev_prf),
        PrfRng::fresh(blake3_hash(s1), p1.my_prf),
        PrfRng::fresh(blake3_hash(s0), p1.prev_prf),
        PrfRng::fresh(blake3_hash(s2), p2.my_prf),
        PrfRng::fresh(blake3_hash(s1), p2.prev_prf),
    ensures
        in_step(p0, p1, p2),
{
    assert(p0.my_prf.key =~= p1.prev_prf.key);
    assert(p1.my_prf.key =~= p2.prev_prf.key);
    assert(p2.my_prf.key =~= p0.prev_prf.key);
}

/// Sets up a seed that all three parties share: the exclusive or of the three seeds.
pub fn setup_shared_seed(
    my_seed: &PrfSeed,
    from_prev: &NetworkValue,
    from_next: &NetworkValue,
) -> (r: Result<PrfSeed, ProtocolError>)
    ensures
        match (*from_prev, *from_next) {
            (NetworkValue::PrfKey(p), NetworkValue::PrfKey(n)) => {
                &&& r is Ok
                &&& r->Ok_0@ == xor_seeds(xor_seeds(my_seed@, p@), n@)
                &&& forall|i: int|
                    0 <= i < 16 ==> #[trigger] r->Ok_0@[i] == (my_seed@[i] ^ p@[i]) ^ n@[i]
            },
            _ => r == Err::<PrfSeed, ProtocolError>(ProtocolError::WrongValueType),
        },
{
    match (from_prev, from_next) {
        (NetworkValue::PrfKey(p), NetworkValue::PrfKey(n)) => {
            let both: PrfSeed = combine_seeds(my_seed, p);
            Ok(combine_seeds(&both, n))
        },
        _ => Err(ProtocolError::WrongValueType),
    }
}

/// All three parties arrive at the same seed.
pub proof fn lemma_shared_seed_of_three(s0: Seq<u8>, s1: Seq<u8>, s2: Seq<u8>)
    ensures
        xor_seeds(xor_seeds(s0, s2), s1) == xor_seeds(xor_seeds(s1, s0), s2),
        xor_seeds(xor_seeds(s0, s2), s1) == xor_seeds(xor_seeds(s2, s1), s0),
{
    assert forall|i: int| 0 <= i < 16 implies xor_seeds(xor_seeds(s0, s2), s1)[i] == xor_seeds(
        xor_seeds(s1, s0),
        s2,
    )[i] && xor_seeds(xor_seeds(s0, s2), s1)[i] == xor_seeds(xor_seeds(s2, s1), s0)[i] by {
        let (a, b, c) = (s0[i], s1[i], s2[i]);
        assert((a ^ c) ^ b == (b ^ a) ^ c && (a ^ c) ^ b == (c ^ b) ^ a) by (bit_vector);
    }
    assert(xor_seeds(xor_seeds(s0, s2), s1) =~= xor_seeds(xor_seeds(s1, s0), s2));
    assert(xor_seeds(xor_seeds(s0, s2), s1) =~= xor_seeds(xor_seeds(s2, s1), s0));
}

/// First half of turning additive shares into replicated ones: masks the own shares, which go to
/// the next party.
pub fn galois_ring_to_rep3_send(prf: &mut Prf, items: &[u16]) -> (r: Vec<u16>)
    ensures
        r@ == reshared_parts(*old(prf), items@),
        *final(prf) == old(prf).after::<u16>(items@.len() as int),
        r@.len() == items@.len(),
        forall|i: int|
            0 <= i < r@.len() ==> #[trigger] r@[i] == u16::of_int(
                u16::drawn(old(prf).my_prf.advanced(i * u16::words())).val() - u16::drawn(
                    old(prf).prev_prf.advanced(i * u16::words()),
                ).val() + items@[i].val(),
            ),
{
    reshare_products_send(prf, items)
}

/// Second half of turning additive shares into replicated ones, with the message of the previous
/// party, which is a vector whatever its length.
pub fn galois_ring_to_rep3(own: &[u16], from_prev: &NetworkValue) -> (r: Result<
    Vec<Share<u16>>,
    ProtocolError,
>)
    ensures
        match vec_of::<u16>(*from_prev) {
            Some(received) => r is Ok && r->Ok_0@ == joined(own@, received),
            None => r == Err::<Vec<Share<u16>>, ProtocolError>(ProtocolError::WrongValueType),
        },
        r is Ok ==> {
            let received = vec_of::<u16>(*from_prev)->0;
            &&& r->Ok_0@.len() <= own@.len() && r->Ok_0@.len() <= received.len()
            &&& r->Ok_0@.len() == own@.len() || r->Ok_0@.len() == received.len()
            &&& forall|i: int|
                0 <= i < r->Ok_0@.len() ==> (#[trigger] r->Ok_0@[i]).a == own@[i] && r->Ok_0@[i].b
                    == received[i]
        },
{
    match unpack_vec::<u16>(from_prev) {
        Ok(received) => Ok(reshare_products(own, received.as_slice())),
        Err(e) => Err(e),
    }
}

/// A public value as a share: role 0 holds it first and role 1 second.
pub open spec fn const_share<T: IntRing2k>(role: int, c: T) -> Share<T> {
    if role == 0 {
        Share { a: c, b: zero::<T>() }
    } else if role == 1 {
        Share { a: zero::<T>(), b: c }
    } else {
        Share { a: zero::<T>(), b: zero::<T>() }
    }
}

/// A public value as a share.
pub fn from_const<T: IntRing2k>(c: T, own_role: Role) -> (r: Share<T>)
    ensures
        r == const_share(own_role.index as int, c),
        r.a == if own_role.index == 0 {
            c
        } else {
            T::of_int(0)
        },
        r.b == if own_role.index == 1 {
            c
        } else {
            T::of_int(0)
        },
{
    let nil: T = T::from_bit(false);
    match own_role.index {
        0 => Share { a: c, b: nil },
        1 => Share { a: nil, b: c },
        _ => Share { a: nil, b: nil },
    }
}

/// A public value added to a share.
pub open spec fn plus_const<T: IntRing2k>(role: int, x: Share<T>, c: int) -> Share<T> {
    if role == 0 {
        Share { a: T::of_int(x.a.val() + c), b: x.b }
    } else if role == 1 {
        Share { a: x.a, b: T::of_int(x.b.val() + c) }
    } else {
        x
    }
}

/// Adds a public value to a share.
pub fn add_const<T: IntRing2k>(own_role: Role, x: Share<T>, c: T) -> (r: Share<T>)
    ensures
        r == plus_const(own_role.index as int, x, c.val()),
        r.a == if own_role.index == 0 {
            T::of_int(x.a.val() + c.val())
        } else {
            x.a
        },
        r.b == if own_role.index == 1 {
            T::of_int(x.b.val() + c.val())
        } else {
            x.b
        },
{
    match own_role.index {
        0 => Share { a: x.a.ring_add(c), b: x.b },
        1 => Share { a: x.a, b: x.b.ring_add(c) },
        _ => x,
    }
}

/// Subtracts a public value from a share in place.
pub fn sub_pub<T: IntRing2k>(own_role: Role, share: &mut Share<T>, rhs: T)
    requires
        own_role.index < 3,
    ensures
        *final(share) == plus_const(own_role.index as int, *old(share), -rhs.val()),
        final(share).a == if own_role.index == 0 {
            T::of_int(old(share).a.val() - rhs.val())
        } else {
            old(share).a
        },
        final(share).b == if own_role.index == 1 {
            T::of_int(old(share).b.val() - rhs.val())
        } else {
            old(share).b
        },
{
    let x: Share<T> = *share;
    match own_role.index {
        0 => {
            *share = Share { a: x.a.ring_sub(rhs), b: x.b };
        },
        1 => {
            *share = Share { a: x.a, b: x.b.ring_sub(rhs) };
        },
        _ => {},
    }
}

/// Adding a public value adds it to the shared value once.
pub proof fn lemma_plus_const_value<T: IntRing2k>(
    x0: Share<T>,
    x1: Share<T>,
    x2: Share<T>,
    c: int,
)
    requires
        consistent(x0, x1, x2),
    ensures
        consistent(plus_const(0, x0, c), plus_const(1, x1, c), plus_const(2, x2, c)),
        sum_value(plus_const(0, x0, c), plus_const(1, x1, c), plus_const(2, x2, c)) == T::of_int(
            sum_value(x0, x1, x2).val() + c,
        ),
{
    let s = x0.a.val() + x1.a.val() + x2.a.val();
    lemma_absorb::<T>(s, c);
    lemma_absorb::<T>(x0.a.val() + c, x1.a.val() + x2.a.val());
}

/// The share of a public value has that value.
pub proof fn lemma_const_share_value<T: IntRing2k>(c: T)
    ensures
        consistent(const_share(0, c), const_share(1, c), const_share(2, c)),
        sum_value(const_share(0, c), const_share(1, c), const_share(2, c)) == c,
{
    T::law_modulus();
    lemma_small::<T>(0);
    c.law_val();
}

/// The message of a party that opens shares: its second parts.
pub fn open_ring_message<T: IntRing2k + Wire>(shares: &[Share<T>]) -> (msg: NetworkValue)
    ensures
        packed(shares@.map_values(|s: Share<T>| s.b), msg),
{
    let mut parts: Vec<T> = Vec::new();
    let mut i: usize = 0;
    while i < shares.len()
        invariant
            i <= shares@.len(),
            parts@.len() == i,
            forall|j: int| 0 <= j < i ==> parts@[j] == shares@[j].b,
        decreases shares@.len() - i,
    {
        parts.push(shares[i].b);
        i += 1;
    }
    assert(parts@ =~= shares@.map_values(|s: Share<T>| s.b));
    pack(parts.as_slice())
}

/// The values of shares, from the own parts and the second parts of the previous party.
pub open spec fn opened<T: IntRing2k>(shares: Seq<Share<T>>, prev: Seq<T>) -> Seq<T> {
    Seq::new(
        if shares.len() <= prev.len() {
            shares.len()
        } else {
            prev.len()
        },
        |i: int| T::of_int(shares[i].a.val() + shares[i].b.val() + prev[i].val()),
    )
}

/// Opens shares with the message of the previous party.
pub fn open_ring<T: IntRing2k + Wire>(shares: &[Share<T>], from_prev: &NetworkValue) -> (r: Result<
    Vec<T>,
    ProtocolError,
>)
    ensures
        match elements_of::<T>(*from_prev) {
            Some(prev) => r is Ok && r->Ok_0@ == opened(shares@, prev),
            None => r == Err::<Vec<T>, ProtocolError>(ProtocolError::WrongValueType),
        },
        r is Ok ==> {
            let prev = elements_of::<T>(*from_prev)->0;
            &&& r->Ok_0@.len() <= shares@.len() && r->Ok_0@.len() <= prev.len()
            &&& r->Ok_0@.len() == shares@.len() || r->Ok_0@.len() == prev.len()
            &&& forall|i: int|
                0 <= i < r->Ok_0@.len() ==> #[trigger] r->Ok_0@[i] == T::of_int(
                    shares@[i].a.val() + shares@[i].b.val() + prev[i].val(),
                )
        },
{
    let prev: Vec<T> = match into_vec(from_prev) {
        Ok(v) => v,
        Err(e) => {
            return Err(e);
        },
    };
    let mut out: Vec<T> = Vec::new();
    let mut i: usize = 0;
    while i < shares.len() && i < prev.len()
        invariant
            i <= shares@.len(),
            i <= prev@.len(),
            out@.len() == i,
            forall|j: int| 0 <= j < i ==> #[trigger] out@[j] == opened(shares@, prev@)[j],
        decreases shares@.len() - i,
    {
        let s: T = shares[i].a.ring_add(shares[i].b);
        out.push(s.ring_add(prev[i]));
        proof {
            lemma_absorb::<T>(
                shares@[i as int].a.val() + shares@[i as int].b.val(),
                prev@[i as int].val(),
            );
        }
        i += 1;
    }
    assert(out@ =~= opened(shares@, prev@));
    Ok(out)
}

/// Opening gives every party the shared values: with the message of the previous party, a party
/// opens what the three parties share.
pub proof fn lemma_open_ring_correct<T: IntRing2k + Wire>(
    prev: Seq<Share<T>>,
    own: Seq<Share<T>>,
    next: Seq<Share<T>>,
    msg: NetworkValue,
)
    requires
        prev.len() == own.len(),
        next.len() == own.len(),
        forall|k: int| 0 <= k < own.len() ==> #[trigger] consistent(prev[k], own[k], next[k]),
        packed(prev.map_values(|s: Share<T>| s.b), msg),
    ensures
        elements_of::<T>(msg) is Some,
        opened(own, elements_of::<T>(msg)->0) == Seq::new(
            own.len(),
            |k: int| sum_value(prev[k], own[k], next[k]),
        ),
{
    let parts = prev.map_values(|s: Share<T>| s.b);
    lemma_pack_roundtrip(parts, msg);
    assert forall|k: int| 0 <= k < own.len() implies opened(own, parts)[k] == sum_value(
        prev[k],
        own[k],
        next[k],
    ) by {
        assert(consistent(prev[k], own[k], next[k]));
    }
    assert(opened(own, parts) =~= Seq::new(
        own.len(),
        |k: int| sum_value(prev[k], own[k], next[k]),
    ));
}

/// Opens shares that no other party holds, with the messages of both other parties.
pub fn open_ring_element_broadcast<T: IntRing2k + Wire>(
    shares: &[T],
    from_prev: &NetworkValue,
    from_next: &NetworkValue,
) -> (r: Result<Vec<T>, ProtocolError>)
    ensures
        match (elements_of::<T>(*from_prev), elements_of::<T>(*from_next)) {
            (Some(b), Some(c)) => r is Ok && r->Ok_0@ == sum3(shares@, b, c),
            _ => r == Err::<Vec<T>, ProtocolError>(ProtocolError::WrongValueType),
        },
{
    open_additive_share(shares, from_prev, from_next)
}

/// Whether each value is below zero: opens the shares of the most significant bits with the
/// message of the previous party.
pub fn lt_zero_and_open_u16(msb_shares: &[Share<bool>], from_prev: &NetworkValue) -> (r: Result<
    Vec<bool>,
    ProtocolError,
>)
    ensures
        match unpacked::<bool>(*from_prev, msb_shares@.len() == 1) {
            Some(prev) => r is Ok && r->Ok_0@ == opened_bits(msb_shares@, prev),
            None => r == Err::<Vec<bool>, ProtocolError>(ProtocolError::WrongValueType),
        },
        r is Ok ==> {
            let prev = unpacked::<bool>(*from_prev, msb_shares@.len() == 1)->0;
            &&& r->Ok_0@.len() <= msb_shares@.len() && r->Ok_0@.len() <= prev.len()
            &&& r->Ok_0@.len() == msb_shares@.len() || r->Ok_0@.len() == prev.len()
            &&& forall|i: int|
                0 <= i < r->Ok_0@.len() ==> #[trigger] r->Ok_0@[i] == ((msb_shares@[i].a
                    != msb_shares@[i].b) != prev[i])
        },
{
    open_bin(msb_shares, from_prev)
}

/// Whether each value is at least zero: opens the shares of the most significant bits with the
/// message of the previous party and negates them.
pub fn gte_zero_and_open_u16(msb_shares: &[Share<bool>], from_prev: &NetworkValue) -> (r: Result<
    Vec<bool>,
    ProtocolError,
>)
    ensures
        match unpacked::<bool>(*from_prev, msb_shares@.len() == 1) {
            Some(prev) => r is Ok && r->Ok_0@ == opened_bits(msb_shares@, prev).map_values(
                |b: bool| !b,
            ),
            None => r == Err::<Vec<bool>, ProtocolError>(ProtocolError::WrongValueType),
        },
        r is Ok ==> {
            let prev = unpacked::<bool>(*from_prev, msb_shares@.len() == 1)->0;
            &&& r->Ok_0@.len() <= msb_shares@.len() && r->Ok_0@.len() <= prev.len()
            &&& r->Ok_0@.len() == msb_shares@.len() || r->Ok_0@.len() == prev.len()
            &&& forall|i: int|
                0 <= i < r->Ok_0@.len() ==> #[trigger] r->Ok_0@[i] == !((msb_shares@[i].a
                    != msb_shares@[i].b) != prev[i])
        },
{
    let bits: Vec<bool> = match open_bin(msb_shares, from_prev) {
        Ok(v) => v,
        Err(e) => {
            return Err(e);
        },
    };
    let mut out: Vec<bool> = Vec::new();
    let mut i: usize = 0;
    while i < bits.len()
        invariant
            i <= bits@.len(),
            out@.len() == i,
            forall|j: int| 0 <= j < i ==> out@[j] == !bits@[j],
        decreases bits@.len() - i,
    {
        out.push(!bits[i]);
        i += 1;
    }
    assert(out@ =~= bits@.map_values(|b: bool| !b));
    Ok(out)
}

/// The signed number that a 16-bit value stands for.
pub open spec fn signed16(v: int) -> int {
    if v >= 0x8000 {
        v - 0x1_0000
    } else {
        v
    }
}

/// The most significant bit of a 16-bit value tells whether the signed number is below zero.
pub proof fn lemma_msb_is_sign(v: u16)
    ensures
        bit(v, 15) == (signed16(v as int) < 0),
{
    lemma2_to64();
}

/// First step of a signed lift: makes all values non-negative.
pub fn batch_signed_lift_offset(own_role: Role, shares: &[Share<u16>]) -> (r: Vec<Share<u16>>)
    ensures
        r@ == Seq::new(
            shares@.len(),
            |i: int| plus_const(own_role.index as int, shares@[i], 0x8000),
        ),
        forall|i: int|
            0 <= i < r@.len() ==> (#[trigger] r@[i]).a == if own_role.index == 0 {
                u16::of_int(shares@[i].a.val() + 0x8000)
            } else {
                shares@[i].a
            } && r@[i].b == if own_role.index == 1 {
                u16::of_int(shares@[i].b.val() + 0x8000)
            } else {
                shares@[i].b
            },
{
    let mut out: Vec<Share<u16>> = Vec::new();
    let mut i: usize = 0;
    while i < shares.len()
        invariant
            i <= shares@.len(),
            out@.len() == i,
            forall|j: int|
                0 <= j < i ==> #[trigger] out@[j] == plus_const(
                    own_role.index as int,
                    shares@[j],
                    0x8000,
                ),
        decreases shares@.len() - i,
    {
        out.push(add_const(own_role, shares[i], 0x8000u16));
        i += 1;
    }
    assert(out@ =~= Seq::new(
        shares@.len(),
        |i: int| plus_const(own_role.index as int, shares@[i], 0x8000),
    ));
    out
}

/// Last step of a signed lift: takes the offset off the lifted values again.
pub fn batch_signed_lift<T: IntRing2k>(own_role: Role, lifted: &[Share<T>]) -> (r: Vec<Share<T>>)
    requires
        T::bits() > 16,
    ensures
        r@ == Seq::new(
            lifted@.len(),
            |i: int| plus_const(own_role.index as int, lifted@[i], T::modulus() - 0x8000),
        ),
        forall|i: int|
            0 <= i < r@.len() ==> (#[trigger] r@[i]).a == if own_role.index == 0 {
                T::of_int(lifted@[i].a.val() - 0x8000)
            } else {
                lifted@[i].a
            } && r@[i].b == if own_role.index == 1 {
                T::of_int(lifted@[i].b.val() - 0x8000)
            } else {
                lifted@[i].b
            },
{
    let mut out: Vec<Share<T>> = Vec::new();
    let offset: T = T::from_bit(false).ring_sub(T::power_of_two(15));
    proof {
        T::law_modulus();
        lemma2_to64();
        lemma_pow2_strictly_increases(16, T::bits());
        lemma_small::<T>(0);
        lemma_small::<T>(0x8000);
        lemma_shift::<T>(-0x8000, 1);
        lemma_small::<T>(T::modulus() - 0x8000);
    }
    let mut i: usize = 0;
    while i < lifted.len()
        invariant
            offset.val() == T::modulus() - 0x8000,
            i <= lifted@.len(),
            out@.len() == i,
            forall|j: int|
                0 <= j < i ==> #[trigger] out@[j] == plus_const(
                    own_role.index as int,
                    lifted@[j],
                    T::modulus() - 0x8000,
                ),
        decreases lifted@.len() - i,
    {
        out.push(add_const(own_role, lifted[i], offset));
        i += 1;
    }
    assert(out@ =~= Seq::new(
        lifted@.len(),
        |i: int| plus_const(own_role.index as int, lifted@[i], T::modulus() - 0x8000),
    ));
    proof {
        assert forall|i: int| 0 <= i < out@.len() implies (#[trigger] out@[i]).a
            == if own_role.index == 0 {
            T::of_int(lifted@[i].a.val() - 0x8000)
        } else {
            lifted@[i].a
        } && out@[i].b == if own_role.index == 1 {
            T::of_int(lifted@[i].b.val() - 0x8000)
        } else {
            lifted@[i].b
        } by {
            lemma_shift::<T>(lifted@[i].a.val() - 0x8000, 1);
            lemma_shift::<T>(lifted@[i].b.val() - 0x8000, 1);
        }
    }
    out
}

/// Last step of a signed lift to 48 bits: takes the offset off the lifted values again.
pub fn batch_signed_lift_ring48(own_role: Role, lifted: &[Share<Ring48>]) -> (r: Vec<
    Share<Ring48>,
>)
    ensures
        r@ == Seq::new(
            lifted@.len(),
            |i: int|
                plus_const(own_role.index as int, lifted@[i], 0x1_0000_0000_0000 - 0x8000),
        ),
        forall|i: int|
            0 <= i < r@.len() ==> (#[trigger] r@[i]).a == if own_role.index == 0 {
                Ring48::of_int(lifted@[i].a.val() - 0x8000)
            } else {
                lifted@[i].a
            } && r@[i].b == if own_role.index == 1 {
                Ring48::of_int(lifted@[i].b.val() - 0x8000)
            } else {
                lifted@[i].b
            },
{
    batch_signed_lift(own_role, lifted)
}

/// A signed lift keeps the signed number: the offset, a lift of the 16-bit value and the offset
/// taken off again give the signed number in the larger ring.
pub proof fn lemma_signed_lift_correct<T: IntRing2k>(
    x: (Share<u16>, Share<u16>, Share<u16>),
    lifted: (Share<T>, Share<T>, Share<T>),
)
    requires
        T::bits() > 16,
        consistent(x.0, x.1, x.2),
        consistent(lifted.0, lifted.1, lifted.2),
        sum_value(lifted.0, lifted.1, lifted.2).val() == sum_value(
            plus_const(0, x.0, 0x8000),
            plus_const(1, x.1, 0x8000),
            plus_const(2, x.2, 0x8000),
        ).val(),
    ensures
        ({
            let c = T::modulus() - 0x8000;
            sum_value(
                plus_const(0, lifted.0, c),
                plus_const(1, lifted.1, c),
                plus_const(2, lifted.2, c),
            ) == T::of_int(signed16(sum_value(x.0, x.1, x.2).val()))
        }),
{
    let c = T::modulus() - 0x8000;
    lemma_plus_const_value(x.0, x.1, x.2, 0x8000);
    lemma_plus_const_value(lifted.0, lifted.1, lifted.2, c);
    let v = sum_value(x.0, x.1, x.2).val();
    let w = sum_value(lifted.0, lifted.1, lifted.2).val();
    assert(w == (v + 0x8000) % 0x1_0000);
    assert(w == signed16(v) + 0x8000);
    lemma_shift::<T>(signed16(v), 1);
}

} // verus!
