//! Binary protocols of three parties with replicated shares.

use crate::message::{
    elements_of, into_vec, lemma_pack_roundtrip, pack, packed, unpack, unpacked, NetworkValue,
    ProtocolError, Wire,
};
use crate::player::Role;
use crate::prf::{
    drawn_batch, in_step, lemma_binary_zero_shares_cancel, lemma_stay_in_step, Prf, PrfDraw,
};
use crate::ring::IntRing2k;
use crate::ring_lemmas::{bit, group_bits, lemma_bits_ext, zero};
use crate::shares::{consistent, lemma_and_value, xor_value, Share};
use vstd::arithmetic::mul::*;
use vstd::prelude::*;

verus! {

/// The three sharings that the parts of a share become, as one party holds them: part `i` is
/// shared with party `i` holding it first and the next party holding it second.
pub open spec fn split_parts<T: IntRing2k>(role: int, x: Share<T>) -> (Share<T>, Share<T>, Share<T>) {
    let z = zero::<T>();
    if role == 0 {
        (Share { a: x.a, b: z }, Share { a: z, b: z }, Share { a: z, b: x.b })
    } else if role == 1 {
        (Share { a: z, b: x.b }, Share { a: x.a, b: z }, Share { a: z, b: z })
    } else {
        (Share { a: z, b: z }, Share { a: z, b: x.b }, Share { a: x.a, b: z })
    }
}

/// Splits the parts of an arithmetic share into three sharings, one of each part.
pub fn a2b_pre<T: IntRing2k>(own_role: Role, x: Share<T>) -> (r: Result<
    (Share<T>, Share<T>, Share<T>),
    ProtocolError,
>)
    ensures
        r == if own_role.index < 3 {
            Ok::<(Share<T>, Share<T>, Share<T>), ProtocolError>(
                split_parts(own_role.index as int, x),
            )
        } else {
            Err(ProtocolError::UnsupportedRole)
        },
        own_role.index < 3 ==> r is Ok,
        own_role.index == 0 ==> r->Ok_0 == (
            Share { a: x.a, b: T::of_int(0) },
            Share { a: T::of_int(0), b: T::of_int(0) },
            Share { a: T::of_int(0), b: x.b },
        ),
        own_role.index == 1 ==> r->Ok_0 == (
            Share { a: T::of_int(0), b: x.b },
            Share { a: x.a, b: T::of_int(0) },
            Share { a: T::of_int(0), b: T::of_int(0) },
        ),
        own_role.index == 2 ==> r->Ok_0 == (
            Share { a: T::of_int(0), b: T::of_int(0) },
            Share { a: T::of_int(0), b: x.b },
            Share { a: x.a, b: T::of_int(0) },
        ),
{
    let mut x1: Share<T> = Share::zero();
    let mut x2: Share<T> = Share::zero();
    let mut x3: Share<T> = Share::zero();
    match own_role.index {
        0 => {
            x1.a = x.a;
            x3.b = x.b;
        },
        1 => {
            x2.a = x.a;
            x1.b = x.b;
        },
        2 => {
            x3.a = x.a;
            x2.b = x.b;
        },
        _ => {
            return Err(ProtocolError::UnsupportedRole);
        },
    }
    Ok((x1, x2, x3))
}

/// Each of the three sharings is consistent and holds one part of the value.
pub proof fn lemma_split_parts<T: IntRing2k>(x0: Share<T>, x1: Share<T>, x2: Share<T>)
    requires
        consistent(x0, x1, x2),
    ensures
        ({
            let (p0, p1, p2) = (split_parts(0, x0), split_parts(1, x1), split_parts(2, x2));
            &&& consistent(p0.0, p1.0, p2.0) && xor_value(p0.0, p1.0, p2.0) == x0.a
            &&& consistent(p0.1, p1.1, p2.1) && xor_value(p0.1, p1.1, p2.1) == x1.a
            &&& consistent(p0.2, p1.2, p2.2) && xor_value(p0.2, p1.2, p2.2) == x2.a
        }),
{
    broadcast use group_bits;

    let (p0, p1, p2) = (split_parts(0, x0), split_parts(1, x1), split_parts(2, x2));
    lemma_bits_ext(xor_value(p0.0, p1.0, p2.0), x0.a);
    lemma_bits_ext(xor_value(p0.1, p1.1, p2.1), x1.a);
    lemma_bits_ext(xor_value(p0.2, p1.2, p2.2), x2.a);
}

/// What a party sends for the bitwise and of two shared vectors: its local parts, masked with
/// shares of zero.
pub open spec fn and_parts<T: IntRing2k + PrfDraw>(
    prf: Prf,
    a: Seq<Share<T>>,
    b: Seq<Share<T>>,
) -> Seq<T> {
    Seq::new(
        a.len(),
        |i: int| a[i].and_spec(b[i]).bxor(prf.after::<T>(i).binary_zero_share::<T>()),
    )
}

/// Computes the local parts of the bitwise and of two shared vectors, which go to the next party.
pub fn and_many_send<T: IntRing2k + PrfDraw>(prf: &mut Prf, a: &[Share<T>], b: &[Share<T>]) -> (r:
    Result<Vec<T>, ProtocolError>)
    ensures
        a@.len() != b@.len() ==> {
            &&& r == Err::<Vec<T>, ProtocolError>(ProtocolError::LengthMismatch)
            &&& *final(prf) == *old(prf)
        },
        a@.len() == b@.len() ==> {
            &&& r is Ok
            &&& r->Ok_0@ == and_parts(*old(prf), a@, b@)
            &&& *final(prf) == old(prf).after::<T>(a@.len() as int)
        },
        a@.len() == b@.len() ==> r->Ok_0@.len() == a@.len() && forall|i: int|
            0 <= i < a@.len() ==> #[trigger] r->Ok_0@[i] == a@[i].a.band(b@[i].a).bxor(
                a@[i].b.band(b@[i].a),
            ).bxor(a@[i].a.band(b@[i].b)).bxor(
                T::drawn(old(prf).my_prf.advanced(i * T::words())).bxor(
                    T::drawn(old(prf).prev_prf.advanced(i * T::words())),
                ),
            ),
{
    if a.len() != b.len() {
        return Err(ProtocolError::LengthMismatch);
    }
    let ghost start = *prf;
    let (mine, prev): (Vec<T>, Vec<T>) = prf.gen_rands_batch(a.len());
    let mut out: Vec<T> = Vec::new();
    let mut i: usize = 0;
    while i < a.len()
        invariant
            a@.len() == b@.len(),
            mine@ == drawn_batch::<T>(start.my_prf, a@.len()),
            prev@ == drawn_batch::<T>(start.prev_prf, a@.len()),
            i <= a@.len(),
            out@.len() == i,
            forall|j: int| 0 <= j < i ==> #[trigger] out@[j] == and_parts(start, a@, b@)[j],
        decreases a@.len() - i,
    {
        let rand: T = mine[i].ring_xor(prev[i]);
        let c: T = a[i].and(b[i]);
        out.push(c.ring_xor(rand));
        i += 1;
    }
    assert(out@ =~= and_parts(start, a@, b@));
    Ok(out)
}

/// Drawing on is drawing more.
pub proof fn lemma_prf_after<T: PrfDraw>(prf: Prf, m: int, n: int)
    ensures
        prf.after::<T>(m).after::<T>(n) == prf.after::<T>(m + n),
{
    let w = T::words();
    crate::prf::lemma_advance(prf.my_prf, m * w, n * w);
    crate::prf::lemma_advance(prf.prev_prf, m * w, n * w);
    assert((m + n) * w == m * w + n * w) by (nonlinear_arith);
}

/// The shares whose parts are two vectors.
pub open spec fn zip_shares<T>(own: Seq<T>, received: Seq<T>) -> Seq<Share<T>> {
    Seq::new(own.len(), |i: int| Share { a: own[i], b: received[i] })
}

/// Joins the own parts with those that the previous party sent.
pub fn join_parts<T: IntRing2k>(own: &[T], received: &[T]) -> (r: Result<
    Vec<Share<T>>,
    ProtocolError,
>)
    ensures
        own@.len() != received@.len() ==> r == Err::<Vec<Share<T>>, ProtocolError>(
            ProtocolError::LengthMismatch,
        ),
        own@.len() == received@.len() ==> r is Ok && r->Ok_0@ == zip_shares(own@, received@),
        r is Ok ==> r->Ok_0@.len() == own@.len() && forall|i: int|
            0 <= i < own@.len() ==> (#[trigger] r->Ok_0@[i]).a == own@[i] && r->Ok_0@[i].b
                == received@[i],
{
    if own.len() != received.len() {
        return Err(ProtocolError::LengthMismatch);
    }
    let mut out: Vec<Share<T>> = Vec::new();
    let mut i: usize = 0;
    while i < own.len()
        invariant
            own@.len() == received@.len(),
            i <= own@.len(),
            out@.len() == i,
            forall|j: int| 0 <= j < i ==> #[trigger] out@[j] == zip_shares(own@, received@)[j],
        decreases own@.len() - i,
    {
        out.push(Share { a: own[i], b: received[i] });
        i += 1;
    }
    assert(out@ =~= zip_shares(own@, received@));
    Ok(out)
}

/// Takes the parts that the previous party sent out of its message.
pub fn and_many_receive<T: Wire>(msg: &NetworkValue) -> (r: Result<Vec<T>, ProtocolError>)
    ensures
        match elements_of::<T>(*msg) {
            Some(batch) => r is Ok && r->Ok_0@ == batch,
            None => r == Err::<Vec<T>, ProtocolError>(ProtocolError::WrongValueType),
        },
{
    into_vec(msg)
}

/// Finishes the bitwise and of two shared vectors: the own parts are joined with those in the
/// message of the previous party.
pub fn and_many<T: IntRing2k + Wire>(own: &[T], msg: &NetworkValue) -> (r: Result<
    Vec<Share<T>>,
    ProtocolError,
>)
    ensures
        match elements_of::<T>(*msg) {
            None => r == Err::<Vec<Share<T>>, ProtocolError>(ProtocolError::WrongValueType),
            Some(received) => if own@.len() == received.len() {
                r is Ok && r->Ok_0@ == zip_shares(own@, received)
            } else {
                r == Err::<Vec<Share<T>>, ProtocolError>(ProtocolError::LengthMismatch)
            },
        },
        r is Ok ==> r->Ok_0@.len() == own@.len() && forall|i: int|
            0 <= i < own@.len() ==> (#[trigger] r->Ok_0@[i]).a == own@[i] && r->Ok_0@[i].b
                == elements_of::<T>(*msg)->0[i],
{
    match and_many_receive::<T>(msg) {
        Ok(received) => join_parts(own, received.as_slice()),
        Err(e) => Err(e),
    }
}

/// The bitwise and of two shared vectors is correct: the joined parts of the three parties are
/// consistent shares of the bitwise and of the values.
pub proof fn lemma_and_many_correct<T: IntRing2k + PrfDraw>(
    prf: (Prf, Prf, Prf),
    a: (Seq<Share<T>>, Seq<Share<T>>, Seq<Share<T>>),
    b: (Seq<Share<T>>, Seq<Share<T>>, Seq<Share<T>>),
    i: int,
)
    requires
        in_step(prf.0, prf.1, prf.2),
        0 <= i < a.0.len(),
        a.1.len() == a.0.len() && a.2.len() == a.0.len(),
        b.0.len() == a.0.len() && b.1.len() == a.0.len() && b.2.len() == a.0.len(),
        consistent(a.0[i], a.1[i], a.2[i]),
        consistent(b.0[i], b.1[i], b.2[i]),
    ensures
        ({
            let (c0, c1, c2) = (
                and_parts(prf.0, a.0, b.0),
                and_parts(prf.1, a.1, b.1),
                and_parts(prf.2, a.2, b.2),
            );
            let (r0, r1, r2) = (zip_shares(c0, c2), zip_shares(c1, c0), zip_shares(c2, c1));
            &&& consistent(r0[i], r1[i], r2[i])
            &&& xor_value(r0[i], r1[i], r2[i]) == xor_value(a.0[i], a.1[i], a.2[i]).band(
                xor_value(b.0[i], b.1[i], b.2[i]),
            )
        }),
{
    broadcast use group_bits;

    let (q0, q1, q2) = (prf.0.after::<T>(i), prf.1.after::<T>(i), prf.2.after::<T>(i));
    lemma_stay_in_step::<T>(prf.0, prf.1, prf.2, i);
    lemma_binary_zero_shares_cancel::<T>(q0, q1, q2);
    lemma_and_value((a.0[i], a.1[i], a.2[i]), (b.0[i], b.1[i], b.2[i]));
    let (x, y, z) = (
        a.0[i].and_spec(b.0[i]),
        a.1[i].and_spec(b.1[i]),
        a.2[i].and_spec(b.2[i]),
    );
    let (u, v, w) = (
        q0.binary_zero_share::<T>(),
        q1.binary_zero_share::<T>(),
        q2.binary_zero_share::<T>(),
    );
    let l = x.bxor(u).bxor(y.bxor(v)).bxor(z.bxor(w));
    let r = x.bxor(y).bxor(z);
    assert forall|k: nat| k < T::bits() implies bit(l, k) == bit(r, k) by {
        assert(bit(u.bxor(v).bxor(w), k) == bit(zero::<T>(), k));
    }
    lemma_bits_ext(l, r);
}

/// The message of a party that opens binary shares: its second parts.
pub fn open_bin_message(shares: &[Share<bool>]) -> (msg: NetworkValue)
    ensures
        packed(shares@.map_values(|s: Share<bool>| s.b), msg),
{
    let mut parts: Vec<bool> = Vec::new();
    let mut i: usize = 0;
    while i < shares.len()
        invariant
            i <= shares@.len(),
            parts@.len() == i,
            forall|j: int| 0 <= j < i ==> parts@[j] == shares@[j].b,
        decreases shares@.len() - i,
    {
        parts.push(shares[i].b);
        i += 1;
    }
    assert(parts@ =~= shares@.map_values(|s: Share<bool>| s.b));
    pack(parts.as_slice())
}

/// The values of binary shares, from the own parts and the second parts of the previous party.
pub open spec fn opened_bits(shares: Seq<Share<bool>>, prev: Seq<bool>) -> Seq<bool> {
    Seq::new(
        if shares.len() <= prev.len() {
            shares.len()
        } else {
            prev.len()
        },
        |i: int| (shares[i].a != shares[i].b) != prev[i],
    )
}

/// Opens binary shares with the message of the previous party.
pub fn open_bin(shares: &[Share<bool>], from_prev: &NetworkValue) -> (r: Result<
    Vec<bool>,
    ProtocolError,
>)
    ensures
        match unpacked::<bool>(*from_prev, shares@.len() == 1) {
            Some(prev) => r is Ok && r->Ok_0@ == opened_bits(shares@, prev),
            None => r == Err::<Vec<bool>, ProtocolError>(ProtocolError::WrongValueType),
        },
        r is Ok ==> {
            let prev = unpacked::<bool>(*from_prev, shares@.len() == 1)->0;
            &&& r->Ok_0@.len() <= shares@.len() && r->Ok_0@.len() <= prev.len()
            &&& r->Ok_0@.len() == shares@.len() || r->Ok_0@.len() == prev.len()
            &&& forall|i: int|
                0 <= i < r->Ok_0@.len() ==> #[trigger] r->Ok_0@[i] == ((shares@[i].a
                    != shares@[i].b) != prev[i])
        },
{
    let prev: Vec<bool> = match unpack(from_prev, shares.len() == 1) {
        Ok(v) => v,
        Err(e) => {
            return Err(e);
        },
    };
    let mut out: Vec<bool> = Vec::new();
    let mut i: usize = 0;
    while i < shares.len() && i < prev.len()
        invariant
            i <= shares@.len(),
            i <= prev@.len(),
            out@.len() == i,
            forall|j: int| 0 <= j < i ==> #[trigger] out@[j] == opened_bits(shares@, prev@)[j],
        decreases shares@.len() - i,
    {
        out.push((shares[i].a != shares[i].b) != prev[i]);
        i += 1;
    }
    assert(out@ =~= opened_bits(shares@, prev@));
    Ok(out)
}

/// Opening gives every party the shared bits: with the message of the previous party, a party opens
/// what the three parties share.
pub proof fn lemma_open_bin_correct(
    prev: Seq<Share<bool>>,
    own: Seq<Share<bool>>,
    next: Seq<Share<bool>>,
    msg: NetworkValue,
)
    requires
        own.len() > 0,
        prev.len() == own.len(),
        next.len() == own.len(),
        forall|k: int| 0 <= k < own.len() ==> #[trigger] consistent(prev[k], own[k], next[k]),
        packed(prev.map_values(|s: Share<bool>| s.b), msg),
    ensures
        unpacked::<bool>(msg, own.len() == 1) is Some,
        opened_bits(own, unpacked::<bool>(msg, own.len() == 1)->0) == Seq::new(
            own.len(),
            |k: int| xor_value(prev[k], own[k], next[k]),
        ),
{
    let parts = prev.map_values(|s: Share<bool>| s.b);
    lemma_pack_roundtrip(parts, msg);
    assert forall|k: int| 0 <= k < own.len() implies opened_bits(own, parts)[k] == xor_value(
        prev[k],
        own[k],
        next[k],
    ) by {
        assert(consistent(prev[k], own[k], next[k]));
    }
    assert(opened_bits(own, parts) =~= Seq::new(
        own.len(),
        |k: int| xor_value(prev[k], own[k], next[k]),
    ));
}

} // verus!
