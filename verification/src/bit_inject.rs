//! Injection of shared bits into an arithmetic ring.
//!
//! For a bit `b = b0 ^ b1 ^ b2` the three positions compute shares of
//! `(b0 ^ b1) + b2 - 2 * (b0 ^ b1) * b2`. Position 1 masks `b0 ^ b1` with a value that it draws
//! together with position 0; the products with `b2` are computed by positions 0 and 2, each
//! masked with a value that it draws together with the third one. Everything a position sends
//! goes to the next one.

use crate::message::ProtocolError;
use crate::player::Role;
use crate::prf::{drawn_batch, in_step, Prf, PrfDraw};
use crate::ring::{bit_int, IntRing2k};
use crate::ring_lemmas::{
    lemma_absorb, lemma_absorb_sub, lemma_reduce, lemma_shift, lemma_small, lemma_sum3,
};
use crate::shares::{consistent, sum_value, xor_value, Share};
use vstd::arithmetic::mul::*;
use vstd::prelude::*;

verus! {

/// The position that a role takes in a session: the roles rotate with the session number.
pub fn inject_position(own_role: Role, session_id: u32) -> (r: Result<usize, ProtocolError>)
    ensures
        r == if own_role.index < 3 {
            Ok::<usize, ProtocolError>(((own_role.index + session_id) % 3) as usize)
        } else {
            Err(ProtocolError::UnsupportedRole)
        },
{
    if own_role.index >= 3 {
        return Err(ProtocolError::UnsupportedRole);
    }
    let sum: u64 = own_role.index as u64 + session_id as u64;
    Ok((sum % 3) as usize)
}

/// `sum - 2 * product`, part by part: the share of an injected bit.
pub open spec fn injected<T: IntRing2k>(
    sum_a: int,
    product_a: int,
    sum_b: int,
    product_b: int,
) -> Share<T> {
    Share { a: T::of_int(sum_a - 2 * product_a), b: T::of_int(sum_b - 2 * product_b) }
}

fn less_twice<T: IntRing2k>(sum: T, p: T, q: T) -> (r: T)
    ensures
        r == T::of_int(sum.val() - 2 * (p.val() + q.val())),
{
    let both: T = p.ring_add(q);
    let once: T = sum.ring_sub(both);
    let r: T = once.ring_sub(both);
    proof {
        let s = p.val() + q.val();
        lemma_absorb_sub::<T>(s, sum.val());
        lemma_absorb::<T>(sum.val() - s, -both.val());
        lemma_absorb_sub::<T>(s, sum.val() - s);
    }
    r
}

/// What position 0 draws and sends. The value it sends is `y = r_01 * b_2 - r_02`.
#[derive(Debug)]
pub struct InjectPosition0<T> {
    pub r_01: Vec<T>,
    pub r_02: Vec<T>,
    pub y: Vec<T>,
}

/// What position 1 draws and sends. The value it sends is `x = (b_0 ^ b_1) - r_01`.
#[derive(Debug)]
pub struct InjectPosition1<T> {
    pub r_01: Vec<T>,
    pub r_12: Vec<T>,
    pub x: Vec<T>,
}

/// What position 2 draws and sends. The value it sends is `z = x * b_2 - r_12`.
#[derive(Debug)]
pub struct InjectPosition2<T> {
    pub r_02: Vec<T>,
    pub r_12: Vec<T>,
    pub z: Vec<T>,
}

/// The value that position 0 sends for one bit.
pub open spec fn sent_y<T: IntRing2k>(r_01: T, r_02: T, b2: bool) -> T {
    T::of_int(r_01.val() * bit_int(b2) - r_02.val())
}

/// The value that position 1 sends for one bit.
pub open spec fn sent_x<T: IntRing2k>(r_01: T, b0: bool, b1: bool) -> T {
    T::of_int(bit_int(b0 != b1) - r_01.val())
}

/// The value that position 2 sends for one bit.
pub open spec fn sent_z<T: IntRing2k>(x: T, r_12: T, b2: bool) -> T {
    T::of_int(x.val() * bit_int(b2) - r_12.val())
}

/// Position 0, first step: draws the masks and computes what goes to position 1.
pub fn bit_inject_party0_send<T: IntRing2k + PrfDraw>(prf: &mut Prf, input: &[Share<bool>]) -> (r:
    InjectPosition0<T>)
    ensures
        r.r_01@ == drawn_batch::<T>(old(prf).my_prf, input@.len()),
        r.r_02@ == drawn_batch::<T>(old(prf).prev_prf, input@.len()),
        r.y@ == Seq::new(input@.len(), |i: int| sent_y(r.r_01@[i], r.r_02@[i], input@[i].b)),
        *final(prf) == old(prf).after::<T>(input@.len() as int),
        r.y@.len() == input@.len(),
        forall|i: int|
            0 <= i < input@.len() ==> #[trigger] r.y@[i] == T::of_int(
                r.r_01@[i].val() * bit_int(input@[i].b) - r.r_02@[i].val(),
            ),
{
    let len: usize = input.len();
    let r_01: Vec<T> = prf.gen_rands_mine(len);
    let r_02: Vec<T> = prf.gen_rands_prev(len);
    let mut y: Vec<T> = Vec::new();
    let mut i: usize = 0;
    while i < len
        invariant
            len == input@.len(),
            len == r_01@.len(),
            len == r_02@.len(),
            i <= len,
            y@.len() == i,
            forall|j: int|
                0 <= j < i ==> #[trigger] y@[j] == sent_y(r_01@[j], r_02@[j], input@[j].b),
        decreases len - i,
    {
        let b2: T = T::from_bit(input[i].b);
        let product: T = r_01[i].ring_mul(b2);
        y.push(product.ring_sub(r_02[i]));
        proof {
            T::law_modulus();
            lemma_small::<T>(bit_int(input@[i as int].b));
            lemma_absorb::<T>(
                r_01@[i as int].val() * bit_int(input@[i as int].b),
                -r_02@[i as int].val(),
            );
        }
        i += 1;
    }
    assert(y@ =~= Seq::new(input@.len(), |i: int| sent_y(r_01@[i], r_02@[i], input@[i].b)));
    InjectPosition0 { r_01, r_02, y }
}

/// The share that position 0 ends with for one bit.
pub open spec fn injected_0<T: IntRing2k>(r_01: T, r_02: T, y: T, z: T, b2: bool) -> Share<T> {
    injected(r_01.val(), y.val(), bit_int(b2), r_02.val() + z.val())
}

/// The share that position 1 ends with for one bit.
pub open spec fn injected_1<T: IntRing2k>(r_01: T, r_12: T, x: T, y: T) -> Share<T> {
    injected(x.val(), r_12.val(), r_01.val(), y.val())
}

/// The share that position 2 ends with for one bit.
pub open spec fn injected_2<T: IntRing2k>(r_02: T, r_12: T, x: T, z: T, b2: bool) -> Share<T> {
    injected(bit_int(b2), r_02.val() + z.val(), x.val(), r_12.val())
}

/// The shorter of two lengths.
pub open spec fn shorter(a: nat, b: nat) -> nat {
    if a <= b {
        a
    } else {
        b
    }
}

/// Position 0, last step: takes what position 2 sent.
pub fn bit_inject_party0_finish<T: IntRing2k>(
    input: &[Share<bool>],
    sent: &InjectPosition0<T>,
    z: &[T],
) -> (r: Vec<Share<T>>)
    requires
        sent.r_01@.len() == input@.len(),
        sent.r_02@.len() == input@.len(),
        sent.y@.len() == input@.len(),
    ensures
        r@ == Seq::new(
            shorter(input@.len(), z@.len()),
            |i: int| injected_0(sent.r_01@[i], sent.r_02@[i], sent.y@[i], z@[i], input@[i].b),
        ),
        r@.len() <= input@.len() && r@.len() <= z@.len(),
        r@.len() == input@.len() || r@.len() == z@.len(),
        forall|i: int|
            0 <= i < r@.len() ==> (#[trigger] r@[i]).a == T::of_int(
                sent.r_01@[i].val() - 2 * sent.y@[i].val(),
            ) && r@[i].b == T::of_int(
                bit_int(input@[i].b) - 2 * (sent.r_02@[i].val() + z@[i].val()),
            ),
{
    let mut out: Vec<Share<T>> = Vec::new();
    let mut i: usize = 0;
    while i < input.len() && i < z.len()
        invariant
            sent.r_01@.len() == input@.len(),
            sent.r_02@.len() == input@.len(),
            sent.y@.len() == input@.len(),
            i <= input@.len(),
            i <= z@.len(),
            out@.len() == i,
            forall|j: int|
                0 <= j < i ==> #[trigger] out@[j] == injected_0(
                    sent.r_01@[j],
                    sent.r_02@[j],
                    sent.y@[j],
                    z@[j],
                    input@[j].b,
                ),
        decreases input@.len() - i,
    {
        let nil: T = T::from_bit(false);
        let b2: T = T::from_bit(input[i].b);
        proof {
            T::law_modulus();
            lemma_small::<T>(0);
            lemma_small::<T>(bit_int(input@[i as int].b));
        }
        let a: T = less_twice(sent.r_01[i], sent.y[i], nil);
        let b: T = less_twice(b2, sent.r_02[i], z[i]);
        out.push(Share { a, b });
        i += 1;
    }
    assert(out@ =~= Seq::new(
        shorter(input@.len(), z@.len()),
        |i: int| injected_0(sent.r_01@[i], sent.r_02@[i], sent.y@[i], z@[i], input@[i].b),
    ));
    out
}

/// Position 1, first step: draws the masks and computes what goes to position 2.
pub fn bit_inject_party1_send<T: IntRing2k + PrfDraw>(prf: &mut Prf, input: &[Share<bool>]) -> (r:
    InjectPosition1<T>)
    ensures
        r.r_01@ == drawn_batch::<T>(old(prf).prev_prf, input@.len()),
        r.r_12@ == drawn_batch::<T>(old(prf).my_prf, input@.len()),
        r.x@ == Seq::new(input@.len(), |i: int| sent_x(r.r_01@[i], input@[i].a, input@[i].b)),
        *final(prf) == old(prf).after::<T>(input@.len() as int),
        r.x@.len() == input@.len(),
        forall|i: int|
            0 <= i < input@.len() ==> #[trigger] r.x@[i] == T::of_int(
                bit_int(input@[i].a != input@[i].b) - r.r_01@[i].val(),
            ),
{
    let len: usize = input.len();
    let r_01: Vec<T> = prf.gen_rands_prev(len);
    let r_12: Vec<T> = prf.gen_rands_mine(len);
    let mut x: Vec<T> = Vec::new();
    let mut i: usize = 0;
    while i < len
        invariant
            len == input@.len(),
            len == r_01@.len(),
            i <= len,
            x@.len() == i,
            forall|j: int|
                0 <= j < i ==> #[trigger] x@[j] == sent_x(r_01@[j], input@[j].a, input@[j].b),
        decreases len - i,
    {
        let b: T = T::from_bit(input[i].a != input[i].b);
        proof {
            T::law_modulus();
            lemma_small::<T>(bit_int(input@[i as int].a != input@[i as int].b));
        }
        x.push(b.ring_sub(r_01[i]));
        i += 1;
    }
    assert(x@ =~= Seq::new(input@.len(), |i: int| sent_x(r_01@[i], input@[i].a, input@[i].b)));
    InjectPosition1 { r_01, r_12, x }
}

/// Position 1, last step: takes what position 0 sent.
pub fn bit_inject_party1_finish<T: IntRing2k>(sent: &InjectPosition1<T>, y: &[T]) -> (r: Vec<
    Share<T>,
>)
    requires
        sent.r_01@.len() == sent.x@.len(),
        sent.r_12@.len() == sent.x@.len(),
    ensures
        r@ == Seq::new(
            shorter(sent.x@.len(), y@.len()),
            |i: int| injected_1(sent.r_01@[i], sent.r_12@[i], sent.x@[i], y@[i]),
        ),
        r@.len() <= sent.x@.len() && r@.len() <= y@.len(),
        r@.len() == sent.x@.len() || r@.len() == y@.len(),
        forall|i: int|
            0 <= i < r@.len() ==> (#[trigger] r@[i]).a == T::of_int(
                sent.x@[i].val() - 2 * sent.r_12@[i].val(),
            ) && r@[i].b == T::of_int(sent.r_01@[i].val() - 2 * y@[i].val()),
{
    let mut out: Vec<Share<T>> = Vec::new();
    let mut i: usize = 0;
    while i < sent.x.len() && i < y.len()
        invariant
            sent.r_01@.len() == sent.x@.len(),
            sent.r_12@.len() == sent.x@.len(),
            i <= sent.x@.len(),
            i <= y@.len(),
            out@.len() == i,
            forall|j: int|
                0 <= j < i ==> #[trigger] out@[j] == injected_1(
                    sent.r_01@[j],
                    sent.r_12@[j],
                    sent.x@[j],
                    y@[j],
                ),
        decreases sent.x@.len() - i,
    {
        let nil: T = T::from_bit(false);
        proof {
            T::law_modulus();
            lemma_small::<T>(0);
        }
        let a: T = less_twice(sent.x[i], nil, sent.r_12[i]);
        let b: T = less_twice(sent.r_01[i], y[i], nil);
        out.push(Share { a, b });
        i += 1;
    }
    assert(out@ =~= Seq::new(
        shorter(sent.x@.len(), y@.len()),
        |i: int| injected_1(sent.r_01@[i], sent.r_12@[i], sent.x@[i], y@[i]),
    ));
    out
}

/// Position 2, only step: takes what position 1 sent, draws the masks and computes what goes to
/// position 0 together with its own shares.
pub fn bit_inject_party2<T: IntRing2k + PrfDraw>(prf: &mut Prf, input: &[Share<bool>], x: &[T]) -> (
r: Result<(InjectPosition2<T>, Vec<Share<T>>), ProtocolError>)
    ensures
        *final(prf) == old(prf).after::<T>(input@.len() as int),
        x@.len() != input@.len() ==> r == Err::<
            (InjectPosition2<T>, Vec<Share<T>>),
            ProtocolError,
        >(ProtocolError::LengthMismatch),
        x@.len() == input@.len() ==> {
            let sent = r->Ok_0.0;
            &&& r is Ok
            &&& sent.r_02@ == drawn_batch::<T>(old(prf).my_prf, input@.len())
            &&& sent.r_12@ == drawn_batch::<T>(old(prf).prev_prf, input@.len())
            &&& sent.z@ == Seq::new(
                input@.len(),
                |i: int| sent_z(x@[i], sent.r_12@[i], input@[i].a),
            )
            &&& r->Ok_0.1@ == Seq::new(
                input@.len(),
                |i: int|
                    injected_2(sent.r_02@[i], sent.r_12@[i], x@[i], sent.z@[i], input@[i].a),
            )
        },
        r is Ok ==> {
            let (sent, out) = (r->Ok_0.0, r->Ok_0.1@);
            &&& sent.z@.len() == input@.len() && out.len() == input@.len()
            &&& forall|i: int|
                0 <= i < input@.len() ==> #[trigger] sent.z@[i] == T::of_int(
                    x@[i].val() * bit_int(input@[i].a) - sent.r_12@[i].val(),
                )
            &&& forall|i: int|
                0 <= i < input@.len() ==> (#[trigger] out[i]).a == T::of_int(
                    bit_int(input@[i].a) - 2 * (sent.r_02@[i].val() + sent.z@[i].val()),
                ) && out[i].b == T::of_int(x@[i].val() - 2 * sent.r_12@[i].val())
        },
{
    let len: usize = input.len();
    let r_02: Vec<T> = prf.gen_rands_mine(len);
    let r_12: Vec<T> = prf.gen_rands_prev(len);
    if x.len() != len {
        return Err(ProtocolError::LengthMismatch);
    }
    let mut z: Vec<T> = Vec::new();
    let mut out: Vec<Share<T>> = Vec::new();
    let mut i: usize = 0;
    while i < len
        invariant
            len == input@.len(),
            len == x@.len(),
            len == r_02@.len(),
            len == r_12@.len(),
            i <= len,
            z@.len() == i,
            out@.len() == i,
            forall|j: int| 0 <= j < i ==> #[trigger] z@[j] == sent_z(x@[j], r_12@[j], input@[j].a),
            forall|j: int|
                0 <= j < i ==> #[trigger] out@[j] == injected_2(
                    r_02@[j],
                    r_12@[j],
                    x@[j],
                    z@[j],
                    input@[j].a,
                ),
        decreases len - i,
    {
        let nil: T = T::from_bit(false);
        let b2: T = T::from_bit(input[i].a);
        proof {
            T::law_modulus();
            lemma_small::<T>(0);
            lemma_small::<T>(bit_int(input@[i as int].a));
            lemma_absorb::<T>(
                x@[i as int].val() * bit_int(input@[i as int].a),
                -r_12@[i as int].val(),
            );
        }
        let sent: T = x[i].ring_mul(b2).ring_sub(r_12[i]);
        let a: T = less_twice(b2, r_02[i], sent);
        let b: T = less_twice(x[i], nil, r_12[i]);
        z.push(sent);
        out.push(Share { a, b });
        i += 1;
    }
    assert(z@ =~= Seq::new(input@.len(), |i: int| sent_z(x@[i], r_12@[i], input@[i].a)));
    assert(out@ =~= Seq::new(
        input@.len(),
        |i: int| injected_2(r_02@[i], r_12@[i], x@[i], z@[i], input@[i].a),
    ));
    Ok((InjectPosition2 { r_02, r_12, z }, out))
}

/// The injection is correct: the shares of the three positions are consistent and add up to the
/// bit.
pub proof fn lemma_bit_inject_correct<T: IntRing2k>(
    s0: Share<bool>,
    s1: Share<bool>,
    s2: Share<bool>,
    r_01: T,
    r_02: T,
    r_12: T,
)
    requires
        consistent(s0, s1, s2),
    ensures
        ({
            let x = sent_x(r_01, s1.a, s1.b);
            let y = sent_y(r_01, r_02, s0.b);
            let z = sent_z(x, r_12, s2.a);
            let (t0, t1, t2) = (
                injected_0(r_01, r_02, y, z, s0.b),
                injected_1(r_01, r_12, x, y),
                injected_2(r_02, r_12, x, z, s2.a),
            );
            &&& consistent(t0, t1, t2)
            &&& sum_value(t0, t1, t2) == T::of_int(bit_int(xor_value(s0, s1, s2)))
        }),
{
    let x = sent_x(r_01, s1.a, s1.b);
    let y = sent_y(r_01, r_02, s0.b);
    let z = sent_z(x, r_12, s2.a);
    let m = T::modulus();
    let (d, b2) = (bit_int(s0.a != s1.a), bit_int(s2.a));
    let qx = lemma_reduce::<T>(bit_int(s1.a != s1.b) - r_01.val());
    let qy = lemma_reduce::<T>(r_01.val() * b2 - r_02.val());
    let qz = lemma_reduce::<T>(x.val() * b2 - r_12.val());
    let (e0, e1, e2) = (
        r_01.val() - 2 * y.val(),
        x.val() - 2 * r_12.val(),
        b2 - 2 * (r_02.val() + z.val()),
    );
    lemma_sum3::<T>(e0, e1, e2);
    let target = d + b2 - 2 * d * b2;
    assert(target == bit_int(xor_value(s0, s1, s2))) by {
        assert(2 * d * b2 == if (s0.a != s1.a) && s2.a { 2int } else { 0int }) by (nonlinear_arith)
            requires
                d == bit_int(s0.a != s1.a),
                b2 == bit_int(s2.a),
        ;
    }
    let q = -qx + 2 * qy + 2 * qz + 2 * qx * b2;
    let (xv, yv, zv, r1, r2, r3) = (
        x.val(),
        y.val(),
        z.val(),
        r_01.val(),
        r_02.val(),
        r_12.val(),
    );
    assert(e0 + e1 + e2 == target + q * m) by (nonlinear_arith)
        requires
            e0 == r1 - 2 * yv,
            e1 == xv - 2 * r3,
            e2 == b2 - 2 * (r2 + zv),
            xv == d - r1 - qx * m,
            yv == r1 * b2 - r2 - qy * m,
            zv == xv * b2 - r3 - qz * m,
            target == d + b2 - 2 * d * b2,
            q == -qx + 2 * qy + 2 * qz + 2 * qx * b2,
    ;
    lemma_shift::<T>(target, q);
}

/// Parties in step draw the masks that the injection takes: each mask is drawn alike by the two
/// positions that use it.
pub proof fn lemma_inject_masks_agree<T: PrfDraw>(p0: Prf, p1: Prf, p2: Prf, n: nat)
    requires
        in_step(p0, p1, p2),
    ensures
        drawn_batch::<T>(p0.my_prf, n) == drawn_batch::<T>(p1.prev_prf, n),
        drawn_batch::<T>(p0.prev_prf, n) == drawn_batch::<T>(p2.my_prf, n),
        drawn_batch::<T>(p1.my_prf, n) == drawn_batch::<T>(p2.prev_prf, n),
{
}

} // verus!
