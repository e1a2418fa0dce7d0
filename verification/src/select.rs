//! Oblivious selection and swapping of shared distances.
//!
//! A control bit is a share of zero or one. `c * (x - y) + y` is `x` if the bit is one and `y`
//! if it is zero; the product takes one round, in which every party masks its local part and
//! sends it to the next one.

use crate::message::ProtocolError;
use crate::ops::{
    add_const, joined, lemma_plus_const_value, plus_const, reshare_products, reshare_products_send,
    reshared_parts,
};
use crate::player::Role;
use crate::prf::{Prf, PrfDraw};
use crate::ring::{bit_int, IntRing2k};
use crate::ring_lemmas::{lemma_absorb, lemma_absorb_sub, lemma_small};
use crate::shares::{
    consistent, lemma_minus_value, lemma_plus_value, lemma_product_value, lemma_times_value,
    sum_value, Share,
};
use vstd::prelude::*;

verus! {

/// The shares of a distance: its code and its mask part.
#[derive(Clone, Copy, Debug, PartialEq, Eq, Structural)]
pub struct DistanceShare<T> {
    pub code_dot: Share<T>,
    pub mask_dot: Share<T>,
}

/// Two distances to select from.
pub type DistancePair<T> = (DistanceShare<T>, DistanceShare<T>);

/// A distance and the shared identifier that it belongs to.
pub type IdDistance<T> = (Share<T>, DistanceShare<T>);

/// Rings that hold every 32-bit number.
pub trait FromU32: IntRing2k {
    /// The element that a number stands for.
    fn from_u32(x: u32) -> (r: Self)
        ensures
            r == Self::of_int(x as int),
    ;
}

impl FromU32 for u32 {
    fn from_u32(x: u32) -> (r: u32) {
        x
    }
}

impl FromU32 for u64 {
    fn from_u32(x: u32) -> (r: u64) {
        x as u64
    }
}

/// The local part of the product of a control bit and the difference of two values.
pub open spec fn choice_part<T: IntRing2k>(c: Share<T>, x: Share<T>, y: Share<T>) -> T {
    c.product_spec(x.minus_spec(y))
}

fn choice<T: IntRing2k>(c: Share<T>, x: Share<T>, y: Share<T>) -> (r: T)
    ensures
        r == choice_part(c, x, y),
        r == c.product_spec(x.minus_spec(y)),
{
    c.product(x.minus(y))
}

/// The product that a selection takes adds up to the chosen difference.
pub proof fn lemma_choice_parts<T: IntRing2k>(
    c: (Share<T>, Share<T>, Share<T>),
    x: (Share<T>, Share<T>, Share<T>),
    y: (Share<T>, Share<T>, Share<T>),
    b: bool,
)
    requires
        consistent(c.0, c.1, c.2),
        consistent(x.0, x.1, x.2),
        consistent(y.0, y.1, y.2),
        sum_value(c.0, c.1, c.2) == T::of_int(bit_int(b)),
    ensures
        T::of_int(
            choice_part(c.0, x.0, y.0).val() + choice_part(c.1, x.1, y.1).val() + choice_part(
                c.2,
                x.2,
                y.2,
            ).val(),
        ) == if b {
            T::of_int(sum_value(x.0, x.1, x.2).val() - sum_value(y.0, y.1, y.2).val())
        } else {
            T::of_int(0)
        },
{
    lemma_minus_value(x, y);
    let d = (x.0.minus_spec(y.0), x.1.minus_spec(y.1), x.2.minus_spec(y.2));
    lemma_product_value(c, d);
    T::law_modulus();
    lemma_small::<T>(bit_int(b));
    let v = sum_value(d.0, d.1, d.2);
    v.law_val();
    assert(bit_int(b) * v.val() == if b {
        v.val()
    } else {
        0
    });
}

/// Shares of the chosen difference, plus the second value, are shares of the selected value.
pub proof fn lemma_selected_value<T: IntRing2k>(
    p: (Share<T>, Share<T>, Share<T>),
    x: T,
    y: (Share<T>, Share<T>, Share<T>),
    b: bool,
)
    requires
        consistent(p.0, p.1, p.2),
        consistent(y.0, y.1, y.2),
        sum_value(p.0, p.1, p.2) == if b {
            T::of_int(x.val() - sum_value(y.0, y.1, y.2).val())
        } else {
            T::of_int(0)
        },
    ensures
        consistent(p.0.plus_spec(y.0), p.1.plus_spec(y.1), p.2.plus_spec(y.2)),
        sum_value(p.0.plus_spec(y.0), p.1.plus_spec(y.1), p.2.plus_spec(y.2)) == if b {
            x
        } else {
            sum_value(y.0, y.1, y.2)
        },
{
    lemma_plus_value(p, y);
    let v = sum_value(y.0, y.1, y.2);
    v.law_val();
    x.law_val();
    if b {
        lemma_absorb::<T>(x.val() - v.val(), v.val());
    } else {
        T::law_modulus();
        lemma_small::<T>(0);
    }
}

/// Shares of the chosen difference, taken off the first value, are shares of the value that was
/// not selected.
pub proof fn lemma_unselected_value<T: IntRing2k>(
    p: (Share<T>, Share<T>, Share<T>),
    x: (Share<T>, Share<T>, Share<T>),
    y: T,
    b: bool,
)
    requires
        consistent(p.0, p.1, p.2),
        consistent(x.0, x.1, x.2),
        sum_value(p.0, p.1, p.2) == if b {
            T::of_int(sum_value(x.0, x.1, x.2).val() - y.val())
        } else {
            T::of_int(0)
        },
    ensures
        consistent(x.0.minus_spec(p.0), x.1.minus_spec(p.1), x.2.minus_spec(p.2)),
        sum_value(x.0.minus_spec(p.0), x.1.minus_spec(p.1), x.2.minus_spec(p.2)) == if b {
            y
        } else {
            sum_value(x.0, x.1, x.2)
        },
{
    lemma_minus_value(x, p);
    let v = sum_value(x.0, x.1, x.2);
    v.law_val();
    y.law_val();
    if b {
        lemma_absorb_sub::<T>(v.val() - y.val(), v.val());
    } else {
        T::law_modulus();
        lemma_small::<T>(0);
    }
}

/// A local part, masked with the share of zero that is drawn at place `i`.
pub open spec fn reshared_part<T: IntRing2k + PrfDraw>(prf: Prf, part: T, i: int) -> T {
    T::of_int(
        T::drawn(prf.my_prf.advanced(i * T::words())).val() - T::drawn(
            prf.prev_prf.advanced(i * T::words()),
        ).val() + part.val(),
    )
}

/// The local parts of selecting from pairs of distances: code and mask part of each pair.
pub open spec fn distance_parts<T: IntRing2k>(
    distances: Seq<DistancePair<T>>,
    control_bits: Seq<Share<T>>,
) -> Seq<T> {
    Seq::new(
        2 * distances.len(),
        |i: int|
            {
                let (d1, d2) = distances[i / 2];
                if i % 2 == 0 {
                    choice_part(control_bits[i / 2], d1.code_dot, d2.code_dot)
                } else {
                    choice_part(control_bits[i / 2], d1.mask_dot, d2.mask_dot)
                }
            },
    )
}

/// First half of selecting from pairs of distances: what goes to the next party.
#[verifier::rlimit(40)]
pub fn conditionally_select_distance_send<T: IntRing2k + PrfDraw>(
    prf: &mut Prf,
    distances: &[DistancePair<T>],
    control_bits: &[Share<T>],
) -> (r: Result<Vec<T>, ProtocolError>)
    ensures
        distances@.len() != control_bits@.len() ==> {
            &&& r == Err::<Vec<T>, ProtocolError>(ProtocolError::LengthMismatch)
            &&& *final(prf) == *old(prf)
        },
        distances@.len() == control_bits@.len() ==> {
            &&& r is Ok
            &&& r->Ok_0@ == reshared_parts(*old(prf), distance_parts(distances@, control_bits@))
            &&& *final(prf) == old(prf).after::<T>(2 * distances@.len() as int)
        },
        r is Ok ==> r->Ok_0@.len() == 2 * distances@.len() && forall|i: int|
            0 <= i < distances@.len() ==> {
                let (d1, d2) = #[trigger] distances@[i];
                let c = control_bits@[i];
                &&& r->Ok_0@[2 * i] == reshared_part(
                    *old(prf),
                    c.product_spec(d1.code_dot.minus_spec(d2.code_dot)),
                    2 * i,
                )
                &&& r->Ok_0@[2 * i + 1] == reshared_part(
                    *old(prf),
                    c.product_spec(d1.mask_dot.minus_spec(d2.mask_dot)),
                    2 * i + 1,
                )
            },
{
    if distances.len() != control_bits.len() {
        return Err(ProtocolError::LengthMismatch);
    }
    let mut parts: Vec<T> = Vec::new();
    let mut i: usize = 0;
    while i < distances.len()
        invariant
            distances@.len() == control_bits@.len(),
            i <= distances@.len(),
            parts@.len() == 2 * i,
            forall|j: int|
                0 <= j < 2 * i ==> #[trigger] parts@[j] == distance_parts(
                    distances@,
                    control_bits@,
                )[j],
        decreases distances@.len() - i,
    {
        let (d1, d2) = distances[i];
        let c: Share<T> = control_bits[i];
        parts.push(choice(c, d1.code_dot, d2.code_dot));
        parts.push(choice(c, d1.mask_dot, d2.mask_dot));
        proof {
            assert((2 * i) / 2 == i && (2 * i) % 2 == 0);
            assert((2 * i + 1) / 2 == i && (2 * i + 1) % 2 == 1);
        }
        i += 1;
    }
    assert(parts@ =~= distance_parts(distances@, control_bits@));
    Ok(reshare_products_send(prf, parts.as_slice()))
}

/// The selected distance of pair `i`: the shares of the product plus the second distance.
pub open spec fn selected_distance<T: IntRing2k>(
    pair: DistancePair<T>,
    products: Seq<Share<T>>,
    i: int,
) -> DistanceShare<T> {
    DistanceShare {
        code_dot: products[2 * i].plus_spec(pair.1.code_dot),
        mask_dot: products[2 * i + 1].plus_spec(pair.1.mask_dot),
    }
}

/// Second half of selecting from pairs of distances: the first one where the control bit is one,
/// the second one where it is zero.
pub fn conditionally_select_distance<T: IntRing2k>(
    distances: &[DistancePair<T>],
    own: &[T],
    received: &[T],
) -> (r: Vec<DistanceShare<T>>)
    requires
        own@.len() == 2 * distances@.len(),
    ensures
        r@ == Seq::new(
            (joined(own@, received@).len() / 2) as nat,
            |i: int| selected_distance(distances@[i], joined(own@, received@), i),
        ),
        r@.len() == if own@.len() <= received@.len() {
            own@.len() / 2
        } else {
            received@.len() / 2
        },
        forall|i: int|
            0 <= i < r@.len() ==> (#[trigger] r@[i]).code_dot == (Share {
                a: own@[2 * i],
                b: received@[2 * i],
            }).plus_spec(distances@[i].1.code_dot) && r@[i].mask_dot == (Share {
                a: own@[2 * i + 1],
                b: received@[2 * i + 1],
            }).plus_spec(distances@[i].1.mask_dot),
{
    let products: Vec<Share<T>> = reshare_products(own, received);
    let mut out: Vec<DistanceShare<T>> = Vec::new();
    let total: usize = products.len();
    let n: usize = total / 2;
    let mut i: usize = 0;
    while i < n
        invariant
            own@.len() == 2 * distances@.len(),
            products@ == joined(own@, received@),
            total == products@.len(),
            n == total / 2,
            i <= n,
            out@.len() == i,
            forall|j: int|
                0 <= j < i ==> #[trigger] out@[j] == selected_distance(
                    distances@[j],
                    products@,
                    j,
                ),
        decreases n - i,
    {
        let d2: DistanceShare<T> = distances[i].1;
        let code_dot: Share<T> = products[2 * i].plus(d2.code_dot);
        let mask_dot: Share<T> = products[2 * i + 1].plus(d2.mask_dot);
        out.push(DistanceShare { code_dot, mask_dot });
        i += 1;
    }
    assert(out@ =~= Seq::new(
        (joined(own@, received@).len() / 2) as nat,
        |i: int| selected_distance(distances@[i], joined(own@, received@), i),
    ));
    out
}

/// The local parts of selecting between two vectors that are controlled slice by slice.
pub open spec fn slice_parts<T: IntRing2k>(
    left: Seq<Share<T>>,
    right: Seq<Share<T>>,
    control_bits: Seq<Share<T>>,
    slice_size: int,
) -> Seq<T> {
    Seq::new(left.len(), |i: int| choice_part(control_bits[i / slice_size], left[i], right[i]))
}

/// First half of selecting between two vectors slice by slice: what goes to the next party.
#[verifier::rlimit(40)]
pub fn select_shared_slices_by_bits_send<T: IntRing2k + PrfDraw>(
    prf: &mut Prf,
    left: &[Share<T>],
    right: &[Share<T>],
    control_bits: &[Share<T>],
    slice_size: usize,
) -> (r: Result<Vec<T>, ProtocolError>)
    requires
        slice_size > 0,
    ensures
        ({
            let ok = left@.len() == right@.len() && left@.len() as int % slice_size as int == 0
                && control_bits@.len() == left@.len() as int / slice_size as int;
            if ok {
                &&& r is Ok
                &&& r->Ok_0@ == reshared_parts(
                    *old(prf),
                    slice_parts(left@, right@, control_bits@, slice_size as int),
                )
                &&& *final(prf) == old(prf).after::<T>(left@.len() as int)
            } else {
                &&& r == Err::<Vec<T>, ProtocolError>(ProtocolError::LengthMismatch)
                &&& *final(prf) == *old(prf)
            }
        }),
        r is Ok ==> r->Ok_0@.len() == left@.len() && forall|i: int|
            0 <= i < left@.len() ==> #[trigger] r->Ok_0@[i] == reshared_part(
                *old(prf),
                control_bits@[i / slice_size as int].product_spec(left@[i].minus_spec(right@[i])),
                i,
            ),
{
    if left.len() != right.len() {
        return Err(ProtocolError::LengthMismatch);
    }
    if left.len() % slice_size != 0 {
        return Err(ProtocolError::LengthMismatch);
    }
    if control_bits.len() != left.len() / slice_size {
        return Err(ProtocolError::LengthMismatch);
    }
    let len: usize = left.len();
    let mut parts: Vec<T> = Vec::new();
    let mut i: usize = 0;
    while i < len
        invariant
            slice_size > 0,
            len == left@.len(),
            len == right@.len(),
            len as int % slice_size as int == 0,
            control_bits@.len() == len as int / slice_size as int,
            i <= len,
            parts@.len() == i,
            forall|j: int|
                0 <= j < i ==> #[trigger] parts@[j] == slice_parts(
                    left@,
                    right@,
                    control_bits@,
                    slice_size as int,
                )[j],
        decreases len - i,
    {
        proof {
            let s = slice_size as int;
            let q = len as int / s;
            vstd::arithmetic::div_mod::lemma_fundamental_div_mod(len as int, s);
            assert(i as int / s < q) by (nonlinear_arith)
                requires
                    len as int == s * q,
                    i < len,
                    s > 0,
            ;
        }
        parts.push(choice(control_bits[i / slice_size], left[i], right[i]));
        i += 1;
    }
    assert(parts@ =~= slice_parts(left@, right@, control_bits@, slice_size as int));
    Ok(reshare_products_send(prf, parts.as_slice()))
}

/// Second half of selecting between two vectors slice by slice: the left value where the control
/// bit is one, the right value where it is zero.
pub fn select_shared_slices_by_bits<T: IntRing2k>(right: &[Share<T>], own: &[T], received: &[T]) -> (
r: Vec<Share<T>>)
    requires
        own@.len() == right@.len(),
    ensures
        r@ == Seq::new(
            joined(own@, received@).len(),
            |i: int| joined(own@, received@)[i].plus_spec(right@[i]),
        ),
        r@.len() == if own@.len() <= received@.len() {
            own@.len()
        } else {
            received@.len()
        },
        forall|i: int|
            0 <= i < r@.len() ==> #[trigger] r@[i] == (Share {
                a: own@[i],
                b: received@[i],
            }).plus_spec(right@[i]),
{
    let products: Vec<Share<T>> = reshare_products(own, received);
    let mut out: Vec<Share<T>> = Vec::new();
    let mut i: usize = 0;
    while i < products.len()
        invariant
            own@.len() == right@.len(),
            products@ == joined(own@, received@),
            i <= products@.len(),
            out@.len() == i,
            forall|j: int| 0 <= j < i ==> #[trigger] out@[j] == products@[j].plus_spec(right@[j]),
        decreases products@.len() - i,
    {
        out.push(products[i].plus(right[i]));
        i += 1;
    }
    assert(out@ =~= Seq::new(
        joined(own@, received@).len(),
        |i: int| joined(own@, received@)[i].plus_spec(right@[i]),
    ));
    out
}

/// Distances side by side.
pub open spec fn paired<T>(left: Seq<(u32, DistanceShare<T>)>, right: Seq<(u32, DistanceShare<T>)>) -> Seq<
    DistancePair<T>,
> {
    Seq::new(left.len(), |i: int| (left[i].1, right[i].1))
}

fn pair_up<T: IntRing2k>(left: &[(u32, DistanceShare<T>)], right: &[(u32, DistanceShare<T>)]) -> (r:
    Vec<DistancePair<T>>)
    requires
        left@.len() == right@.len(),
    ensures
        r@ == paired(left@, right@),
{
    let mut out: Vec<DistancePair<T>> = Vec::new();
    let mut i: usize = 0;
    while i < left.len()
        invariant
            left@.len() == right@.len(),
            i <= left@.len(),
            out@.len() == i,
            forall|j: int| 0 <= j < i ==> #[trigger] out@[j] == (left@[j].1, right@[j].1),
        decreases left@.len() - i,
    {
        out.push((left[i].1, right[i].1));
        i += 1;
    }
    assert(out@ =~= paired(left@, right@));
    out
}

/// Why a selection between two vectors of distances cannot start.
pub open spec fn selection_error(left: nat, right: nat, control_bits: nat) -> Option<ProtocolError> {
    if left != control_bits || left != right {
        Some(ProtocolError::LengthMismatch)
    } else if left == 0 {
        Some(ProtocolError::EmptyInput)
    } else {
        None
    }
}

fn check_selection(left: usize, right: usize, control_bits: usize) -> (r: Result<
    (),
    ProtocolError,
>)
    ensures
        r == match selection_error(left as nat, right as nat, control_bits as nat) {
            Some(e) => Err::<(), ProtocolError>(e),
            None => Ok(()),
        },
{
    if left != control_bits {
        return Err(ProtocolError::LengthMismatch);
    }
    if left != right {
        return Err(ProtocolError::LengthMismatch);
    }
    if left == 0 {
        return Err(ProtocolError::EmptyInput);
    }
    Ok(())
}

/// First half of selecting distances with public identifiers: what goes to the next party.
#[verifier::rlimit(40)]
#[verifier::spinoff_prover]
pub fn conditionally_select_distances_with_plain_ids_send<T: IntRing2k + PrfDraw>(
    prf: &mut Prf,
    left: &[(u32, DistanceShare<T>)],
    right: &[(u32, DistanceShare<T>)],
    control_bits: &[Share<T>],
) -> (r: Result<Vec<T>, ProtocolError>)
    ensures
        match selection_error(left@.len(), right@.len(), control_bits@.len()) {
            Some(e) => r == Err::<Vec<T>, ProtocolError>(e) && *final(prf) == *old(prf),
            None => {
                &&& r is Ok
                &&& r->Ok_0@ == reshared_parts(
                    *old(prf),
                    distance_parts(paired(left@, right@), control_bits@),
                )
                &&& *final(prf) == old(prf).after::<T>(2 * left@.len() as int)
            },
        },
        left@.len() != right@.len() || left@.len() != control_bits@.len() ==> r == Err::<
            Vec<T>,
            ProtocolError,
        >(ProtocolError::LengthMismatch),
        left@.len() == 0 && right@.len() == 0 && control_bits@.len() == 0 ==> r == Err::<
            Vec<T>,
            ProtocolError,
        >(ProtocolError::EmptyInput),
        left@.len() == right@.len() && left@.len() == control_bits@.len() && left@.len() > 0
            ==> r is Ok,
        r is Ok ==> r->Ok_0@.len() == 2 * left@.len() && forall|i: int|
            0 <= i < left@.len() ==> {
                let (d1, d2) = ((#[trigger] left@[i]).1, right@[i].1);
                let c = control_bits@[i];
                &&& r->Ok_0@[2 * i] == reshared_part(
                    *old(prf),
                    c.product_spec(d1.code_dot.minus_spec(d2.code_dot)),
                    2 * i,
                )
                &&& r->Ok_0@[2 * i + 1] == reshared_part(
                    *old(prf),
                    c.product_spec(d1.mask_dot.minus_spec(d2.mask_dot)),
                    2 * i + 1,
                )
            },
{
    match check_selection(left.len(), right.len(), control_bits.len()) {
        Ok(_) => {},
        Err(e) => {
            return Err(e);
        },
    }
    let pairs: Vec<DistancePair<T>> = pair_up(left, right);
    let ghost start = *prf;
    let sent: Result<Vec<T>, ProtocolError> = conditionally_select_distance_send(
        prf,
        pairs.as_slice(),
        control_bits,
    );
    proof {
        assert forall|i: int| 0 <= i < left@.len() implies {
            let (d1, d2) = ((#[trigger] left@[i]).1, right@[i].1);
            &&& sent->Ok_0@[2 * i] == reshared_part(
                start,
                control_bits@[i].product_spec(d1.code_dot.minus_spec(d2.code_dot)),
                2 * i,
            )
            &&& sent->Ok_0@[2 * i + 1] == reshared_part(
                start,
                control_bits@[i].product_spec(d1.mask_dot.minus_spec(d2.mask_dot)),
                2 * i + 1,
            )
        } by {
            assert(pairs@[i] == (left@[i].1, right@[i].1));
        }
    }
    sent
}

/// The share of the selected identifier: `c * (left - right) + right`.
pub open spec fn selected_id<T: IntRing2k>(
    role: int,
    c: Share<T>,
    left_id: u32,
    right_id: u32,
) -> Share<T> {
    plus_const(
        role,
        c.times_spec(T::of_int(left_id - right_id)),
        T::of_int(right_id as int).val(),
    )
}

/// Second half of selecting distances with public identifiers. The identifiers are selected
/// without communication.
pub fn conditionally_select_distances_with_plain_ids<T: FromU32>(
    own_role: Role,
    left: &[(u32, DistanceShare<T>)],
    right: &[(u32, DistanceShare<T>)],
    control_bits: &[Share<T>],
    own: &[T],
    received: &[T],
) -> (r: Vec<IdDistance<T>>)
    requires
        left@.len() == right@.len(),
        left@.len() == control_bits@.len(),
        own@.len() == 2 * left@.len(),
    ensures
        r@ == Seq::new(
            (joined(own@, received@).len() / 2) as nat,
            |i: int|
                (
                    selected_id(
                        own_role.index as int,
                        control_bits@[i],
                        left@[i].0,
                        right@[i].0,
                    ),
                    selected_distance(paired(left@, right@)[i], joined(own@, received@), i),
                ),
        ),
        r@.len() == if own@.len() <= received@.len() {
            own@.len() / 2
        } else {
            received@.len() / 2
        },
        forall|i: int|
            0 <= i < r@.len() ==> (#[trigger] r@[i]).1.code_dot == (Share {
                a: own@[2 * i],
                b: received@[2 * i],
            }).plus_spec(right@[i].1.code_dot) && r@[i].1.mask_dot == (Share {
                a: own@[2 * i + 1],
                b: received@[2 * i + 1],
            }).plus_spec(right@[i].1.mask_dot),
        forall|i: int|
            0 <= i < r@.len() ==> (#[trigger] r@[i]).0 == plus_const(
                own_role.index as int,
                control_bits@[i].times_spec(T::of_int(left@[i].0 - right@[i].0)),
                T::of_int(right@[i].0 as int).val(),
            ),
{
    let pairs: Vec<DistancePair<T>> = pair_up(left, right);
    let distances: Vec<DistanceShare<T>> = conditionally_select_distance(
        pairs.as_slice(),
        own,
        received,
    );
    let mut out: Vec<IdDistance<T>> = Vec::new();
    let mut i: usize = 0;
    while i < distances.len()
        invariant
            left@.len() == right@.len(),
            left@.len() == control_bits@.len(),
            distances@.len() <= left@.len(),
            i <= distances@.len(),
            out@.len() == i,
            forall|j: int|
                0 <= j < i ==> #[trigger] out@[j] == (
                    selected_id(
                        own_role.index as int,
                        control_bits@[j],
                        left@[j].0,
                        right@[j].0,
                    ),
                    distances@[j],
                ),
        decreases distances@.len() - i,
    {
        let diff: T = T::from_u32(left[i].0).ring_sub(T::from_u32(right[i].0));
        proof {
            let (l, r) = (left@[i as int].0 as int, right@[i as int].0 as int);
            lemma_absorb::<T>(l, -T::of_int(r).val());
            lemma_absorb_sub::<T>(r, l);
        }
        let scaled: Share<T> = control_bits[i].times(diff);
        let id: Share<T> = add_const(own_role, scaled, T::from_u32(right[i].0));
        out.push((id, distances[i]));
        i += 1;
    }
    assert(out@ =~= Seq::new(
        (joined(own@, received@).len() / 2) as nat,
        |i: int|
            (
                selected_id(own_role.index as int, control_bits@[i], left@[i].0, right@[i].0),
                selected_distance(paired(left@, right@)[i], joined(own@, received@), i),
            ),
    ));
    out
}

/// The selected identifier is the left one where the control bit is one, else the right one.
pub proof fn lemma_selected_id<T: IntRing2k>(
    c: (Share<T>, Share<T>, Share<T>),
    left_id: u32,
    right_id: u32,
    b: bool,
)
    requires
        consistent(c.0, c.1, c.2),
        sum_value(c.0, c.1, c.2) == T::of_int(bit_int(b)),
    ensures
        consistent(
            selected_id(0, c.0, left_id, right_id),
            selected_id(1, c.1, left_id, right_id),
            selected_id(2, c.2, left_id, right_id),
        ),
        sum_value(
            selected_id(0, c.0, left_id, right_id),
            selected_id(1, c.1, left_id, right_id),
            selected_id(2, c.2, left_id, right_id),
        ) == T::of_int(
            if b {
                left_id as int
            } else {
                right_id as int
            },
        ),
{
    let d = T::of_int(left_id - right_id);
    let r = T::of_int(right_id as int).val();
    lemma_bit_times_plus(c, d, r, b);
    lemma_absorb::<T>(left_id - right_id, r);
    lemma_absorb::<T>(right_id as int, left_id - right_id);
    T::of_int(right_id as int).law_val();
}

/// A shared bit times a public value, plus another public value.
proof fn lemma_bit_times_plus<T: IntRing2k>(
    c: (Share<T>, Share<T>, Share<T>),
    d: T,
    r: int,
    b: bool,
)
    requires
        consistent(c.0, c.1, c.2),
        sum_value(c.0, c.1, c.2) == T::of_int(bit_int(b)),
    ensures
        ({
            let (s0, s1, s2) = (
                plus_const(0, c.0.times_spec(d), r),
                plus_const(1, c.1.times_spec(d), r),
                plus_const(2, c.2.times_spec(d), r),
            );
            &&& consistent(s0, s1, s2)
            &&& sum_value(s0, s1, s2) == T::of_int(if b {
                d.val() + r
            } else {
                r
            })
        }),
{
    lemma_times_value(c, d);
    lemma_plus_const_value(c.0.times_spec(d), c.1.times_spec(d), c.2.times_spec(d), r);
    T::law_modulus();
    lemma_small::<T>(bit_int(b));
    d.law_val();
    assert(bit_int(b) * d.val() == if b {
        d.val()
    } else {
        0
    });
    lemma_small::<T>(0);
}

/// Identifier, code and mask part of every distance one after the other.
pub open spec fn id_triples<T>(list: Seq<IdDistance<T>>) -> Seq<Share<T>> {
    Seq::new(
        3 * list.len(),
        |i: int|
            {
                let (id, d) = list[i / 3];
                if i % 3 == 0 {
                    id
                } else if i % 3 == 1 {
                    d.code_dot
                } else {
                    d.mask_dot
                }
            },
    )
}

fn flatten_ids<T: IntRing2k>(list: &[IdDistance<T>]) -> (r: Vec<Share<T>>)
    ensures
        r@ == id_triples(list@),
        r@.len() == 3 * list@.len(),
        forall|i: int|
            0 <= i < list@.len() ==> r@[3 * i] == (#[trigger] list@[i]).0 && r@[3 * i + 1]
                == list@[i].1.code_dot && r@[3 * i + 2] == list@[i].1.mask_dot,
{
    let mut out: Vec<Share<T>> = Vec::new();
    let mut i: usize = 0;
    while i < list.len()
        invariant
            i <= list@.len(),
            out@.len() == 3 * i,
            forall|j: int| 0 <= j < 3 * i ==> #[trigger] out@[j] == id_triples(list@)[j],
        decreases list@.len() - i,
    {
        let (id, d) = list[i];
        out.push(id);
        out.push(d.code_dot);
        out.push(d.mask_dot);
        proof {
            assert((3 * i) / 3 == i && (3 * i) % 3 == 0);
            assert((3 * i + 1) / 3 == i && (3 * i + 1) % 3 == 1);
            assert((3 * i + 2) / 3 == i && (3 * i + 2) % 3 == 2);
        }
        i += 1;
    }
    assert(out@ =~= id_triples(list@));
    out
}

/// First half of selecting distances with shared identifiers: what goes to the next party.
#[verifier::rlimit(40)]
#[verifier::spinoff_prover]
pub fn conditionally_select_distances_with_shared_ids_send<T: IntRing2k + PrfDraw>(
    prf: &mut Prf,
    left: &[IdDistance<T>],
    right: &[IdDistance<T>],
    control_bits: &[Share<T>],
) -> (r: Result<Vec<T>, ProtocolError>)
    ensures
        match selection_error(left@.len(), right@.len(), control_bits@.len()) {
            Some(e) => r == Err::<Vec<T>, ProtocolError>(e) && *final(prf) == *old(prf),
            None => {
                &&& r is Ok
                &&& r->Ok_0@ == reshared_parts(
                    *old(prf),
                    slice_parts(id_triples(left@), id_triples(right@), control_bits@, 3),
                )
                &&& *final(prf) == old(prf).after::<T>(3 * left@.len() as int)
            },
        },
        left@.len() != right@.len() || left@.len() != control_bits@.len() ==> r == Err::<
            Vec<T>,
            ProtocolError,
        >(ProtocolError::LengthMismatch),
        left@.len() == 0 && right@.len() == 0 && control_bits@.len() == 0 ==> r == Err::<
            Vec<T>,
            ProtocolError,
        >(ProtocolError::EmptyInput),
        left@.len() == right@.len() && left@.len() == control_bits@.len() && left@.len() > 0
            ==> r is Ok,
        r is Ok ==> r->Ok_0@.len() == 3 * left@.len() && forall|i: int|
            0 <= i < left@.len() ==> {
                let ((id1, d1), (id2, d2)) = (#[trigger] left@[i], right@[i]);
                let c = control_bits@[i];
                &&& r->Ok_0@[3 * i] == reshared_part(
                    *old(prf),
                    c.product_spec(id1.minus_spec(id2)),
                    3 * i,
                )
                &&& r->Ok_0@[3 * i + 1] == reshared_part(
                    *old(prf),
                    c.product_spec(d1.code_dot.minus_spec(d2.code_dot)),
                    3 * i + 1,
                )
                &&& r->Ok_0@[3 * i + 2] == reshared_part(
                    *old(prf),
                    c.product_spec(d1.mask_dot.minus_spec(d2.mask_dot)),
                    3 * i + 2,
                )
            },
{
    match check_selection(left.len(), right.len(), control_bits.len()) {
        Ok(_) => {},
        Err(e) => {
            return Err(e);
        },
    }
    let l: Vec<Share<T>> = flatten_ids(left);
    let r: Vec<Share<T>> = flatten_ids(right);
    let ghost start = *prf;
    let sent: Result<Vec<T>, ProtocolError> = select_shared_slices_by_bits_send(
        prf,
        l.as_slice(),
        r.as_slice(),
        control_bits,
        3,
    );
    proof {
        let out = sent->Ok_0@;
        assert forall|i: int| 0 <= i < left@.len() implies {
            let ((id1, d1), (id2, d2)) = (#[trigger] left@[i], right@[i]);
            let c = control_bits@[i];
            &&& out[3 * i] == reshared_part(start, c.product_spec(id1.minus_spec(id2)), 3 * i)
            &&& out[3 * i + 1] == reshared_part(
                start,
                c.product_spec(d1.code_dot.minus_spec(d2.code_dot)),
                3 * i + 1,
            )
            &&& out[3 * i + 2] == reshared_part(
                start,
                c.product_spec(d1.mask_dot.minus_spec(d2.mask_dot)),
                3 * i + 2,
            )
        } by {
            assert(right@[i] == right@[i]);
            assert((3 * i) / 3 == i && (3 * i + 1) / 3 == i && (3 * i + 2) / 3 == i);
        }
    }
    sent
}

/// Second half of selecting distances with shared identifiers.
pub fn conditionally_select_distances_with_shared_ids<T: IntRing2k>(
    right: &[IdDistance<T>],
    own: &[T],
    received: &[T],
) -> (r: Vec<IdDistance<T>>)
    requires
        own@.len() == 3 * right@.len(),
    ensures
        ({
            let p = joined(own@, received@);
            r@ == Seq::new(
                (p.len() / 3) as nat,
                |i: int|
                    (
                        p[3 * i].plus_spec(right@[i].0),
                        DistanceShare {
                            code_dot: p[3 * i + 1].plus_spec(right@[i].1.code_dot),
                            mask_dot: p[3 * i + 2].plus_spec(right@[i].1.mask_dot),
                        },
                    ),
            )
        }),
        r@.len() == if own@.len() <= received@.len() {
            own@.len() / 3
        } else {
            received@.len() / 3
        },
        forall|i: int|
            0 <= i < r@.len() ==> (#[trigger] r@[i]).0 == (Share {
                a: own@[3 * i],
                b: received@[3 * i],
            }).plus_spec(right@[i].0) && r@[i].1.code_dot == (Share {
                a: own@[3 * i + 1],
                b: received@[3 * i + 1],
            }).plus_spec(right@[i].1.code_dot) && r@[i].1.mask_dot == (Share {
                a: own@[3 * i + 2],
                b: received@[3 * i + 2],
            }).plus_spec(right@[i].1.mask_dot),
{
    let flat: Vec<Share<T>> = flatten_ids(right);
    let chosen: Vec<Share<T>> = select_shared_slices_by_bits(flat.as_slice(), own, received);
    let ghost p = joined(own@, received@);
    let total: usize = chosen.len();
    let n: usize = total / 3;
    let mut out: Vec<IdDistance<T>> = Vec::new();
    let mut i: usize = 0;
    while i < n
        invariant
            p == joined(own@, received@),
            own@.len() == 3 * right@.len(),
            total == chosen@.len(),
            total == p.len(),
            n == total / 3,
            chosen@ == Seq::new(p.len(), |j: int| p[j].plus_spec(id_triples(right@)[j])),
            i <= n,
            out@.len() == i,
            forall|j: int|
                0 <= j < i ==> #[trigger] out@[j] == (
                    p[3 * j].plus_spec(right@[j].0),
                    DistanceShare {
                        code_dot: p[3 * j + 1].plus_spec(right@[j].1.code_dot),
                        mask_dot: p[3 * j + 2].plus_spec(right@[j].1.mask_dot),
                    },
                ),
        decreases n - i,
    {
        proof {
            assert((3 * i) / 3 == i && (3 * i) % 3 == 0);
            assert((3 * i + 1) / 3 == i && (3 * i + 1) % 3 == 1);
            assert((3 * i + 2) / 3 == i && (3 * i + 2) % 3 == 2);
        }
        let id: Share<T> = chosen[3 * i];
        let code_dot: Share<T> = chosen[3 * i + 1];
        let mask_dot: Share<T> = chosen[3 * i + 2];
        out.push((id, DistanceShare { code_dot, mask_dot }));
        i += 1;
    }
    assert(out@ =~= Seq::new(
        (p.len() / 3) as nat,
        |i: int|
            (
                p[3 * i].plus_spec(right@[i].0),
                DistanceShare {
                    code_dot: p[3 * i + 1].plus_spec(right@[i].1.code_dot),
                    mask_dot: p[3 * i + 2].plus_spec(right@[i].1.mask_dot),
                },
            ),
    ));
    out
}

} // verus!
