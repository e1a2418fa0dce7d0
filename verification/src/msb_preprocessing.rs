//! Extraction of the most significant bit of a replicated 8-bit value with preprocessed
//! randomness.
//!
//! The steps are those of the additive extraction, done for both parts that a party holds. The
//! comparison runs over the field with 19 elements between roles 0 and 1, with role 2 as dealer.

use crate::bitlt::{
    difference, dot, form_test_values, lemma_comparison_correct, low_bits, mask_shares,
    masked_shares, num, public_bits, rotated_back, select_public_bit, test_values,
};
use crate::message::{packed, unpacked, NetworkValue, ProtocolError};
use crate::msb_dealer_helpers::{
    add_primes, all_in_field, bin_to_primefield16, check_field, dealt_bits, dealt_primes,
    primefield16_to_bin_one_hot, receive_primes, send_prime16_shares_to_dealer,
    sum_primes, to_dealer, Exchange,
};
use crate::msb_offline_randomness::{offline_valid, OfflineView};
use crate::msb_preprocessing_additive::{
    comparison_run, finish_msb_of_parts, lemma_extract_msb_correct, masked_msb,
    masked_msb_of_parts, msb_share, top, total,
};
use crate::player::Role;
use crate::prf::{in_step, lemma_binary_zero_shares_cancel, Prf, PrfDraw};
use crate::primefield::PrimeElement;
use crate::ring::{bit_int, IntRing2k};
use crate::ring_lemmas::{bit, lemma_absorb, lemma_small, zero};
use crate::shares::{consistent, sum_value, xor_value, Share};
use vstd::prelude::*;

verus! {

/// The modulus of the field that 8-bit comparisons run over.
pub const MOD19: u16 = 19;

/// The randomness of one party: shares of a random element, of its bits with the most significant
/// one first, and of a random bit.
#[derive(Debug)]
pub struct OfflineRandomShares<T> {
    pub r: Share<T>,
    pub r_bits: Vec<Share<bool>>,
    pub b_bit: Share<T>,
}

impl<T> OfflineRandomShares<T> {
    /// The first parts.
    pub open spec fn first(self) -> OfflineView<T> {
        OfflineView {
            r: self.r.a,
            r_bits: self.r_bits@.map_values(|s: Share<bool>| s.a),
            b_bit: self.b_bit.a,
        }
    }

    /// The second parts.
    pub open spec fn second(self) -> OfflineView<T> {
        OfflineView {
            r: self.r.b,
            r_bits: self.r_bits@.map_values(|s: Share<bool>| s.b),
            b_bit: self.b_bit.b,
        }
    }
}

/// Part `i` of the fixed random element.
pub open spec fn fixed_r(i: int) -> u8 {
    if i == 0 {
        57
    } else if i == 1 {
        200
    } else {
        181
    }
}

/// Part `i` of the fixed random bit.
pub open spec fn fixed_b(i: int) -> u8 {
    if i == 0 {
        34
    } else if i == 1 {
        79
    } else {
        144
    }
}

/// Part `i` of the bits of the fixed random element, most significant bit first.
pub open spec fn fixed_bits(i: int) -> Seq<bool> {
    if i == 0 {
        seq![false, true, true, false, true, false, true, false]
    } else if i == 1 {
        seq![true, true, false, false, false, true, true, true]
    } else {
        seq![false, false, false, true, true, false, true, true]
    }
}

fn bits_part(i: usize) -> (r: [bool; 8])
    requires
        i < 3,
    ensures
        r@ == fixed_bits(i as int),
{
    let r: [bool; 8] = if i == 0 {
        [false, true, true, false, true, false, true, false]
    } else if i == 1 {
        [true, true, false, false, false, true, true, true]
    } else {
        [false, false, false, true, true, false, true, true]
    };
    assert(r@ =~= fixed_bits(i as int));
    r
}

/// The fixed randomness of a role.
pub fn offline_shares_for_role(role: Role) -> (r: Result<OfflineRandomShares<u8>, ProtocolError>)
    ensures
        role.index >= 3 ==> r == Err::<OfflineRandomShares<u8>, ProtocolError>(
            ProtocolError::UnsupportedRole,
        ),
        role.index < 3 ==> {
            let (i, j) = (role.index as int, (role.index + 2) % 3);
            &&& r is Ok
            &&& r->Ok_0.first() == (OfflineView {
                r: fixed_r(i),
                r_bits: fixed_bits(i),
                b_bit: fixed_b(i),
            })
            &&& r->Ok_0.second() == (OfflineView {
                r: fixed_r(j),
                r_bits: fixed_bits(j),
                b_bit: fixed_b(j),
            })
        },
        role.index == 0 ==> {
            let o = r->Ok_0;
            &&& o.r == (Share { a: 57u8, b: 181u8 }) && o.b_bit == (Share { a: 34u8, b: 144u8 })
            &&& o.r_bits@.map_values(|s: Share<bool>| s.a)
                == seq![false, true, true, false, true, false, true, false]
        },
        role.index == 1 ==> {
            let o = r->Ok_0;
            &&& o.r == (Share { a: 200u8, b: 57u8 }) && o.b_bit == (Share { a: 79u8, b: 34u8 })
            &&& o.r_bits@.map_values(|s: Share<bool>| s.a)
                == seq![true, true, false, false, false, true, true, true]
        },
        role.index == 2 ==> {
            let o = r->Ok_0;
            &&& o.r == (Share { a: 181u8, b: 200u8 }) && o.b_bit == (Share { a: 144u8, b: 79u8 })
            &&& o.r_bits@.map_values(|s: Share<bool>| s.a)
                == seq![false, false, false, true, true, false, true, true]
        },
{
    let rs: [u8; 3] = [57, 200, 181];
    let bs: [u8; 3] = [34, 79, 144];
    if role.index >= 3 {
        return Err(ProtocolError::UnsupportedRole);
    }
    let i: usize = role.index;
    let j: usize = if i == 0 {
        2
    } else {
        i - 1
    };
    let own: [bool; 8] = bits_part(i);
    let prev: [bool; 8] = bits_part(j);
    let mut r_bits: Vec<Share<bool>> = Vec::new();
    let mut k: usize = 0;
    while k < 8
        invariant
            k <= 8,
            r_bits@.len() == k,
            forall|m: int|
                0 <= m < k ==> #[trigger] r_bits@[m] == (Share { a: own@[m], b: prev@[m] }),
        decreases 8 - k,
    {
        r_bits.push(Share { a: own[k], b: prev[k] });
        k += 1;
    }
    let out = OfflineRandomShares {
        r: Share { a: rs[i], b: rs[j] },
        r_bits,
        b_bit: Share { a: bs[i], b: bs[j] },
    };
    assert(out.first().r_bits =~= fixed_bits(i as int));
    assert(out.second().r_bits =~= fixed_bits(j as int));
    Ok(out)
}

proof fn lemma_bits_of_182()
    ensures
        bit(182u8, 7) && !bit(182u8, 6) && bit(182u8, 5) && bit(182u8, 4),
        !bit(182u8, 3) && bit(182u8, 2) && bit(182u8, 1) && !bit(182u8, 0),
{
    vstd::arithmetic::power2::lemma2_to64();
    assert(182int / 128 == 1 && 182int / 64 == 2 && 182int / 32 == 5 && 182int / 16 == 11);
    assert(182int / 8 == 22 && 182int / 4 == 45 && 182int / 2 == 91 && 182int / 1 == 182);
}

/// The fixed randomness is valid: the bits are those of the element 182, and the shared bit is 1.
pub proof fn lemma_fixed_randomness_valid()
    ensures
        ({
            let (o0, o1, o2) = (
                OfflineView { r: fixed_r(0), r_bits: fixed_bits(0), b_bit: fixed_b(0) },
                OfflineView { r: fixed_r(1), r_bits: fixed_bits(1), b_bit: fixed_b(1) },
                OfflineView { r: fixed_r(2), r_bits: fixed_bits(2), b_bit: fixed_b(2) },
            );
            &&& offline_valid(o0, o1, o2)
            &&& total(o0.r, o1.r, o2.r) == 182
            &&& total(o0.b_bit, o1.b_bit, o2.b_bit) == 1
        }),
{
    let (o0, o1, o2) = (
        OfflineView { r: fixed_r(0), r_bits: fixed_bits(0), b_bit: fixed_b(0) },
        OfflineView { r: fixed_r(1), r_bits: fixed_bits(1), b_bit: fixed_b(1) },
        OfflineView { r: fixed_r(2), r_bits: fixed_bits(2), b_bit: fixed_b(2) },
    );
    vstd::arithmetic::power2::lemma2_to64();
    let r = total(o0.r, o1.r, o2.r);
    assert(r == 182);
    assert forall|i: int| 0 <= i < 8 implies ((#[trigger] o0.r_bits[i] != o1.r_bits[i])
        != o2.r_bits[i]) == low_bits(r, 8)[i] by {
        assert(low_bits(r, 8)[i] == bit(r, (7 - i) as nat));
        lemma_bits_of_182();
        assert(i == 0 || i == 1 || i == 2 || i == 3 || i == 4 || i == 5 || i == 6 || i == 7);
    }
}

/// The additive share of two that a role keeps of a replicated share: role 0 keeps both parts,
/// role 1 its own one, role 2 nothing.
pub open spec fn add2_share<T: IntRing2k>(role: int, x: Share<T>) -> T {
    if role == 0 {
        T::of_int(x.a.val() + x.b.val())
    } else if role == 1 {
        x.a
    } else {
        zero::<T>()
    }
}

/// Turns a replicated share into an additive share between roles 0 and 1.
pub fn rep_to_add2<T: IntRing2k>(own_role: Role, rep_share: Share<T>) -> (r: Result<
    T,
    ProtocolError,
>)
    ensures
        r == if own_role.index < 3 {
            Ok::<T, ProtocolError>(add2_share(own_role.index as int, rep_share))
        } else {
            Err(ProtocolError::UnsupportedRole)
        },
        own_role.index == 0 ==> r == Ok::<T, ProtocolError>(
            T::of_int(rep_share.a.val() + rep_share.b.val()),
        ),
        own_role.index == 1 ==> r == Ok::<T, ProtocolError>(rep_share.a),
        own_role.index == 2 ==> r == Ok::<T, ProtocolError>(T::of_int(0)),
{
    match own_role.index {
        0 => Ok(rep_share.a.ring_add(rep_share.b)),
        1 => Ok(rep_share.a),
        2 => Ok(T::from_bit(false)),
        _ => Err(ProtocolError::UnsupportedRole),
    }
}

/// The additive shares of roles 0 and 1 add up to the shared value.
pub proof fn lemma_rep_to_add2<T: IntRing2k>(x0: Share<T>, x1: Share<T>, x2: Share<T>)
    requires
        consistent(x0, x1, x2),
    ensures
        T::of_int(
            add2_share(0, x0).val() + add2_share(1, x1).val() + add2_share(2, x2).val(),
        ) == sum_value(x0, x1, x2),
{
    T::law_modulus();
    lemma_small::<T>(0);
    lemma_absorb::<T>(x0.a.val() + x0.b.val(), x1.a.val());
}

/// First half of turning an additive bit share into a replicated one: masks the own share, which
/// goes to the next party.
pub fn add2_to_rep_binary_send(own_role: Role, prf: &mut Prf, share: bool) -> (r: Result<
    bool,
    ProtocolError,
>)
    ensures
        own_role.index >= 3 ==> r == Err::<bool, ProtocolError>(ProtocolError::UnsupportedRole)
            && *final(prf) == *old(prf),
        own_role.index < 3 ==> r == Ok::<bool, ProtocolError>(
            share != old(prf).binary_zero_share::<bool>(),
        ) && *final(prf) == old(prf).after::<bool>(1),
        own_role.index < 3 ==> r == Ok::<bool, ProtocolError>(
            share != (bool::drawn(old(prf).my_prf) != bool::drawn(old(prf).prev_prf)),
        ),
{
    if own_role.index >= 3 {
        return Err(ProtocolError::UnsupportedRole);
    }
    let nil: bool = prf.gen_binary_zero_share();
    Ok(share != nil)
}

/// Second half of turning an additive bit share into a replicated one, with the message of the
/// previous party.
pub fn add2_to_rep_binary(own: bool, from_prev: &NetworkValue) -> (r: Result<
    Share<bool>,
    ProtocolError,
>)
    ensures
        r == match *from_prev {
            NetworkValue::RingElementBit(prev) => Ok::<Share<bool>, ProtocolError>(
                Share { a: own, b: prev },
            ),
            _ => Err(ProtocolError::WrongValueType),
        },
{
    match from_prev {
        NetworkValue::RingElementBit(prev) => Ok(Share { a: own, b: *prev }),
        _ => Err(ProtocolError::WrongValueType),
    }
}

/// The replicated shares are consistent shares of the bit.
pub proof fn lemma_add2_to_rep_binary(p0: Prf, p1: Prf, p2: Prf, x0: bool, x1: bool, x2: bool)
    requires
        in_step(p0, p1, p2),
    ensures
        ({
            let (a, b, c) = (
                x0 != p0.binary_zero_share::<bool>(),
                x1 != p1.binary_zero_share::<bool>(),
                x2 != p2.binary_zero_share::<bool>(),
            );
            let (s0, s1, s2) = (Share { a, b: c }, Share { a: b, b: a }, Share { a: c, b });
            consistent(s0, s1, s2) && xor_value(s0, s1, s2) == ((x0 != x1) != x2)
        }),
{
    lemma_binary_zero_shares_cancel::<bool>(p0, p1, p2);
}

/// The dealer turns bits into additive shares over the field with 19 elements.
pub fn bin_to_primefield(own_role: Role, values: &[bool], rands: &[PrimeElement]) -> (r: Result<
    Exchange,
    ProtocolError,
>)
    requires
        own_role.index == 2 ==> rands@.len() == values@.len() && all_in_field(rands@, MOD19),
    ensures
        match own_role.index {
            0 => r == Ok::<Exchange, ProtocolError>(Exchange::ReceivePrev),
            1 => r == Ok::<Exchange, ProtocolError>(Exchange::ReceiveNext),
            2 => {
                &&& r is Ok
                &&& r->Ok_0 is SendBoth
                &&& packed(dealt_primes(values@, rands@, MOD19), r->Ok_0->next)
                &&& packed(rands@, r->Ok_0->prev)
            },
            _ => r == Err::<Exchange, ProtocolError>(ProtocolError::UnsupportedRole),
        },
{
    bin_to_primefield16(own_role, values, rands, MOD19)
}

/// The elements of a message, if they are elements of the field with 19 elements.
pub open spec fn mod19_batch(msg: NetworkValue, single: bool) -> Result<
    Seq<PrimeElement>,
    ProtocolError,
> {
    match unpacked::<PrimeElement>(msg, single) {
        None => Err(ProtocolError::WrongValueType),
        Some(batch) => if all_in_field(batch, MOD19) {
            Ok(batch)
        } else {
            Err(ProtocolError::WrongModulus)
        },
    }
}

/// Takes elements of the field with 19 elements out of the message of the dealer.
pub fn receive_mod19(msg: &NetworkValue, single: bool) -> (r: Result<
    Vec<PrimeElement>,
    ProtocolError,
>)
    ensures
        match mod19_batch(*msg, single) {
            Ok(batch) => r is Ok && r->Ok_0@ == batch,
            Err(e) => r == Err::<Vec<PrimeElement>, ProtocolError>(e),
        },
        match unpacked::<PrimeElement>(*msg, single) {
            None => r == Err::<Vec<PrimeElement>, ProtocolError>(ProtocolError::WrongValueType),
            Some(batch) => if forall|i: int|
                0 <= i < batch.len() ==> (#[trigger] batch[i]).modulus == 19 && batch[i].value
                    < 19 {
                r is Ok && r->Ok_0@ == batch
            } else {
                r == Err::<Vec<PrimeElement>, ProtocolError>(ProtocolError::WrongModulus)
            },
        },
{
    let batch: Vec<PrimeElement> = match receive_primes(msg, single) {
        Ok(v) => v,
        Err(e) => {
            return Err(e);
        },
    };
    if check_field(batch.as_slice(), MOD19) {
        Ok(batch)
    } else {
        Err(ProtocolError::WrongModulus)
    }
}

/// The dealer turns elements of the field with 19 elements into shares of the bits that say which
/// of them are zero.
pub fn primefield_to_bin_one_hot(own_role: Role, values: &[PrimeElement], rands: &[bool]) -> (r:
    Result<Exchange, ProtocolError>)
    requires
        own_role.index == 2 ==> rands@.len() == values@.len(),
    ensures
        match own_role.index {
            0 => r == Ok::<Exchange, ProtocolError>(Exchange::ReceivePrev),
            1 => r == Ok::<Exchange, ProtocolError>(Exchange::ReceiveNext),
            2 => {
                &&& r is Ok
                &&& r->Ok_0 is SendBoth
                &&& packed(dealt_bits(values@, rands@), r->Ok_0->next)
                &&& packed(rands@, r->Ok_0->prev)
            },
            _ => r == Err::<Exchange, ProtocolError>(ProtocolError::UnsupportedRole),
        },
{
    primefield16_to_bin_one_hot(own_role, values, rands)
}

/// The compute roles send their shares over the field with 19 elements to the dealer.
pub fn send_prime_shares_to_dealer(own_role: Role, shares: &[PrimeElement]) -> (r: Result<
    Exchange,
    ProtocolError,
>)
    ensures
        to_dealer(own_role, shares@, r),
{
    send_prime16_shares_to_dealer(own_role, shares)
}

/// The dealer adds up the shares over the field with 19 elements.
pub fn combine_prime_shares(from_prev: &NetworkValue, from_next: &NetworkValue, single: bool) -> (r:
    Result<Vec<PrimeElement>, ProtocolError>)
    ensures
        match mod19_batch(*from_prev, single) {
            Err(e) => r == Err::<Vec<PrimeElement>, ProtocolError>(e),
            Ok(a) => match mod19_batch(*from_next, single) {
                Err(e) => r == Err::<Vec<PrimeElement>, ProtocolError>(e),
                Ok(b) => {
                    &&& r is Ok
                    &&& r->Ok_0@ == sum_primes(a, b, MOD19)
                    &&& all_in_field(r->Ok_0@, MOD19)
                },
            },
        },
{
    let a: Vec<PrimeElement> = match receive_mod19(from_prev, single) {
        Ok(v) => v,
        Err(e) => {
            return Err(e);
        },
    };
    let b: Vec<PrimeElement> = match receive_mod19(from_next, single) {
        Ok(v) => v,
        Err(e) => {
            return Err(e);
        },
    };
    let r = add_primes(a.as_slice(), b.as_slice());
    assert(r is Ok && r->Ok_0@ == sum_primes(a@, b@, MOD19));
    r
}

/// Opens a single additive 8-bit share.
pub fn open_additive_share_u8(share: u8, from_prev: &NetworkValue, from_next: &NetworkValue) -> (r:
    Result<u8, ProtocolError>)
    ensures
        r == match (*from_prev, *from_next) {
            (NetworkValue::RingElement8(b), NetworkValue::RingElement8(c)) => Ok::<
                u8,
                ProtocolError,
            >(u8::of_int(share + b + c)),
            _ => Err(ProtocolError::WrongValueType),
        },
{
    match (from_prev, from_next) {
        (NetworkValue::RingElement8(b), NetworkValue::RingElement8(c)) => {
            let s: u8 = share.wrapping_add(*b);
            Ok(s.wrapping_add(*c))
        },
        _ => Err(ProtocolError::WrongValueType),
    }
}

/// First step of comparing a shared number with a public one: the message to the dealer. The
/// shared number gets a set bit appended and the public one an unset bit, so that they differ and
/// the shared one counts as larger when they were equal.
pub fn bitlt_mask<T: IntRing2k>(
    own_role: Role,
    shares: &[bool],
    public_value: T,
    masks: &[bool],
) -> (r: Vec<bool>)
    requires
        shares@.len() <= T::bits(),
        masks@.len() == shares@.len() + 1,
    ensures
        r@ == masked_shares(
            own_role.index == 0,
            shares@.push(own_role.index == 0),
            low_bits(public_value, shares@.len()).push(false),
            masks@,
        ),
{
    let public: Vec<bool> = public_bits(public_value, shares.len(), false);
    let mut scaled: Vec<bool> = vstd::slice::slice_to_vec(shares);
    scaled.push(own_role.index == 0);
    mask_shares(own_role.index == 0, scaled.as_slice(), public.as_slice(), masks)
}

/// Second step: the test values that go to the dealer.
pub fn bitlt_test(
    own_role: Role,
    dealt: &[PrimeElement],
    masks: &[bool],
    scalars: &[PrimeElement],
    shift: usize,
) -> (r: Vec<PrimeElement>)
    requires
        dealt@.len() == masks@.len() == scalars@.len(),
        dealt@.len() < usize::MAX / 2,
        shift < dealt@.len(),
        all_in_field(dealt@, MOD19),
        all_in_field(scalars@, MOD19),
    ensures
        r@ == test_values(own_role.index == 0, dealt@, masks@, scalars@, shift as nat, MOD19),
        all_in_field(r@, MOD19),
{
    form_test_values(own_role.index == 0, dealt, masks, scalars, shift, MOD19)
}

/// The share of the result that a compute role ends with.
pub open spec fn bitlt_share<T: IntRing2k>(marks: Seq<bool>, public_value: T, shift: nat) -> bool {
    dot(
        rotated_back(marks, shift),
        low_bits(public_value, (marks.len() - 1) as nat).push(false),
        marks.len(),
    )
}

/// Last step: the share of whether the shared number is smaller than the public one.
pub fn bitlt<T: IntRing2k>(own_role: Role, marks: &[bool], public_value: T, shift: usize) -> (r:
    bool)
    requires
        1 <= marks@.len() <= T::bits() + 1,
        shift < marks@.len(),
    ensures
        r == (own_role.index <= 1 && bitlt_share(marks@, public_value, shift as nat)),
        r == (own_role.index <= 1 && dot(
            rotated_back(marks@, shift as nat),
            low_bits(public_value, (marks@.len() - 1) as nat).push(false),
            marks@.len(),
        )),
{
    if own_role.index > 1 {
        return false;
    }
    let public: Vec<bool> = public_bits(public_value, marks.len() - 1, false);
    select_public_bit(marks, public.as_slice(), shift)
}

/// The comparison is correct: with correctly dealt field shares and marks, the two result shares
/// differ exactly if the shared number is smaller than the public one.
pub proof fn lemma_bitlt_correct<T: IntRing2k>(
    shares_0: Seq<bool>,
    shares_1: Seq<bool>,
    public_value: T,
    masks: Seq<bool>,
    scalars: Seq<PrimeElement>,
    shift: nat,
    dealt_0: Seq<PrimeElement>,
    dealt_1: Seq<PrimeElement>,
    marks_0: Seq<bool>,
    marks_1: Seq<bool>,
    p: u16,
)
    requires
        comparison_run(
            shares_0.push(true),
            shares_1.push(false),
            low_bits(public_value, shares_0.len()).push(false),
            masks,
            scalars,
            shift,
            dealt_0,
            dealt_1,
            marks_0,
            marks_1,
            p,
        ),
        shares_0.len() <= T::bits(),
    ensures
        (bitlt_share(marks_0, public_value, shift) != bitlt_share(marks_1, public_value, shift))
            == (num(difference(shares_0, shares_1)) < num(low_bits(public_value, shares_0.len()))),
{
    let n = shares_0.len();
    let low = low_bits(public_value, n);
    let public = low.push(false);
    let private = difference(shares_0.push(true), shares_1.push(false));
    assert(private[n as int] != public[n as int]);
    lemma_comparison_correct(
        shares_0.push(true),
        shares_1.push(false),
        public,
        masks,
        scalars,
        shift,
        dealt_0,
        dealt_1,
        marks_0,
        marks_1,
        p,
    );
    assert(public.drop_last() =~= low);
    assert(private.drop_last() =~= difference(shares_0, shares_1));
}

/// First step of the extraction: the share of the masked value, which is opened.
pub fn extract_msb_rand_mask<T: IntRing2k>(x: Share<T>, offline: &OfflineRandomShares<T>) -> (r:
    Share<T>)
    ensures
        r == x.plus_spec(offline.r),
{
    x.plus(offline.r)
}

/// The share of the most significant bit, moved to the top and masked with the random bit, which
/// is opened. It takes the low part of the opened masked value and the replicated share of
/// whether that is smaller than the low part of the mask.
pub fn extract_msb_rand_unmask<T: IntRing2k>(
    own_role: Role,
    x: Share<T>,
    offline: &OfflineRandomShares<T>,
    c_prime: T,
    borrow: Share<bool>,
) -> (r: Share<T>)
    requires
        offline.r_bits@.len() == T::bits(),
    ensures
        r.a == masked_msb(own_role.index == 0, x.a, offline.first(), c_prime, borrow.a),
        r.b == masked_msb(own_role.index == 1, x.b, offline.second(), c_prime, borrow.b),
{
    proof {
        T::law_modulus();
    }
    let top_bit: Share<bool> = offline.r_bits[0];
    let a: T = masked_msb_of_parts(
        own_role.index == 0,
        x.a,
        offline.r.a,
        top_bit.a,
        offline.b_bit.a,
        c_prime,
        borrow.a,
    );
    let b: T = masked_msb_of_parts(
        own_role.index == 1,
        x.b,
        offline.r.b,
        top_bit.b,
        offline.b_bit.b,
        c_prime,
        borrow.b,
    );
    Share { a, b }
}

/// Last step: the share of the most significant bit, from the opened masked bit `e`.
pub fn extract_msb_rand<T: IntRing2k>(own_role: Role, offline: &OfflineRandomShares<T>, e: T) -> (r:
    Share<T>)
    ensures
        r.a == msb_share(own_role.index == 0, offline.first(), e),
        r.b == msb_share(own_role.index == 1, offline.second(), e),
{
    let a: T = finish_msb_of_parts(own_role.index == 0, offline.b_bit.a, e);
    let b: T = finish_msb_of_parts(own_role.index == 1, offline.b_bit.b, e);
    assert(a == msb_share(own_role.index == 0, offline.first(), e));
    assert(b == msb_share(own_role.index == 1, offline.second(), e));
    Share { a, b }
}

/// The randomness of three parties fits together part by part.
pub open spec fn offline_consistent<T>(
    o0: OfflineRandomShares<T>,
    o1: OfflineRandomShares<T>,
    o2: OfflineRandomShares<T>,
) -> bool {
    &&& o1.second() == o0.first()
    &&& o2.second() == o1.first()
    &&& o0.second() == o2.first()
}

/// The extraction is correct: the results of the three parties are consistent shares of the most
/// significant bit of the shared value.
pub proof fn lemma_extract_msb_rand_correct<T: IntRing2k>(
    x: (Share<T>, Share<T>, Share<T>),
    o: (OfflineRandomShares<T>, OfflineRandomShares<T>, OfflineRandomShares<T>),
    borrow: (Share<bool>, Share<bool>, Share<bool>),
    c: T,
    c_prime: T,
    masked: (Share<T>, Share<T>, Share<T>),
    e: T,
    r: (Share<T>, Share<T>, Share<T>),
)
    requires
        consistent(x.0, x.1, x.2),
        consistent(borrow.0, borrow.1, borrow.2),
        offline_consistent(o.0, o.1, o.2),
        offline_valid(o.0.first(), o.1.first(), o.2.first()),
        c == sum_value(x.0.plus_spec(o.0.r), x.1.plus_spec(o.1.r), x.2.plus_spec(o.2.r)),
        c_prime.val() == c.val() % top::<T>(),
        xor_value(borrow.0, borrow.1, borrow.2) == (c_prime.val() < sum_value(
            o.0.r,
            o.1.r,
            o.2.r,
        ).val() % top::<T>()),
        masked.0.a == masked_msb(true, x.0.a, o.0.first(), c_prime, borrow.0.a),
        masked.1.a == masked_msb(false, x.1.a, o.1.first(), c_prime, borrow.1.a),
        masked.2.a == masked_msb(false, x.2.a, o.2.first(), c_prime, borrow.2.a),
        e == sum_value(masked.0, masked.1, masked.2),
        r.0.a == msb_share(true, o.0.first(), e) && r.0.b == msb_share(false, o.0.second(), e),
        r.1.a == msb_share(false, o.1.first(), e) && r.1.b == msb_share(true, o.1.second(), e),
        r.2.a == msb_share(false, o.2.first(), e) && r.2.b == msb_share(false, o.2.second(), e),
    ensures
        consistent(r.0, r.1, r.2),
        sum_value(r.0, r.1, r.2) == T::of_int(
            bit_int(bit(sum_value(x.0, x.1, x.2), (T::bits() - 1) as nat)),
        ),
{
    lemma_extract_msb_correct(
        x.0.a,
        x.1.a,
        x.2.a,
        o.0.first(),
        o.1.first(),
        o.2.first(),
        borrow.0.a,
        borrow.1.a,
        borrow.2.a,
        c,
        c_prime,
        e,
    );
}

} // verus!
