//! Correlated randomness for extracting the most significant bit of an additively shared value.

use crate::bitlt::{low_bits, num};
use crate::ring::{bit_int, bit_of, IntRing2k};
use crate::ring_lemmas::{bit, lemma_absorb, lemma_small};
use vstd::arithmetic::power2::*;
use vstd::prelude::*;

verus! {

/// The randomness of one party: additive shares of a random element and of a random bit, and
/// exclusive-or shares of the bits of the element, most significant bit first.
#[derive(Debug)]
pub struct OfflineRandomSharesAdditive3pc<T> {
    pub r: T,
    pub r_bits: Vec<bool>,
    pub b_bit: T,
}

/// What the randomness of one party consists of.
pub struct OfflineView<T> {
    pub r: T,
    pub r_bits: Seq<bool>,
    pub b_bit: T,
}

impl<T> View for OfflineRandomSharesAdditive3pc<T> {
    type V = OfflineView<T>;

    open spec fn view(&self) -> OfflineView<T> {
        OfflineView { r: self.r, r_bits: self.r_bits@, b_bit: self.b_bit }
    }
}

/// The element whose bits are given, most significant bit first.
pub fn element_of_bits<T: IntRing2k>(bits: &[bool]) -> (r: T)
    ensures
        r == T::of_int(num(bits@)),
{
    let mut acc: T = T::from_bit(false);
    let mut i: usize = 0;
    assert(bits@.subrange(0, 0) =~= Seq::<bool>::empty());
    while i < bits.len()
        invariant
            i <= bits@.len(),
            acc == T::of_int(num(bits@.subrange(0, i as int))),
        decreases bits@.len() - i,
    {
        let ghost before = num(bits@.subrange(0, i as int));
        let double: T = acc.ring_add(acc);
        let b: T = T::from_bit(bits[i]);
        acc = double.ring_add(b);
        proof {
            let s = bits@.subrange(0, i + 1);
            assert(s.drop_last() =~= bits@.subrange(0, i as int));
            T::law_modulus();
            lemma_small::<T>(bit_int(bits@[i as int]));
            lemma_absorb::<T>(before, T::of_int(before).val());
            lemma_absorb::<T>(before, before);
            lemma_absorb::<T>(2 * before, bit_int(bits@[i as int]));
        }
        i += 1;
    }
    assert(bits@.subrange(0, i as int) =~= bits@);
    acc
}

/// A share for each of two parties: the first gets the mask, the second the rest.
pub fn create_single_sharing_additive<T: IntRing2k>(value: T, mask: T) -> (r: (T, T))
    ensures
        r.0 == mask,
        r.1 == T::of_int(value.val() - mask.val()),
{
    (mask, value.ring_sub(mask))
}

/// The two additive shares add up to the value.
pub proof fn lemma_single_sharing_adds_up<T: IntRing2k>(value: T, mask: T)
    ensures
        T::of_int(mask.val() + T::of_int(value.val() - mask.val()).val()) == value,
{
    lemma_absorb::<T>(value.val() - mask.val(), mask.val());
    value.law_val();
}

/// The randomness of the three parties as a function of the values that were drawn.
pub open spec fn offline_dealt<T: IntRing2k>(
    bits: Seq<bool>,
    first_shares: Seq<bool>,
    r_mask: T,
    b: bool,
    b_mask: T,
    shares: Seq<OfflineView<T>>,
) -> bool {
    &&& shares.len() == 3
    &&& shares[0].r == r_mask
    &&& shares[0].b_bit == b_mask
    &&& shares[0].r_bits == first_shares
    &&& shares[1].r == T::of_int(T::of_int(num(bits)).val() - r_mask.val())
    &&& shares[1].b_bit == T::of_int(bit_int(b) - b_mask.val())
    &&& shares[1].r_bits == Seq::new(bits.len(), |i: int| bits[i] != first_shares[i])
    &&& shares[2].r == T::of_int(0)
    &&& shares[2].b_bit == T::of_int(0)
    &&& shares[2].r_bits == Seq::new(bits.len(), |i: int| false)
}

/// Deals the randomness of the three parties. The bits of the element, the first shares of those
/// bits, the random bit and the two masks are drawn by the caller.
pub fn offline_shares_for_role_additive_3pc<T: IntRing2k>(
    bits: &[bool],
    first_shares: &[bool],
    r_mask: T,
    b: bool,
    b_mask: T,
) -> (r: Vec<OfflineRandomSharesAdditive3pc<T>>)
    requires
        bits@.len() == T::bits(),
        first_shares@.len() == T::bits(),
    ensures
        r@.len() == 3,
        offline_dealt(
            bits@,
            first_shares@,
            r_mask,
            b,
            b_mask,
            seq![r@[0]@, r@[1]@, r@[2]@],
        ),
        r@[0].r == r_mask && r@[0].b_bit == b_mask && r@[0].r_bits@ == first_shares@,
        r@[1].r == T::of_int(T::of_int(num(bits@)).val() - r_mask.val()),
        r@[1].b_bit == T::of_int(bit_int(b) - b_mask.val()),
        r@[1].r_bits@.len() == T::bits(),
        forall|i: int|
            0 <= i < T::bits() ==> #[trigger] r@[1].r_bits@[i] == (bits@[i] != first_shares@[i]),
        r@[2].r == T::of_int(0) && r@[2].b_bit == T::of_int(0),
        r@[2].r_bits@.len() == T::bits(),
        forall|i: int| 0 <= i < T::bits() ==> !(#[trigger] r@[2].r_bits@[i]),
{
    let total: T = element_of_bits(bits);
    let (r_0, r_1): (T, T) = create_single_sharing_additive(total, r_mask);
    let (b_0, b_1): (T, T) = create_single_sharing_additive(T::from_bit(b), b_mask);
    let mut bits_0: Vec<bool> = Vec::new();
    let mut bits_1: Vec<bool> = Vec::new();
    let mut bits_2: Vec<bool> = Vec::new();
    let mut i: usize = 0;
    while i < bits.len()
        invariant
            bits@.len() == first_shares@.len(),
            i <= bits@.len(),
            bits_0@ == first_shares@.subrange(0, i as int),
            bits_1@ == Seq::new(i as nat, |j: int| bits@[j] != first_shares@[j]),
            bits_2@ == Seq::new(i as nat, |j: int| false),
        decreases bits@.len() - i,
    {
        bits_0.push(first_shares[i]);
        bits_1.push(bits[i] != first_shares[i]);
        bits_2.push(false);
        assert(bits_0@ =~= first_shares@.subrange(0, i + 1));
        assert(bits_1@ =~= Seq::new((i + 1) as nat, |j: int| bits@[j] != first_shares@[j]));
        assert(bits_2@ =~= Seq::new((i + 1) as nat, |j: int| false));
        i += 1;
    }
    proof {
        assert(first_shares@.subrange(0, i as int) =~= first_shares@);
        T::law_modulus();
        lemma_small::<T>(bit_int(b));
    }
    let zero: T = T::from_bit(false);
    let mut out: Vec<OfflineRandomSharesAdditive3pc<T>> = Vec::new();
    out.push(OfflineRandomSharesAdditive3pc { r: r_0, r_bits: bits_0, b_bit: b_0 });
    out.push(OfflineRandomSharesAdditive3pc { r: r_1, r_bits: bits_1, b_bit: b_1 });
    out.push(OfflineRandomSharesAdditive3pc { r: zero, r_bits: bits_2, b_bit: zero });
    out
}

/// What the randomness of three parties has to satisfy: the bits are those of the element, and
/// the shared bit is a bit.
pub open spec fn offline_valid<T: IntRing2k>(
    o0: OfflineView<T>,
    o1: OfflineView<T>,
    o2: OfflineView<T>,
) -> bool {
    let r = T::of_int(o0.r.val() + o1.r.val() + o2.r.val());
    let b = T::of_int(o0.b_bit.val() + o1.b_bit.val() + o2.b_bit.val()).val();
    &&& o0.r_bits.len() == T::bits()
    &&& o1.r_bits.len() == T::bits()
    &&& o2.r_bits.len() == T::bits()
    &&& forall|i: int|
        0 <= i < T::bits() ==> ((#[trigger] o0.r_bits[i] != o1.r_bits[i]) != o2.r_bits[i])
            == low_bits(r, T::bits())[i]
    &&& 0 <= b <= 1
}

proof fn lemma_num_small(bits: Seq<bool>)
    ensures
        0 <= num(bits) < pow2(bits.len()),
    decreases bits.len(),
{
    lemma2_to64();
    if bits.len() > 0 {
        lemma_num_small(bits.drop_last());
        lemma_pow2_unfold(bits.len());
    }
}

/// The bits of the number that bits stand for are those bits.
pub proof fn lemma_bits_of_num(bits: Seq<bool>, i: int)
    requires
        0 <= i < bits.len(),
    ensures
        bit_of(num(bits), (bits.len() - 1 - i) as nat) == bits[i],
    decreases bits.len(),
{
    lemma_num_small(bits);
    let rest = bits.drop_last();
    let n = num(bits);
    assert(n / 2 == num(rest));
    if i == bits.len() - 1 {
        lemma2_to64();
        assert(n / 1 == n);
    } else {
        lemma_bits_of_num(rest, i);
        crate::ring_lemmas::lemma_bit_of_half(n, (bits.len() - 2 - i) as nat);
    }
}

/// The randomness that is dealt is valid.
pub proof fn lemma_dealt_is_valid<T: IntRing2k>(
    bits: Seq<bool>,
    first_shares: Seq<bool>,
    r_mask: T,
    b: bool,
    b_mask: T,
    shares: Seq<OfflineView<T>>,
)
    requires
        bits.len() == T::bits(),
        first_shares.len() == T::bits(),
        offline_dealt(bits, first_shares, r_mask, b, b_mask, shares),
    ensures
        offline_valid(shares[0], shares[1], shares[2]),
{
    T::law_modulus();
    lemma_num_small(bits);
    let total = T::of_int(num(bits));
    lemma_small::<T>(num(bits));
    lemma_small::<T>(0);
    lemma_small::<T>(bit_int(b));
    lemma_single_sharing_adds_up(total, r_mask);
    lemma_single_sharing_adds_up(T::of_int(bit_int(b)), b_mask);
    let (o0, o1, o2) = (shares[0], shares[1], shares[2]);
    let r = T::of_int(o0.r.val() + o1.r.val() + o2.r.val());
    assert(r == total);
    assert forall|i: int| 0 <= i < T::bits() implies ((#[trigger] o0.r_bits[i] != o1.r_bits[i])
        != o2.r_bits[i]) == low_bits(r, T::bits())[i] by {
        lemma_bits_of_num(bits, i);
        assert(bit(r, (T::bits() - 1 - i) as nat) == bits[i]);
    }
}

} // verus!
