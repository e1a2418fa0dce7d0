//! Splitting values into shares and putting them together again.
//!
//! The random elements that a sharing needs are handed in.

use crate::ring::IntRing2k;
use crate::ring_lemmas::{lemma_absorb, zero};
use crate::shares::{consistent, sum_value, Share};
use vstd::prelude::*;

verus! {

/// Splits a value into replicated shares of three parties. `a` and `b` are the parts of the first
/// and the second party, and the third part is what remains.
pub fn create_single_sharing<T: IntRing2k>(a: T, b: T, input: T) -> (r: (
    Share<T>,
    Share<T>,
    Share<T>,
))
    ensures
        r.0.a == a,
        r.1.a == b,
        r.2.a == T::of_int(input.val() - a.val() - b.val()),
        consistent(r.0, r.1, r.2),
        sum_value(r.0, r.1, r.2) == input,
{
    let c: T = input.ring_sub(a).ring_sub(b);
    proof {
        lemma_absorb::<T>(input.val() - a.val(), -b.val());
        lemma_absorb::<T>(input.val() - a.val() - b.val(), a.val() + b.val());
        input.law_val();
    }
    (Share::new(a, c), Share::new(b, a), Share::new(c, b))
}

/// Shares of a vector, for each of three parties.
#[derive(Debug)]
pub struct LocalShares1D<T> {
    pub p0: Vec<Share<T>>,
    pub p1: Vec<Share<T>>,
    pub p2: Vec<Share<T>>,
}

impl<T: IntRing2k> LocalShares1D<T> {
    /// The shares of one party.
    pub fn of_party(&self, party_id: usize) -> (r: &Vec<Share<T>>)
        requires
            party_id < 3,
        ensures
            *r == (if party_id == 0 {
                self.p0
            } else if party_id == 1 {
                self.p1
            } else {
                self.p2
            }),
    {
        match party_id {
            0 => &self.p0,
            1 => &self.p1,
            _ => &self.p2,
        }
    }
}

/// Splits every value of a vector into replicated shares, with two random elements each.
pub fn create_array_sharing<T: IntRing2k>(masks: &[(T, T)], input: &[T]) -> (r: LocalShares1D<T>)
    requires
        masks@.len() == input@.len(),
    ensures
        r.p0@.len() == input@.len(),
        r.p1@.len() == input@.len(),
        r.p2@.len() == input@.len(),
        forall|i: int|
            0 <= i < input@.len() ==> (#[trigger] r.p0@[i]).a == masks@[i].0 && r.p1@[i].a
                == masks@[i].1 && consistent(r.p0@[i], r.p1@[i], r.p2@[i]) && sum_value(
                r.p0@[i],
                r.p1@[i],
                r.p2@[i],
            ) == input@[i],
{
    let mut p0: Vec<Share<T>> = Vec::new();
    let mut p1: Vec<Share<T>> = Vec::new();
    let mut p2: Vec<Share<T>> = Vec::new();
    let mut i: usize = 0;
    while i < input.len()
        invariant
            masks@.len() == input@.len(),
            i <= input@.len(),
            p0@.len() == i,
            p1@.len() == i,
            p2@.len() == i,
            forall|j: int|
                0 <= j < i ==> (#[trigger] p0@[j]).a == masks@[j].0 && p1@[j].a == masks@[j].1
                    && consistent(p0@[j], p1@[j], p2@[j]) && sum_value(p0@[j], p1@[j], p2@[j])
                    == input@[j],
        decreases input@.len() - i,
    {
        let (a, b): (T, T) = masks[i];
        let (s0, s1, s2) = create_single_sharing(a, b, input[i]);
        p0.push(s0);
        p1.push(s1);
        p2.push(s2);
        i += 1;
    }
    LocalShares1D { p0, p1, p2 }
}

/// Splits a value into additive shares of five parties: the first four are random, and the fifth is
/// what remains.
pub fn create_single_sharing_additive_5party<T: IntRing2k>(masks: [T; 4], input: T) -> (r: [T; 5])
    ensures
        r@[0] == masks@[0],
        r@[1] == masks@[1],
        r@[2] == masks@[2],
        r@[3] == masks@[3],
        T::of_int(
            r@[0].val() + r@[1].val() + r@[2].val() + r@[3].val() + r@[4].val(),
        ) == input,
{
    let (a, b, c, d): (T, T, T, T) = (masks[0], masks[1], masks[2], masks[3]);
    let e: T = input.ring_sub(a).ring_sub(b).ring_sub(c).ring_sub(d);
    proof {
        let x = input.val();
        lemma_absorb::<T>(x - a.val(), -b.val());
        lemma_absorb::<T>(x - a.val() - b.val(), -c.val());
        lemma_absorb::<T>(x - a.val() - b.val() - c.val(), -d.val());
        assert(e == T::of_int(x - a.val() - b.val() - c.val() - d.val()));
        lemma_absorb::<T>(
            x - a.val() - b.val() - c.val() - d.val(),
            a.val() + b.val() + c.val() + d.val(),
        );
        input.law_val();
    }
    [a, b, c, d, e]
}

/// Additive shares of a vector, for each of five parties.
#[derive(Debug)]
pub struct LocalShares1DAdditive5<T> {
    pub shares: [Vec<T>; 5],
}

impl<T: IntRing2k> LocalShares1DAdditive5<T> {
    /// The shares of one party.
    pub fn of_party(&self, party_id: usize) -> (r: &Vec<T>)
        requires
            party_id < 5,
        ensures
            *r == self.shares@[party_id as int],
    {
        &self.shares[party_id]
    }

    /// Entry `i` of all parties.
    pub open spec fn entry(&self, i: int) -> Seq<T> {
        Seq::new(5, |p: int| self.shares@[p]@[i])
    }
}

/// The sum of the first `n` elements.
pub open spec fn sum_of<T: IntRing2k>(s: Seq<T>, n: nat) -> T
    decreases n,
{
    if n == 0 {
        zero::<T>()
    } else {
        T::of_int(sum_of(s, (n - 1) as nat).val() + s[n - 1].val())
    }
}

/// Splits every value of a vector into additive shares of five parties, with four random elements
/// each.
pub fn create_array_sharing_additive_5party<T: IntRing2k>(masks: &[[T; 4]], input: &[T]) -> (r:
    LocalShares1DAdditive5<T>)
    requires
        masks@.len() == input@.len(),
    ensures
        forall|p: int| 0 <= p < 5 ==> (#[trigger] r.shares@[p])@.len() == input@.len(),
        forall|p: int, i: int|
            0 <= p < 4 && 0 <= i < input@.len() ==> #[trigger] r.shares@[p]@[i] == masks@[i]@[p],
        forall|i: int| 0 <= i < input@.len() ==> sum_of(#[trigger] r.entry(i), 5) == input@[i],
        forall|i: int|
            0 <= i < input@.len() ==> T::of_int(
                (#[trigger] r.shares@[0]@[i]).val() + r.shares@[1]@[i].val()
                    + r.shares@[2]@[i].val() + r.shares@[3]@[i].val() + r.shares@[4]@[i].val(),
            ) == input@[i],
{
    let mut s0: Vec<T> = Vec::new();
    let mut s1: Vec<T> = Vec::new();
    let mut s2: Vec<T> = Vec::new();
    let mut s3: Vec<T> = Vec::new();
    let mut s4: Vec<T> = Vec::new();
    let mut i: usize = 0;
    while i < input.len()
        invariant
            masks@.len() == input@.len(),
            i <= input@.len(),
            s0@.len() == i,
            s1@.len() == i,
            s2@.len() == i,
            s3@.len() == i,
            s4@.len() == i,
            forall|j: int|
                0 <= j < i ==> (#[trigger] s0@[j]) == masks@[j]@[0] && s1@[j] == masks@[j]@[1]
                    && s2@[j] == masks@[j]@[2] && s3@[j] == masks@[j]@[3] && T::of_int(
                    s0@[j].val() + s1@[j].val() + s2@[j].val() + s3@[j].val() + s4@[j].val(),
                ) == input@[j],
        decreases input@.len() - i,
    {
        let split: [T; 5] = create_single_sharing_additive_5party(masks[i], input[i]);
        s0.push(split[0]);
        s1.push(split[1]);
        s2.push(split[2]);
        s3.push(split[3]);
        s4.push(split[4]);
        i += 1;
    }
    let r = LocalShares1DAdditive5 { shares: [s0, s1, s2, s3, s4] };
    proof {
        assert forall|p: int, j: int|
            0 <= p < 4 && 0 <= j < input@.len() implies #[trigger] r.shares@[p]@[j]
            == masks@[j]@[p] by {
            assert(s0@[j] == masks@[j]@[0]);
        }
        assert forall|j: int| 0 <= j < input@.len() implies T::of_int(
            (#[trigger] r.shares@[0]@[j]).val() + r.shares@[1]@[j].val() + r.shares@[2]@[j].val()
                + r.shares@[3]@[j].val() + r.shares@[4]@[j].val(),
        ) == input@[j] by {
            assert(s0@[j] == masks@[j]@[0]);
        }
        assert forall|j: int| 0 <= j < input@.len() implies sum_of(#[trigger] r.entry(j), 5)
            == input@[j] by {
            assert(s0@[j] == masks@[j]@[0]);
            lemma_sum_of_five(r.entry(j));
        }
    }
    r
}

proof fn lemma_sum_of_five<T: IntRing2k>(s: Seq<T>)
    requires
        s.len() == 5,
    ensures
        sum_of(s, 5) == T::of_int(
            s[0].val() + s[1].val() + s[2].val() + s[3].val() + s[4].val(),
        ),
{
    reveal_with_fuel(sum_of, 6);
    let (a, b, c, d, e) = (s[0].val(), s[1].val(), s[2].val(), s[3].val(), s[4].val());
    lemma_absorb::<T>(0, a);
    lemma_absorb::<T>(a, b);
    lemma_absorb::<T>(a + b, c);
    lemma_absorb::<T>(a + b + c, d);
    lemma_absorb::<T>(a + b + c + d, e);
}

/// The sum of elements is the sum of their numbers in the ring.
pub proof fn lemma_sum_of_numbers<T: IntRing2k>(s: Seq<T>)
    ensures
        sum_of(s, s.len()) == T::of_int(s.fold_left(0int, |n: int, x: T| n + x.val())),
    decreases s.len(),
{
    let add_up = |n: int, x: T| n + x.val();
    if s.len() > 0 {
        let rest = s.drop_last();
        lemma_sum_of_numbers(rest);
        lemma_sum_of_prefix(s, rest, rest.len());
        lemma_absorb::<T>(rest.fold_left(0int, add_up), s.last().val());
    }
}

proof fn lemma_sum_of_prefix<T: IntRing2k>(s: Seq<T>, t: Seq<T>, n: nat)
    requires
        n <= s.len(),
        n <= t.len(),
        forall|i: int| 0 <= i < n ==> s[i] == t[i],
    ensures
        sum_of(s, n) == sum_of(t, n),
    decreases n,
{
    if n > 0 {
        lemma_sum_of_prefix(s, t, (n - 1) as nat);
        assert(s[n - 1] == t[n - 1]);
    }
}

/// The value of additive shares, of however many parties.
pub fn reconstruct_additive_shares<T: IntRing2k>(shares: &[T]) -> (r: T)
    ensures
        r == sum_of(shares@, shares@.len()),
        r == T::of_int(shares@.fold_left(0int, |n: int, x: T| n + x.val())),
{
    let mut acc: T = T::from_bit(false);
    let mut i: usize = 0;
    while i < shares.len()
        invariant
            i <= shares@.len(),
            acc == sum_of(shares@, i as nat),
        decreases shares@.len() - i,
    {
        acc = acc.ring_add(shares[i]);
        i += 1;
    }
    proof {
        lemma_sum_of_numbers(shares@);
    }
    acc
}

} // verus!
