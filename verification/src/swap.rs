//! Oblivious swapping of list entries.
//!
//! A pair of places is exchanged where its control bit is zero and left alone where it is one.
//! All pairs are computed from the list as it was and then written back in order.

use crate::message::ProtocolError;
use crate::ops::{
    add_const, const_share, from_const, joined, lemma_plus_const_value, lemma_reshare_correct,
    plus_const, reshare_products, reshare_products_send, reshared_parts,
};
use crate::player::Role;
use crate::prf::{in_step, Prf, PrfDraw};
use crate::ring::{bit_int, IntRing2k};
use crate::ring_lemmas::{lemma_absorb, lemma_small};
use crate::select::{
    choice_part, conditionally_select_distance, conditionally_select_distance_send, distance_parts,
    lemma_choice_parts, lemma_selected_value, lemma_unselected_value, reshared_part,
    selected_distance, DistancePair, DistanceShare, FromU32, IdDistance,
};
use crate::shares::{
    consistent, lemma_minus_value, lemma_plus_value, lemma_times_value, sum_value, Share,
};
use vstd::prelude::*;

verus! {

/// Why a swap cannot start: the numbers of control bits and of pairs differ, or a pair points
/// past the end of the list.
pub open spec fn swap_error(bits: nat, indices: Seq<(usize, usize)>, list: nat) -> Option<
    ProtocolError,
> {
    if bits != indices.len() {
        Some(ProtocolError::LengthMismatch)
    } else if exists|k: int|
        0 <= k < indices.len() && ((#[trigger] indices[k]).0 >= list || indices[k].1 >= list) {
        Some(ProtocolError::IndexOutOfBounds)
    } else {
        None
    }
}

/// All pairs point into a list of the given length.
pub open spec fn in_bounds(indices: Seq<(usize, usize)>, list: nat) -> bool {
    forall|k: int|
        0 <= k < indices.len() ==> (#[trigger] indices[k]).0 < list && indices[k].1 < list
}

/// Checks the pairs of places of a swap.
pub fn check_swap(bits: usize, indices: &[(usize, usize)], list: usize) -> (r: Result<
    (),
    ProtocolError,
>)
    ensures
        r == match swap_error(bits as nat, indices@, list as nat) {
            Some(e) => Err::<(), ProtocolError>(e),
            None => Ok(()),
        },
        r is Ok ==> in_bounds(indices@, list as nat),
        bits != indices@.len() ==> r == Err::<(), ProtocolError>(ProtocolError::LengthMismatch),
        bits == indices@.len() ==> (r is Ok) == (forall|k: int|
            0 <= k < indices@.len() ==> (#[trigger] indices@[k]).0 < list && indices@[k].1 < list),
        bits == indices@.len() && r is Err ==> r == Err::<(), ProtocolError>(
            ProtocolError::IndexOutOfBounds,
        ),
{
    if bits != indices.len() {
        return Err(ProtocolError::LengthMismatch);
    }
    let mut k: usize = 0;
    while k < indices.len()
        invariant
            k <= indices@.len(),
            bits == indices@.len(),
            forall|j: int|
                0 <= j < k ==> (#[trigger] indices@[j]).0 < list && indices@[j].1 < list,
        decreases indices@.len() - k,
    {
        if indices[k].0 >= list || indices[k].1 >= list {
            assert(indices@[k as int].0 >= list || indices@[k as int].1 >= list);
            return Err(ProtocolError::IndexOutOfBounds);
        }
        k += 1;
    }
    Ok(())
}

/// The list after the first `k` pairs were written back.
pub open spec fn written<A>(
    list: Seq<A>,
    indices: Seq<(usize, usize)>,
    firsts: Seq<A>,
    seconds: Seq<A>,
    k: nat,
) -> Seq<A>
    decreases k,
{
    if k == 0 {
        list
    } else {
        written(list, indices, firsts, seconds, (k - 1) as nat).update(
            indices[k - 1].0 as int,
            firsts[k - 1],
        ).update(indices[k - 1].1 as int, seconds[k - 1])
    }
}

/// No place occurs in two pairs, and no pair names a place twice.
pub open spec fn disjoint(indices: Seq<(usize, usize)>) -> bool {
    &&& forall|j: int| 0 <= j < indices.len() ==> (#[trigger] indices[j]).0 != indices[j].1
    &&& forall|j: int, k: int|
        0 <= j < k < indices.len() ==> {
            let (a, b) = (#[trigger] indices[j], #[trigger] indices[k]);
            a.0 != b.0 && a.0 != b.1 && a.1 != b.0 && a.1 != b.1
        }
}

/// With disjoint pairs every pair ends up in its places, and all other places stay.
pub proof fn lemma_written_disjoint<A>(
    list: Seq<A>,
    indices: Seq<(usize, usize)>,
    firsts: Seq<A>,
    seconds: Seq<A>,
    n: nat,
)
    requires
        n <= indices.len(),
        in_bounds(indices, list.len()),
        disjoint(indices),
    ensures
        written(list, indices, firsts, seconds, n).len() == list.len(),
        forall|k: int|
            0 <= k < n ==> written(list, indices, firsts, seconds, n)[(
            #[trigger] indices[k]).0 as int] == firsts[k],
        forall|k: int|
            0 <= k < n ==> written(list, indices, firsts, seconds, n)[(
            #[trigger] indices[k]).1 as int] == seconds[k],
        forall|i: int|
            0 <= i < list.len() && (forall|k: int|
                0 <= k < n ==> (#[trigger] indices[k]).0 != i && indices[k].1 != i)
                ==> #[trigger] written(list, indices, firsts, seconds, n)[i] == list[i],
    decreases n,
{
    if n > 0 {
        lemma_written_disjoint(list, indices, firsts, seconds, (n - 1) as nat);
        let before = written(list, indices, firsts, seconds, (n - 1) as nat);
        let after = written(list, indices, firsts, seconds, n);
        let last = indices[n - 1];
        assert(last.0 != last.1);
        assert forall|k: int| 0 <= k < n implies after[(#[trigger] indices[k]).0 as int]
            == firsts[k] by {
            if k < n - 1 {
                assert(before[indices[k].0 as int] == firsts[k]);
            }
        }
        assert forall|k: int| 0 <= k < n implies after[(#[trigger] indices[k]).1 as int]
            == seconds[k] by {
            if k < n - 1 {
                assert(before[indices[k].1 as int] == seconds[k]);
            }
        }
        assert forall|i: int|
            0 <= i < list.len() && (forall|k: int|
                0 <= k < n ==> (#[trigger] indices[k]).0 != i && indices[k].1
                    != i) implies #[trigger] after[i] == list[i] by {
            assert(before[i] == list[i]);
        }
    }
}

/// Writing pairs back in order: the last pair that names a place decides what is there, and its
/// second entry if it names the place twice. A place that no pair names is left alone.
pub proof fn lemma_written_last<A>(
    list: Seq<A>,
    indices: Seq<(usize, usize)>,
    firsts: Seq<A>,
    seconds: Seq<A>,
    n: nat,
    at: int,
    k: int,
)
    requires
        n <= indices.len(),
        in_bounds(indices, list.len()),
        0 <= at < list.len(),
        -1 <= k < n,
        0 <= k ==> indices[k].0 == at || indices[k].1 == at,
        forall|j: int| k < j < n ==> (#[trigger] indices[j]).0 != at && indices[j].1 != at,
    ensures
        written(list, indices, firsts, seconds, n).len() == list.len(),
        written(list, indices, firsts, seconds, n)[at] == if k < 0 {
            list[at]
        } else if indices[k].1 == at {
            seconds[k]
        } else {
            firsts[k]
        },
    decreases n,
{
    lemma_written_len(list, indices, firsts, seconds, n);
    if n > 0 {
        lemma_written_len(list, indices, firsts, seconds, (n - 1) as nat);
        assert(indices[n - 1].0 < list.len() && indices[n - 1].1 < list.len());
        if k < n - 1 {
            lemma_written_last(list, indices, firsts, seconds, (n - 1) as nat, at, k);
        }
    }
}

proof fn lemma_written_len<A>(
    list: Seq<A>,
    indices: Seq<(usize, usize)>,
    firsts: Seq<A>,
    seconds: Seq<A>,
    n: nat,
)
    requires
        n <= indices.len(),
        in_bounds(indices, list.len()),
    ensures
        written(list, indices, firsts, seconds, n).len() == list.len(),
    decreases n,
{
    if n > 0 {
        assert(indices[n - 1].0 < list.len() && indices[n - 1].1 < list.len());
        lemma_written_len(list, indices, firsts, seconds, (n - 1) as nat);
    }
}

/// The entries that a pair is written back with, from the shares of its products: the first entry
/// is the products plus what was second, the second one what was first less the products.
pub proof fn lemma_swapped_entries<T: IntRing2k>(
    list: Seq<IdDistance<T>>,
    indices: Seq<(usize, usize)>,
    products: Seq<Share<T>>,
    k: int,
)
    ensures
        ({
            let (first, second) = (
                swapped_first(list, indices, products, k),
                swapped_second(list, indices, products, k),
            );
            let (e1, e2) = (list[indices[k].0 as int], list[indices[k].1 as int]);
            &&& first.0 == products[3 * k].plus_spec(e2.0)
            &&& first.1.code_dot == products[3 * k + 1].plus_spec(e2.1.code_dot)
            &&& first.1.mask_dot == products[3 * k + 2].plus_spec(e2.1.mask_dot)
            &&& second.0 == e1.0.minus_spec(products[3 * k])
            &&& second.1.code_dot == e1.1.code_dot.minus_spec(products[3 * k + 1])
            &&& second.1.mask_dot == e1.1.mask_dot.minus_spec(products[3 * k + 2])
        }),
{
}

/// The local parts of swapping entries with shared identifiers: identifier, code and mask part of
/// every pair.
pub open spec fn swap_parts<T: IntRing2k>(
    bits: Seq<Share<T>>,
    list: Seq<IdDistance<T>>,
    indices: Seq<(usize, usize)>,
) -> Seq<T> {
    Seq::new(
        3 * indices.len(),
        |i: int|
            {
                let k = i / 3;
                let (id1, d1) = list[indices[k].0 as int];
                let (id2, d2) = list[indices[k].1 as int];
                if i % 3 == 0 {
                    choice_part(bits[k], id1, id2)
                } else if i % 3 == 1 {
                    choice_part(bits[k], d1.code_dot, d2.code_dot)
                } else {
                    choice_part(bits[k], d1.mask_dot, d2.mask_dot)
                }
            },
    )
}

/// First half of swapping entries with shared identifiers: what goes to the next party. The
/// control bits were injected into the ring.
#[verifier::rlimit(40)]
pub fn conditionally_swap_distances_send<T: IntRing2k + PrfDraw>(
    prf: &mut Prf,
    bits: &[Share<T>],
    list: &[IdDistance<T>],
    indices: &[(usize, usize)],
) -> (r: Result<Vec<T>, ProtocolError>)
    ensures
        match swap_error(bits@.len(), indices@, list@.len()) {
            Some(e) => r == Err::<Vec<T>, ProtocolError>(e) && *final(prf) == *old(prf),
            None => {
                &&& r is Ok
                &&& r->Ok_0@ == reshared_parts(*old(prf), swap_parts(bits@, list@, indices@))
                &&& *final(prf) == old(prf).after::<T>(3 * indices@.len() as int)
            },
        },
        r is Ok ==> bits@.len() == indices@.len() && r->Ok_0@.len() == 3 * indices@.len(),
        r is Ok ==> forall|k: int|
            0 <= k < indices@.len() ==> {
                let (e1, e2) = (
                    list@[(#[trigger] indices@[k]).0 as int],
                    list@[indices@[k].1 as int],
                );
                let c = bits@[k];
                &&& r->Ok_0@[3 * k] == reshared_part(
                    *old(prf),
                    c.product_spec(e1.0.minus_spec(e2.0)),
                    3 * k,
                )
                &&& r->Ok_0@[3 * k + 1] == reshared_part(
                    *old(prf),
                    c.product_spec(e1.1.code_dot.minus_spec(e2.1.code_dot)),
                    3 * k + 1,
                )
                &&& r->Ok_0@[3 * k + 2] == reshared_part(
                    *old(prf),
                    c.product_spec(e1.1.mask_dot.minus_spec(e2.1.mask_dot)),
                    3 * k + 2,
                )
            },
{
    match check_swap(bits.len(), indices, list.len()) {
        Ok(_) => {},
        Err(e) => {
            return Err(e);
        },
    }
    let mut parts: Vec<T> = Vec::new();
    let mut k: usize = 0;
    while k < indices.len()
        invariant
            bits@.len() == indices@.len(),
            in_bounds(indices@, list@.len()),
            k <= indices@.len(),
            parts@.len() == 3 * k,
            forall|j: int|
                0 <= j < 3 * k ==> #[trigger] parts@[j] == swap_parts(bits@, list@, indices@)[j],
        decreases indices@.len() - k,
    {
        let (i1, i2): (usize, usize) = indices[k];
        assert(indices@[k as int].0 < list@.len() && indices@[k as int].1 < list@.len());
        let c: Share<T> = bits[k];
        let (id1, d1) = list[i1];
        let (id2, d2) = list[i2];
        parts.push(c.product(id1.minus(id2)));
        parts.push(c.product(d1.code_dot.minus(d2.code_dot)));
        parts.push(c.product(d1.mask_dot.minus(d2.mask_dot)));
        proof {
            assert((3 * k) / 3 == k && (3 * k) % 3 == 0);
            assert((3 * k + 1) / 3 == k && (3 * k + 1) % 3 == 1);
            assert((3 * k + 2) / 3 == k && (3 * k + 2) % 3 == 2);
        }
        k += 1;
    }
    assert(parts@ =~= swap_parts(bits@, list@, indices@));
    Ok(reshare_products_send(prf, parts.as_slice()))
}

/// The entry that goes to the first place of pair `k`: the products plus the second entry.
pub open spec fn swapped_first<T: IntRing2k>(
    list: Seq<IdDistance<T>>,
    indices: Seq<(usize, usize)>,
    products: Seq<Share<T>>,
    k: int,
) -> IdDistance<T> {
    let (id2, d2) = list[indices[k].1 as int];
    (
        products[3 * k].plus_spec(id2),
        DistanceShare {
            code_dot: products[3 * k + 1].plus_spec(d2.code_dot),
            mask_dot: products[3 * k + 2].plus_spec(d2.mask_dot),
        },
    )
}

/// The entry that goes to the second place of pair `k`: the first entry less the products.
pub open spec fn swapped_second<T: IntRing2k>(
    list: Seq<IdDistance<T>>,
    indices: Seq<(usize, usize)>,
    products: Seq<Share<T>>,
    k: int,
) -> IdDistance<T> {
    let (id1, d1) = list[indices[k].0 as int];
    (
        id1.minus_spec(products[3 * k]),
        DistanceShare {
            code_dot: d1.code_dot.minus_spec(products[3 * k + 1]),
            mask_dot: d1.mask_dot.minus_spec(products[3 * k + 2]),
        },
    )
}

/// The number of pairs that a vector of products is enough for.
pub open spec fn pairs_done(products: nat, indices: nat) -> nat {
    if products / 3 <= indices {
        products / 3
    } else {
        indices
    }
}

/// Second half of swapping entries with shared identifiers.
pub fn conditionally_swap_distances<T: IntRing2k>(
    list: &[IdDistance<T>],
    indices: &[(usize, usize)],
    own: &[T],
    received: &[T],
) -> (r: Vec<IdDistance<T>>)
    requires
        in_bounds(indices@, list@.len()),
    ensures
        ({
            let p = joined(own@, received@);
            r@ == written(
                list@,
                indices@,
                Seq::new(indices@.len(), |k: int| swapped_first(list@, indices@, p, k)),
                Seq::new(indices@.len(), |k: int| swapped_second(list@, indices@, p, k)),
                pairs_done(p.len(), indices@.len()),
            )
        }),
        ({
            let p = joined(own@, received@);
            let (firsts, seconds) = (
                Seq::new(indices@.len(), |k: int| swapped_first(list@, indices@, p, k)),
                Seq::new(indices@.len(), |k: int| swapped_second(list@, indices@, p, k)),
            );
            &&& p.len() >= 3 * indices@.len() ==> r@ == written(
                list@,
                indices@,
                firsts,
                seconds,
                indices@.len(),
            )
            &&& p.len() < 3 * indices@.len() ==> r@ == written(
                list@,
                indices@,
                firsts,
                seconds,
                (p.len() / 3) as nat,
            )
        }),
{
    let products: Vec<Share<T>> = reshare_products(own, received);
    let ghost p = products@;
    let ghost firsts = Seq::new(indices@.len(), |k: int| swapped_first(list@, indices@, p, k));
    let ghost seconds = Seq::new(indices@.len(), |k: int| swapped_second(list@, indices@, p, k));
    let total: usize = products.len();
    let n: usize = if total / 3 <= indices.len() {
        total / 3
    } else {
        indices.len()
    };
    let mut out: Vec<IdDistance<T>> = vstd::slice::slice_to_vec(list);
    let mut k: usize = 0;
    while k < n
        invariant
            in_bounds(indices@, list@.len()),
            p == products@,
            total == p.len(),
            n <= total / 3,
            n <= indices@.len(),
            firsts == Seq::new(indices@.len(), |j: int| swapped_first(list@, indices@, p, j)),
            seconds == Seq::new(indices@.len(), |j: int| swapped_second(list@, indices@, p, j)),
            k <= n,
            out@.len() == list@.len(),
            out@ == written(list@, indices@, firsts, seconds, k as nat),
        decreases n - k,
    {
        let (i1, i2): (usize, usize) = indices[k];
        assert(indices@[k as int].0 < list@.len() && indices@[k as int].1 < list@.len());
        let (id1, d1) = list[i1];
        let (id2, d2) = list[i2];
        let id: Share<T> = products[3 * k];
        let code: Share<T> = products[3 * k + 1];
        let mask: Share<T> = products[3 * k + 2];
        let first: IdDistance<T> = (
            id.plus(id2),
            DistanceShare {
                code_dot: code.plus(d2.code_dot),
                mask_dot: mask.plus(d2.mask_dot),
            },
        );
        let second: IdDistance<T> = (
            id1.minus(id),
            DistanceShare {
                code_dot: d1.code_dot.minus(code),
                mask_dot: d1.mask_dot.minus(mask),
            },
        );
        assert(first == firsts[k as int]);
        assert(second == seconds[k as int]);
        out.set(i1, first);
        out.set(i2, second);
        k += 1;
    }
    out
}

/// The distances at the two places of every pair.
pub open spec fn pairs_at<T>(list: Seq<(u32, DistanceShare<T>)>, indices: Seq<(usize, usize)>) -> Seq<
    DistancePair<T>,
> {
    Seq::new(
        indices.len(),
        |k: int| (list[indices[k].0 as int].1, list[indices[k].1 as int].1),
    )
}

fn collect_pairs<T: IntRing2k>(list: &[(u32, DistanceShare<T>)], indices: &[(usize, usize)]) -> (r:
    Vec<DistancePair<T>>)
    requires
        in_bounds(indices@, list@.len()),
    ensures
        r@ == pairs_at(list@, indices@),
{
    let mut out: Vec<DistancePair<T>> = Vec::new();
    let mut k: usize = 0;
    while k < indices.len()
        invariant
            in_bounds(indices@, list@.len()),
            k <= indices@.len(),
            out@.len() == k,
            forall|j: int| 0 <= j < k ==> #[trigger] out@[j] == pairs_at(list@, indices@)[j],
        decreases indices@.len() - k,
    {
        assert(indices@[k as int].0 < list@.len() && indices@[k as int].1 < list@.len());
        out.push((list[indices[k].0].1, list[indices[k].1].1));
        k += 1;
    }
    assert(out@ =~= pairs_at(list@, indices@));
    out
}

/// First half of swapping entries with public identifiers: what goes to the next party. The
/// control bits were injected into the ring.
#[verifier::rlimit(40)]
#[verifier::spinoff_prover]
pub fn conditionally_swap_distances_plain_ids_send<T: IntRing2k + PrfDraw>(
    prf: &mut Prf,
    bits: &[Share<T>],
    list: &[(u32, DistanceShare<T>)],
    indices: &[(usize, usize)],
) -> (r: Result<Vec<T>, ProtocolError>)
    ensures
        match swap_error(bits@.len(), indices@, list@.len()) {
            Some(e) => r == Err::<Vec<T>, ProtocolError>(e) && *final(prf) == *old(prf),
            None => {
                &&& r is Ok
                &&& r->Ok_0@ == reshared_parts(
                    *old(prf),
                    distance_parts(pairs_at(list@, indices@), bits@),
                )
                &&& *final(prf) == old(prf).after::<T>(2 * indices@.len() as int)
            },
        },
        r is Ok ==> bits@.len() == indices@.len() && r->Ok_0@.len() == 2 * indices@.len(),
        r is Ok ==> forall|k: int|
            0 <= k < indices@.len() ==> {
                let (e1, e2) = (
                    list@[(#[trigger] indices@[k]).0 as int],
                    list@[indices@[k].1 as int],
                );
                let c = bits@[k];
                &&& r->Ok_0@[2 * k] == reshared_part(
                    *old(prf),
                    c.product_spec(e1.1.code_dot.minus_spec(e2.1.code_dot)),
                    2 * k,
                )
                &&& r->Ok_0@[2 * k + 1] == reshared_part(
                    *old(prf),
                    c.product_spec(e1.1.mask_dot.minus_spec(e2.1.mask_dot)),
                    2 * k + 1,
                )
            },
{
    match check_swap(bits.len(), indices, list.len()) {
        Ok(_) => {},
        Err(e) => {
            return Err(e);
        },
    }
    let pairs: Vec<DistancePair<T>> = collect_pairs(list, indices);
    let ghost start = *prf;
    let sent: Result<Vec<T>, ProtocolError> = conditionally_select_distance_send(
        prf,
        pairs.as_slice(),
        bits,
    );
    proof {
        assert forall|k: int| 0 <= k < indices@.len() implies {
            let (e1, e2) = (list@[(#[trigger] indices@[k]).0 as int], list@[indices@[k].1 as int]);
            &&& sent->Ok_0@[2 * k] == reshared_part(
                start,
                bits@[k].product_spec(e1.1.code_dot.minus_spec(e2.1.code_dot)),
                2 * k,
            )
            &&& sent->Ok_0@[2 * k + 1] == reshared_part(
                start,
                bits@[k].product_spec(e1.1.mask_dot.minus_spec(e2.1.mask_dot)),
                2 * k + 1,
            )
        } by {
            assert(pairs@[k] == (list@[indices@[k].0 as int].1, list@[indices@[k].1 as int].1));
        }
    }
    sent
}

/// The complement of a shared bit.
pub open spec fn not_bit<T: IntRing2k>(role: int, bit: Share<T>) -> Share<T> {
    plus_const(role, Share::<T>::zero_spec().minus_spec(bit), 1)
}

/// The share of one of two public identifiers: the first one where the bit is one.
pub open spec fn chosen_id<T: IntRing2k>(role: int, bit: Share<T>, id1: u32, id2: u32) -> Share<T> {
    bit.times_spec(T::of_int(id1 as int)).plus_spec(
        not_bit(role, bit).times_spec(T::of_int(id2 as int)),
    )
}

/// What is left of a pair of distances when one of them is taken away.
pub open spec fn other_distance<T: IntRing2k>(
    pair: DistancePair<T>,
    taken: DistanceShare<T>,
) -> DistanceShare<T> {
    DistanceShare {
        code_dot: pair.0.code_dot.plus_spec(pair.1.code_dot).minus_spec(taken.code_dot),
        mask_dot: pair.0.mask_dot.plus_spec(pair.1.mask_dot).minus_spec(taken.mask_dot),
    }
}

/// The entry that goes to the first place of pair `k`.
pub open spec fn plain_first<T: IntRing2k>(
    role: int,
    bits: Seq<Share<T>>,
    list: Seq<(u32, DistanceShare<T>)>,
    indices: Seq<(usize, usize)>,
    products: Seq<Share<T>>,
    k: int,
) -> IdDistance<T> {
    let (i1, i2) = (indices[k].0 as int, indices[k].1 as int);
    (
        chosen_id(role, bits[k], list[i1].0, list[i2].0),
        selected_distance(pairs_at(list, indices)[k], products, k),
    )
}

/// The entry that goes to the second place of pair `k`.
pub open spec fn plain_second<T: IntRing2k>(
    role: int,
    bits: Seq<Share<T>>,
    list: Seq<(u32, DistanceShare<T>)>,
    indices: Seq<(usize, usize)>,
    products: Seq<Share<T>>,
    k: int,
) -> IdDistance<T> {
    let (i1, i2) = (indices[k].0 as int, indices[k].1 as int);
    (
        chosen_id(role, bits[k], list[i2].0, list[i1].0),
        other_distance(
            pairs_at(list, indices)[k],
            selected_distance(pairs_at(list, indices)[k], products, k),
        ),
    )
}

/// The entries that a pair with public identifiers is written back with. The first one holds the
/// identifier `bit * id1 + (1 - bit) * id2` and the selected distance, the second one the identifiers
/// exchanged and what is left of the two distances.
pub proof fn lemma_plain_entries<T: IntRing2k>(
    role: int,
    bits: Seq<Share<T>>,
    list: Seq<(u32, DistanceShare<T>)>,
    indices: Seq<(usize, usize)>,
    products: Seq<Share<T>>,
    k: int,
)
    requires
        0 <= k < indices.len(),
    ensures
        ({
            let (first, second) = (
                plain_first(role, bits, list, indices, products, k),
                plain_second(role, bits, list, indices, products, k),
            );
            let (e1, e2) = (list[indices[k].0 as int], list[indices[k].1 as int]);
            let (id1, id2) = (T::of_int(e1.0 as int), T::of_int(e2.0 as int));
            let rest = plus_const(role, Share::<T>::zero_spec().minus_spec(bits[k]), 1);
            &&& first.0 == bits[k].times_spec(id1).plus_spec(rest.times_spec(id2))
            &&& second.0 == bits[k].times_spec(id2).plus_spec(rest.times_spec(id1))
            &&& first.1.code_dot == products[2 * k].plus_spec(e2.1.code_dot)
            &&& first.1.mask_dot == products[2 * k + 1].plus_spec(e2.1.mask_dot)
            &&& second.1.code_dot == e1.1.code_dot.plus_spec(e2.1.code_dot).minus_spec(
                first.1.code_dot,
            )
            &&& second.1.mask_dot == e1.1.mask_dot.plus_spec(e2.1.mask_dot).minus_spec(
                first.1.mask_dot,
            )
        }),
{
}

/// The list with its identifiers as shares.
pub open spec fn with_shared_ids<T: IntRing2k>(role: int, list: Seq<(u32, DistanceShare<T>)>) -> Seq<
    IdDistance<T>,
> {
    Seq::new(list.len(), |i: int| (const_share(role, T::of_int(list[i].0 as int)), list[i].1))
}

/// Second half of swapping entries with public identifiers. The identifiers become shares and
/// are swapped without communication.
pub fn conditionally_swap_distances_plain_ids<T: FromU32>(
    own_role: Role,
    bits: &[Share<T>],
    list: &[(u32, DistanceShare<T>)],
    indices: &[(usize, usize)],
    own: &[T],
    received: &[T],
) -> (r: Vec<IdDistance<T>>)
    requires
        in_bounds(indices@, list@.len()),
        bits@.len() == indices@.len(),
        own@.len() == 2 * indices@.len(),
    ensures
        ({
            let p = joined(own@, received@);
            let role = own_role.index as int;
            r@ == written(
                with_shared_ids(role, list@),
                indices@,
                Seq::new(indices@.len(), |k: int| plain_first(role, bits@, list@, indices@, p, k)),
                Seq::new(indices@.len(), |k: int| plain_second(role, bits@, list@, indices@, p, k)),
                (p.len() / 2) as nat,
            )
        }),
{
    let ghost p = joined(own@, received@);
    let ghost role = own_role.index as int;
    let ghost firsts = Seq::new(
        indices@.len(),
        |k: int| plain_first(role, bits@, list@, indices@, p, k),
    );
    let ghost seconds = Seq::new(
        indices@.len(),
        |k: int| plain_second(role, bits@, list@, indices@, p, k),
    );
    let mut out: Vec<IdDistance<T>> = Vec::new();
    let mut i: usize = 0;
    while i < list.len()
        invariant
            i <= list@.len(),
            role == own_role.index as int,
            out@.len() == i,
            forall|j: int| 0 <= j < i ==> #[trigger] out@[j] == with_shared_ids(role, list@)[j],
        decreases list@.len() - i,
    {
        let (id, d) = list[i];
        out.push((from_const(T::from_u32(id), own_role), d));
        i += 1;
    }
    assert(out@ =~= with_shared_ids(role, list@));
    let pairs: Vec<DistancePair<T>> = collect_pairs(list, indices);
    let chosen: Vec<DistanceShare<T>> = conditionally_select_distance(
        pairs.as_slice(),
        own,
        received,
    );
    proof {
        T::law_modulus();
        lemma_small::<T>(1);
    }
    let mut k: usize = 0;
    while k < chosen.len()
        invariant
            T::of_int(1).val() == 1,
            in_bounds(indices@, list@.len()),
            bits@.len() == indices@.len(),
            pairs@ == pairs_at(list@, indices@),
            role == own_role.index as int,
            p == joined(own@, received@),
            p.len() <= 2 * indices@.len(),
            chosen@ == Seq::new(
                (p.len() / 2) as nat,
                |j: int| selected_distance(pairs@[j], p, j),
            ),
            firsts == Seq::new(
                indices@.len(),
                |j: int| plain_first(role, bits@, list@, indices@, p, j),
            ),
            seconds == Seq::new(
                indices@.len(),
                |j: int| plain_second(role, bits@, list@, indices@, p, j),
            ),
            k <= chosen@.len(),
            out@.len() == list@.len(),
            out@ == written(with_shared_ids(role, list@), indices@, firsts, seconds, k as nat),
        decreases chosen@.len() - k,
    {
        let (i1, i2): (usize, usize) = indices[k];
        assert(indices@[k as int].0 < list@.len() && indices@[k as int].1 < list@.len());
        let bit: Share<T> = bits[k];
        let negated: Share<T> = Share::zero().minus(bit);
        let complement: Share<T> = add_const(own_role, negated, T::from_bit(true));
        let id1: T = T::from_u32(list[i1].0);
        let id2: T = T::from_u32(list[i2].0);
        let first_id: Share<T> = bit.times(id1).plus(complement.times(id2));
        let second_id: Share<T> = bit.times(id2).plus(complement.times(id1));
        let first_d: DistanceShare<T> = chosen[k];
        let (d1, d2) = pairs[k];
        let second_d: DistanceShare<T> = DistanceShare {
            code_dot: d1.code_dot.plus(d2.code_dot).minus(first_d.code_dot),
            mask_dot: d1.mask_dot.plus(d2.mask_dot).minus(first_d.mask_dot),
        };
        assert((first_id, first_d) == firsts[k as int]);
        assert((second_id, second_d) == seconds[k as int]);
        out.set(i1, (first_id, first_d));
        out.set(i2, (second_id, second_d));
        k += 1;
    }
    out
}

/// A swap is correct for every part of an entry: `x` and `y` are the shares of the three parties at
/// the two places, `c` those of the control bit. The products of the round, which come at place
/// `i`, give shares of `x` and `y` in this order where the bit is one, and exchanged where it is
/// zero.
pub proof fn lemma_swap_correct<T: IntRing2k + PrfDraw>(
    prf: (Prf, Prf, Prf),
    parts: (Seq<T>, Seq<T>, Seq<T>),
    i: int,
    c: (Share<T>, Share<T>, Share<T>),
    x: (Share<T>, Share<T>, Share<T>),
    y: (Share<T>, Share<T>, Share<T>),
    b: bool,
)
    requires
        in_step(prf.0, prf.1, prf.2),
        0 <= i < parts.0.len(),
        parts.1.len() == parts.0.len(),
        parts.2.len() == parts.0.len(),
        consistent(c.0, c.1, c.2),
        consistent(x.0, x.1, x.2),
        consistent(y.0, y.1, y.2),
        sum_value(c.0, c.1, c.2) == T::of_int(bit_int(b)),
        parts.0[i] == choice_part(c.0, x.0, y.0),
        parts.1[i] == choice_part(c.1, x.1, y.1),
        parts.2[i] == choice_part(c.2, x.2, y.2),
    ensures
        ({
            let (c0, c1, c2) = (
                reshared_parts(prf.0, parts.0),
                reshared_parts(prf.1, parts.1),
                reshared_parts(prf.2, parts.2),
            );
            let p = (joined(c0, c2)[i], joined(c1, c0)[i], joined(c2, c1)[i]);
            let first = (p.0.plus_spec(y.0), p.1.plus_spec(y.1), p.2.plus_spec(y.2));
            let second = (x.0.minus_spec(p.0), x.1.minus_spec(p.1), x.2.minus_spec(p.2));
            let (xv, yv) = (sum_value(x.0, x.1, x.2), sum_value(y.0, y.1, y.2));
            &&& consistent(first.0, first.1, first.2)
            &&& consistent(second.0, second.1, second.2)
            &&& sum_value(first.0, first.1, first.2) == if b {
                xv
            } else {
                yv
            }
            &&& sum_value(second.0, second.1, second.2) == if b {
                yv
            } else {
                xv
            }
        }),
{
    let (c0, c1, c2) = (
        reshared_parts(prf.0, parts.0),
        reshared_parts(prf.1, parts.1),
        reshared_parts(prf.2, parts.2),
    );
    let p = (joined(c0, c2)[i], joined(c1, c0)[i], joined(c2, c1)[i]);
    lemma_reshare_correct(prf, parts, i);
    lemma_choice_parts(c, x, y, b);
    lemma_selected_value(p, sum_value(x.0, x.1, x.2), y, b);
    lemma_unselected_value(p, x, sum_value(y.0, y.1, y.2), b);
}

/// The share of one of two public identifiers is right: the first one where the bit is one, else
/// the second one.
pub proof fn lemma_chosen_id<T: IntRing2k>(
    c: (Share<T>, Share<T>, Share<T>),
    id1: u32,
    id2: u32,
    b: bool,
)
    requires
        consistent(c.0, c.1, c.2),
        sum_value(c.0, c.1, c.2) == T::of_int(bit_int(b)),
    ensures
        consistent(
            chosen_id(0, c.0, id1, id2),
            chosen_id(1, c.1, id1, id2),
            chosen_id(2, c.2, id1, id2),
        ),
        sum_value(
            chosen_id(0, c.0, id1, id2),
            chosen_id(1, c.1, id1, id2),
            chosen_id(2, c.2, id1, id2),
        ) == T::of_int(if b {
            id1 as int
        } else {
            id2 as int
        }),
{
    let z = Share::<T>::zero_spec();
    let (a1, a2) = (T::of_int(id1 as int), T::of_int(id2 as int));
    let neg = (z.minus_spec(c.0), z.minus_spec(c.1), z.minus_spec(c.2));
    let inv = (not_bit(0, c.0), not_bit(1, c.1), not_bit(2, c.2));
    T::law_modulus();
    lemma_small::<T>(0);
    lemma_small::<T>(1);
    lemma_small::<T>(bit_int(b));
    lemma_minus_value((z, z, z), c);
    lemma_plus_const_value(neg.0, neg.1, neg.2, 1);
    lemma_absorb::<T>(-bit_int(b), 1);
    assert(sum_value(inv.0, inv.1, inv.2) == T::of_int(bit_int(!b)));
    lemma_small::<T>(bit_int(!b));
    lemma_times_value(c, a1);
    lemma_times_value(inv, a2);
    let l = (c.0.times_spec(a1), c.1.times_spec(a1), c.2.times_spec(a1));
    let r = (inv.0.times_spec(a2), inv.1.times_spec(a2), inv.2.times_spec(a2));
    lemma_plus_value(l, r);
    a1.law_val();
    a2.law_val();
    assert(bit_int(b) * a1.val() == if b {
        a1.val()
    } else {
        0
    });
    assert(bit_int(!b) * a2.val() == if b {
        0
    } else {
        a2.val()
    });
}

} // verus!
