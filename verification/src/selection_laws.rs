//! What three parties hold after a selection or a swap.
//!
//! Each party runs the two halves of a step with what it holds; the laws say what the results of
//! the three parties stand for together.

use crate::ops::{joined, lemma_const_share_value, lemma_reshare_correct, reshared_parts};
use crate::prf::{in_step, Prf, PrfDraw};
use crate::ring::{bit_int, IntRing2k};
use crate::ring_lemmas::lemma_absorb;
use crate::select::{
    choice_part, distance_parts, id_triples, lemma_choice_parts, lemma_selected_id,
    lemma_selected_value, paired, selected_distance, selected_id, slice_parts, DistancePair,
    DistanceShare, IdDistance,
};
use crate::shares::{consistent, lemma_minus_value, lemma_plus_value, sum_value, Share};
use crate::swap::{
    disjoint, in_bounds, lemma_chosen_id, lemma_swap_correct, lemma_written_disjoint, pairs_at,
    pairs_done, plain_first, plain_second, swap_parts, swapped_first, swapped_second,
    with_shared_ids, written,
};
use vstd::prelude::*;

verus! {

/// Three shares belong together and stand for a value.
pub open spec fn stand_for<T: IntRing2k>(s: (Share<T>, Share<T>, Share<T>), v: T) -> bool {
    consistent(s.0, s.1, s.2) && sum_value(s.0, s.1, s.2) == v
}

/// Three shared distances belong together and stand for a code and a mask value.
pub open spec fn stand_for_distance<T: IntRing2k>(
    d: (DistanceShare<T>, DistanceShare<T>, DistanceShare<T>),
    v: (T, T),
) -> bool {
    &&& stand_for((d.0.code_dot, d.1.code_dot, d.2.code_dot), v.0)
    &&& stand_for((d.0.mask_dot, d.1.mask_dot, d.2.mask_dot), v.1)
}

/// Three shared entries belong together and stand for an identifier, a code and a mask value.
pub open spec fn stand_for_entry<T: IntRing2k>(
    e: (IdDistance<T>, IdDistance<T>, IdDistance<T>),
    v: (T, (T, T)),
) -> bool {
    &&& stand_for(((e.0).0, (e.1).0, (e.2).0), v.0)
    &&& stand_for_distance(((e.0).1, (e.1).1, (e.2).1), v.1)
}

/// What the parties hold of entry `i` of three vectors of parts, after the round that reshares
/// them.
pub open spec fn reshared_at<T: IntRing2k + PrfDraw>(
    prf: (Prf, Prf, Prf),
    parts: (Seq<T>, Seq<T>, Seq<T>),
    i: int,
) -> (Share<T>, Share<T>, Share<T>) {
    let (c0, c1, c2) = (
        reshared_parts(prf.0, parts.0),
        reshared_parts(prf.1, parts.1),
        reshared_parts(prf.2, parts.2),
    );
    (joined(c0, c2)[i], joined(c1, c0)[i], joined(c2, c1)[i])
}

/// One selected value: `x` where the bit is one, `y` where it is zero.
proof fn lemma_selected_at<T: IntRing2k + PrfDraw>(
    prf: (Prf, Prf, Prf),
    parts: (Seq<T>, Seq<T>, Seq<T>),
    i: int,
    c: (Share<T>, Share<T>, Share<T>),
    x: (Share<T>, Share<T>, Share<T>),
    y: (Share<T>, Share<T>, Share<T>),
    b: bool,
)
    requires
        in_step(prf.0, prf.1, prf.2),
        0 <= i < parts.0.len(),
        parts.1.len() == parts.0.len(),
        parts.2.len() == parts.0.len(),
        stand_for(c, T::of_int(bit_int(b))),
        consistent(x.0, x.1, x.2),
        consistent(y.0, y.1, y.2),
        parts.0[i] == choice_part(c.0, x.0, y.0),
        parts.1[i] == choice_part(c.1, x.1, y.1),
        parts.2[i] == choice_part(c.2, x.2, y.2),
    ensures
        ({
            let p = reshared_at(prf, parts, i);
            stand_for(
                (p.0.plus_spec(y.0), p.1.plus_spec(y.1), p.2.plus_spec(y.2)),
                if b {
                    sum_value(x.0, x.1, x.2)
                } else {
                    sum_value(y.0, y.1, y.2)
                },
            )
        }),
{
    let p = reshared_at(prf, parts, i);
    lemma_reshare_correct(prf, parts, i);
    lemma_choice_parts(c, x, y, b);
    lemma_selected_value(p, sum_value(x.0, x.1, x.2), y, b);
}

/// A selection from pairs of distances is correct: the results of the three parties for pair `k`
/// stand for the first distance of the pair where the control bit is one, and for the second one
/// where it is zero.
pub proof fn lemma_selection_correct<T: IntRing2k + PrfDraw>(
    prf: (Prf, Prf, Prf),
    distances: (Seq<DistancePair<T>>, Seq<DistancePair<T>>, Seq<DistancePair<T>>),
    control: (Seq<Share<T>>, Seq<Share<T>>, Seq<Share<T>>),
    k: int,
    b: bool,
    first: (T, T),
    second: (T, T),
)
    requires
        in_step(prf.0, prf.1, prf.2),
        0 <= k < distances.0.len(),
        distances.1.len() == distances.0.len(),
        distances.2.len() == distances.0.len(),
        stand_for((control.0[k], control.1[k], control.2[k]), T::of_int(bit_int(b))),
        stand_for_distance((distances.0[k].0, distances.1[k].0, distances.2[k].0), first),
        stand_for_distance((distances.0[k].1, distances.1[k].1, distances.2[k].1), second),
    ensures
        ({
            let own = (
                reshared_parts(prf.0, distance_parts(distances.0, control.0)),
                reshared_parts(prf.1, distance_parts(distances.1, control.1)),
                reshared_parts(prf.2, distance_parts(distances.2, control.2)),
            );
            stand_for_distance(
                (
                    selected_distance(distances.0[k], joined(own.0, own.2), k),
                    selected_distance(distances.1[k], joined(own.1, own.0), k),
                    selected_distance(distances.2[k], joined(own.2, own.1), k),
                ),
                if b {
                    first
                } else {
                    second
                },
            )
        }),
{
    let parts = (
        distance_parts(distances.0, control.0),
        distance_parts(distances.1, control.1),
        distance_parts(distances.2, control.2),
    );
    let c = (control.0[k], control.1[k], control.2[k]);
    let (d0, d1, d2) = (distances.0[k], distances.1[k], distances.2[k]);
    assert((2 * k) / 2 == k && (2 * k) % 2 == 0);
    assert((2 * k + 1) / 2 == k && (2 * k + 1) % 2 == 1);
    lemma_selected_at(
        prf,
        parts,
        2 * k,
        c,
        (d0.0.code_dot, d1.0.code_dot, d2.0.code_dot),
        (d0.1.code_dot, d1.1.code_dot, d2.1.code_dot),
        b,
    );
    lemma_selected_at(
        prf,
        parts,
        2 * k + 1,
        c,
        (d0.0.mask_dot, d1.0.mask_dot, d2.0.mask_dot),
        (d0.1.mask_dot, d1.1.mask_dot, d2.1.mask_dot),
        b,
    );
}

/// A selection slice by slice is correct: entry `i` of the results stands for the left entry where
/// the control bit of its slice is one, and for the right one where it is zero.
pub proof fn lemma_slices_correct<T: IntRing2k + PrfDraw>(
    prf: (Prf, Prf, Prf),
    left: (Seq<Share<T>>, Seq<Share<T>>, Seq<Share<T>>),
    right: (Seq<Share<T>>, Seq<Share<T>>, Seq<Share<T>>),
    control: (Seq<Share<T>>, Seq<Share<T>>, Seq<Share<T>>),
    slice_size: int,
    i: int,
    b: bool,
    x: T,
    y: T,
)
    requires
        in_step(prf.0, prf.1, prf.2),
        slice_size > 0,
        0 <= i < left.0.len(),
        left.1.len() == left.0.len(),
        left.2.len() == left.0.len(),
        ({
            let s = i / slice_size;
            stand_for((control.0[s], control.1[s], control.2[s]), T::of_int(bit_int(b)))
        }),
        stand_for((left.0[i], left.1[i], left.2[i]), x),
        stand_for((right.0[i], right.1[i], right.2[i]), y),
    ensures
        ({
            let p = reshared_at(
                prf,
                (
                    slice_parts(left.0, right.0, control.0, slice_size),
                    slice_parts(left.1, right.1, control.1, slice_size),
                    slice_parts(left.2, right.2, control.2, slice_size),
                ),
                i,
            );
            stand_for(
                (
                    p.0.plus_spec(right.0[i]),
                    p.1.plus_spec(right.1[i]),
                    p.2.plus_spec(right.2[i]),
                ),
                if b {
                    x
                } else {
                    y
                },
            )
        }),
{
    let s = i / slice_size;
    lemma_selected_at(
        prf,
        (
            slice_parts(left.0, right.0, control.0, slice_size),
            slice_parts(left.1, right.1, control.1, slice_size),
            slice_parts(left.2, right.2, control.2, slice_size),
        ),
        i,
        (control.0[s], control.1[s], control.2[s]),
        (left.0[i], left.1[i], left.2[i]),
        (right.0[i], right.1[i], right.2[i]),
        b,
    );
}

/// A selection between entries with shared identifiers is correct: the results for place `k` stand
/// for the left entry where the control bit is one, and for the right one where it is zero.
pub proof fn lemma_shared_ids_correct<T: IntRing2k + PrfDraw>(
    prf: (Prf, Prf, Prf),
    left: (Seq<IdDistance<T>>, Seq<IdDistance<T>>, Seq<IdDistance<T>>),
    right: (Seq<IdDistance<T>>, Seq<IdDistance<T>>, Seq<IdDistance<T>>),
    control: (Seq<Share<T>>, Seq<Share<T>>, Seq<Share<T>>),
    k: int,
    b: bool,
    x: (T, (T, T)),
    y: (T, (T, T)),
)
    requires
        in_step(prf.0, prf.1, prf.2),
        0 <= k < left.0.len(),
        left.1.len() == left.0.len(),
        left.2.len() == left.0.len(),
        right.0.len() == left.0.len(),
        right.1.len() == left.0.len(),
        right.2.len() == left.0.len(),
        stand_for((control.0[k], control.1[k], control.2[k]), T::of_int(bit_int(b))),
        stand_for_entry((left.0[k], left.1[k], left.2[k]), x),
        stand_for_entry((right.0[k], right.1[k], right.2[k]), y),
    ensures
        ({
            let parts = (
                slice_parts(id_triples(left.0), id_triples(right.0), control.0, 3),
                slice_parts(id_triples(left.1), id_triples(right.1), control.1, 3),
                slice_parts(id_triples(left.2), id_triples(right.2), control.2, 3),
            );
            let id = reshared_at(prf, parts, 3 * k);
            let code = reshared_at(prf, parts, 3 * k + 1);
            let mask = reshared_at(prf, parts, 3 * k + 2);
            let (r0, r1, r2) = (right.0[k], right.1[k], right.2[k]);
            stand_for_entry(
                (
                    (
                        id.0.plus_spec(r0.0),
                        DistanceShare {
                            code_dot: code.0.plus_spec(r0.1.code_dot),
                            mask_dot: mask.0.plus_spec(r0.1.mask_dot),
                        },
                    ),
                    (
                        id.1.plus_spec(r1.0),
                        DistanceShare {
                            code_dot: code.1.plus_spec(r1.1.code_dot),
                            mask_dot: mask.1.plus_spec(r1.1.mask_dot),
                        },
                    ),
                    (
                        id.2.plus_spec(r2.0),
                        DistanceShare {
                            code_dot: code.2.plus_spec(r2.1.code_dot),
                            mask_dot: mask.2.plus_spec(r2.1.mask_dot),
                        },
                    ),
                ),
                if b {
                    x
                } else {
                    y
                },
            )
        }),
{
    let l = (id_triples(left.0), id_triples(left.1), id_triples(left.2));
    let r = (id_triples(right.0), id_triples(right.1), id_triples(right.2));
    assert((3 * k) / 3 == k && (3 * k) % 3 == 0);
    assert((3 * k + 1) / 3 == k && (3 * k + 1) % 3 == 1);
    assert((3 * k + 2) / 3 == k && (3 * k + 2) % 3 == 2);
    lemma_slices_correct(prf, l, r, control, 3, 3 * k, b, x.0, y.0);
    lemma_slices_correct(prf, l, r, control, 3, 3 * k + 1, b, (x.1).0, (y.1).0);
    lemma_slices_correct(prf, l, r, control, 3, 3 * k + 2, b, (x.1).1, (y.1).1);
}

/// The products of a swap that each party holds after the round.
pub open spec fn swap_products<T: IntRing2k + PrfDraw>(
    prf: (Prf, Prf, Prf),
    bits: (Seq<Share<T>>, Seq<Share<T>>, Seq<Share<T>>),
    list: (Seq<IdDistance<T>>, Seq<IdDistance<T>>, Seq<IdDistance<T>>),
    indices: Seq<(usize, usize)>,
) -> (Seq<Share<T>>, Seq<Share<T>>, Seq<Share<T>>) {
    let (c0, c1, c2) = (
        reshared_parts(prf.0, swap_parts(bits.0, list.0, indices)),
        reshared_parts(prf.1, swap_parts(bits.1, list.1, indices)),
        reshared_parts(prf.2, swap_parts(bits.2, list.2, indices)),
    );
    (joined(c0, c2), joined(c1, c0), joined(c2, c1))
}

/// The list that a party has after a swap.
pub open spec fn swapped_list<T: IntRing2k>(
    list: Seq<IdDistance<T>>,
    indices: Seq<(usize, usize)>,
    products: Seq<Share<T>>,
) -> Seq<IdDistance<T>> {
    written(
        list,
        indices,
        Seq::new(indices.len(), |k: int| swapped_first(list, indices, products, k)),
        Seq::new(indices.len(), |k: int| swapped_second(list, indices, products, k)),
        pairs_done(products.len(), indices.len()),
    )
}

/// The entries that swap `k` puts into its two places stand for the entries that were there: in
/// their places where the control bit is one, exchanged where it is zero.
proof fn lemma_swapped_pair<T: IntRing2k + PrfDraw>(
    prf: (Prf, Prf, Prf),
    bits: (Seq<Share<T>>, Seq<Share<T>>, Seq<Share<T>>),
    list: (Seq<IdDistance<T>>, Seq<IdDistance<T>>, Seq<IdDistance<T>>),
    indices: Seq<(usize, usize)>,
    k: int,
    b: bool,
    x: (T, (T, T)),
    y: (T, (T, T)),
)
    requires
        in_step(prf.0, prf.1, prf.2),
        0 <= k < indices.len(),
        stand_for((bits.0[k], bits.1[k], bits.2[k]), T::of_int(bit_int(b))),
        ({
            let i = indices[k].0 as int;
            stand_for_entry((list.0[i], list.1[i], list.2[i]), x)
        }),
        ({
            let i = indices[k].1 as int;
            stand_for_entry((list.0[i], list.1[i], list.2[i]), y)
        }),
    ensures
        ({
            let p = swap_products(prf, bits, list, indices);
            &&& stand_for_entry(
                (
                    swapped_first(list.0, indices, p.0, k),
                    swapped_first(list.1, indices, p.1, k),
                    swapped_first(list.2, indices, p.2, k),
                ),
                if b {
                    x
                } else {
                    y
                },
            )
            &&& stand_for_entry(
                (
                    swapped_second(list.0, indices, p.0, k),
                    swapped_second(list.1, indices, p.1, k),
                    swapped_second(list.2, indices, p.2, k),
                ),
                if b {
                    y
                } else {
                    x
                },
            )
        }),
{
    let parts = (
        swap_parts(bits.0, list.0, indices),
        swap_parts(bits.1, list.1, indices),
        swap_parts(bits.2, list.2, indices),
    );
    let c = (bits.0[k], bits.1[k], bits.2[k]);
    let (i, j) = (indices[k].0 as int, indices[k].1 as int);
    let (x0, x1, x2) = (list.0[i], list.1[i], list.2[i]);
    let (y0, y1, y2) = (list.0[j], list.1[j], list.2[j]);
    assert((3 * k) / 3 == k && (3 * k) % 3 == 0);
    assert((3 * k + 1) / 3 == k && (3 * k + 1) % 3 == 1);
    assert((3 * k + 2) / 3 == k && (3 * k + 2) % 3 == 2);
    lemma_swap_correct(prf, parts, 3 * k, c, (x0.0, x1.0, x2.0), (y0.0, y1.0, y2.0), b);
    lemma_swap_correct(
        prf,
        parts,
        3 * k + 1,
        c,
        (x0.1.code_dot, x1.1.code_dot, x2.1.code_dot),
        (y0.1.code_dot, y1.1.code_dot, y2.1.code_dot),
        b,
    );
    lemma_swap_correct(
        prf,
        parts,
        3 * k + 2,
        c,
        (x0.1.mask_dot, x1.1.mask_dot, x2.1.mask_dot),
        (y0.1.mask_dot, y1.1.mask_dot, y2.1.mask_dot),
        b,
    );
}

/// Swapping in a list is correct if no place occurs twice: the lists of the three parties stand for
/// the values that they stood for, with the two entries of a pair exchanged where its control bit
/// is zero.
pub proof fn lemma_swapped_list_correct<T: IntRing2k + PrfDraw>(
    prf: (Prf, Prf, Prf),
    bits: (Seq<Share<T>>, Seq<Share<T>>, Seq<Share<T>>),
    list: (Seq<IdDistance<T>>, Seq<IdDistance<T>>, Seq<IdDistance<T>>),
    indices: Seq<(usize, usize)>,
    plain: Seq<bool>,
    values: Seq<(T, (T, T))>,
)
    requires
        in_step(prf.0, prf.1, prf.2),
        disjoint(indices),
        in_bounds(indices, values.len()),
        list.0.len() == values.len(),
        list.1.len() == values.len(),
        list.2.len() == values.len(),
        forall|k: int|
            0 <= k < indices.len() ==> stand_for(
                (bits.0[k], bits.1[k], bits.2[k]),
                T::of_int(bit_int(#[trigger] plain[k])),
            ),
        forall|i: int|
            0 <= i < values.len() ==> stand_for_entry(
                (list.0[i], list.1[i], list.2[i]),
                #[trigger] values[i],
            ),
    ensures
        ({
            let p = swap_products(prf, bits, list, indices);
            let r = (
                swapped_list(list.0, indices, p.0),
                swapped_list(list.1, indices, p.1),
                swapped_list(list.2, indices, p.2),
            );
            &&& forall|k: int|
                0 <= k < indices.len() ==> {
                    let (i, j) = ((#[trigger] indices[k]).0 as int, indices[k].1 as int);
                    &&& stand_for_entry(
                        (r.0[i], r.1[i], r.2[i]),
                        if plain[k] {
                            values[i]
                        } else {
                            values[j]
                        },
                    )
                    &&& stand_for_entry(
                        (r.0[j], r.1[j], r.2[j]),
                        if plain[k] {
                            values[j]
                        } else {
                            values[i]
                        },
                    )
                }
            &&& forall|i: int|
                0 <= i < values.len() && (forall|k: int|
                    0 <= k < indices.len() ==> (#[trigger] indices[k]).0 != i && indices[k].1 != i)
                    ==> stand_for_entry((r.0[i], r.1[i], r.2[i]), #[trigger] values[i])
        }),
{
    let p = swap_products(prf, bits, list, indices);
    let n = indices.len();
    let firsts = (
        Seq::new(n, |k: int| swapped_first(list.0, indices, p.0, k)),
        Seq::new(n, |k: int| swapped_first(list.1, indices, p.1, k)),
        Seq::new(n, |k: int| swapped_first(list.2, indices, p.2, k)),
    );
    let seconds = (
        Seq::new(n, |k: int| swapped_second(list.0, indices, p.0, k)),
        Seq::new(n, |k: int| swapped_second(list.1, indices, p.1, k)),
        Seq::new(n, |k: int| swapped_second(list.2, indices, p.2, k)),
    );
    assert((3 * n) / 3 == n);
    lemma_written_disjoint(list.0, indices, firsts.0, seconds.0, n);
    lemma_written_disjoint(list.1, indices, firsts.1, seconds.1, n);
    lemma_written_disjoint(list.2, indices, firsts.2, seconds.2, n);
    let r = (
        swapped_list(list.0, indices, p.0),
        swapped_list(list.1, indices, p.1),
        swapped_list(list.2, indices, p.2),
    );
    assert forall|k: int| 0 <= k < n implies {
        let (i, j) = ((#[trigger] indices[k]).0 as int, indices[k].1 as int);
        &&& stand_for_entry(
            (r.0[i], r.1[i], r.2[i]),
            if plain[k] {
                values[i]
            } else {
                values[j]
            },
        )
        &&& stand_for_entry(
            (r.0[j], r.1[j], r.2[j]),
            if plain[k] {
                values[j]
            } else {
                values[i]
            },
        )
    } by {
        let (i, j) = (indices[k].0 as int, indices[k].1 as int);
        assert(i < values.len() && j < values.len());
        lemma_swapped_pair(prf, bits, list, indices, k, plain[k], values[i], values[j]);
    }
}

/// A selection between entries with public identifiers is correct: the results for place `k` stand
/// for the left entry where the control bit is one, and for the right one where it is zero.
pub proof fn lemma_plain_ids_correct<T: IntRing2k + PrfDraw>(
    prf: (Prf, Prf, Prf),
    left: (
        Seq<(u32, DistanceShare<T>)>,
        Seq<(u32, DistanceShare<T>)>,
        Seq<(u32, DistanceShare<T>)>,
    ),
    right: (
        Seq<(u32, DistanceShare<T>)>,
        Seq<(u32, DistanceShare<T>)>,
        Seq<(u32, DistanceShare<T>)>,
    ),
    control: (Seq<Share<T>>, Seq<Share<T>>, Seq<Share<T>>),
    k: int,
    b: bool,
    x: (u32, (T, T)),
    y: (u32, (T, T)),
)
    requires
        in_step(prf.0, prf.1, prf.2),
        0 <= k < left.0.len(),
        left.1.len() == left.0.len(),
        left.2.len() == left.0.len(),
        stand_for((control.0[k], control.1[k], control.2[k]), T::of_int(bit_int(b))),
        stand_for_distance((left.0[k].1, left.1[k].1, left.2[k].1), x.1),
        stand_for_distance((right.0[k].1, right.1[k].1, right.2[k].1), y.1),
    ensures
        ({
            let pairs = (
                paired(left.0, right.0),
                paired(left.1, right.1),
                paired(left.2, right.2),
            );
            let own = (
                reshared_parts(prf.0, distance_parts(pairs.0, control.0)),
                reshared_parts(prf.1, distance_parts(pairs.1, control.1)),
                reshared_parts(prf.2, distance_parts(pairs.2, control.2)),
            );
            stand_for_entry(
                (
                    (
                        selected_id(0, control.0[k], x.0, y.0),
                        selected_distance(pairs.0[k], joined(own.0, own.2), k),
                    ),
                    (
                        selected_id(1, control.1[k], x.0, y.0),
                        selected_distance(pairs.1[k], joined(own.1, own.0), k),
                    ),
                    (
                        selected_id(2, control.2[k], x.0, y.0),
                        selected_distance(pairs.2[k], joined(own.2, own.1), k),
                    ),
                ),
                if b {
                    (T::of_int(x.0 as int), x.1)
                } else {
                    (T::of_int(y.0 as int), y.1)
                },
            )
        }),
{
    let pairs = (paired(left.0, right.0), paired(left.1, right.1), paired(left.2, right.2));
    let c = (control.0[k], control.1[k], control.2[k]);
    let id = if b {
        T::of_int(x.0 as int)
    } else {
        T::of_int(y.0 as int)
    };
    assert(stand_for(
        (
            selected_id(0, c.0, x.0, y.0),
            selected_id(1, c.1, x.0, y.0),
            selected_id(2, c.2, x.0, y.0),
        ),
        id,
    )) by {
        lemma_selected_id(c, x.0, y.0, b);
    }
    lemma_selection_correct(prf, pairs, control, k, b, x.1, y.1);
}

/// The products of a swap with public identifiers that each party holds after the round.
pub open spec fn plain_products<T: IntRing2k + PrfDraw>(
    prf: (Prf, Prf, Prf),
    bits: (Seq<Share<T>>, Seq<Share<T>>, Seq<Share<T>>),
    list: (
        Seq<(u32, DistanceShare<T>)>,
        Seq<(u32, DistanceShare<T>)>,
        Seq<(u32, DistanceShare<T>)>,
    ),
    indices: Seq<(usize, usize)>,
) -> (Seq<Share<T>>, Seq<Share<T>>, Seq<Share<T>>) {
    let (c0, c1, c2) = (
        reshared_parts(prf.0, distance_parts(pairs_at(list.0, indices), bits.0)),
        reshared_parts(prf.1, distance_parts(pairs_at(list.1, indices), bits.1)),
        reshared_parts(prf.2, distance_parts(pairs_at(list.2, indices), bits.2)),
    );
    (joined(c0, c2), joined(c1, c0), joined(c2, c1))
}

/// The list that a party has after a swap with public identifiers.
pub open spec fn plain_swapped_list<T: IntRing2k>(
    role: int,
    bits: Seq<Share<T>>,
    list: Seq<(u32, DistanceShare<T>)>,
    indices: Seq<(usize, usize)>,
    products: Seq<Share<T>>,
) -> Seq<IdDistance<T>> {
    written(
        with_shared_ids(role, list),
        indices,
        Seq::new(indices.len(), |k: int| plain_first(role, bits, list, indices, products, k)),
        Seq::new(indices.len(), |k: int| plain_second(role, bits, list, indices, products, k)),
        (products.len() / 2) as nat,
    )
}

/// An entry with its identifier in the ring.
pub open spec fn shared_entry<T: IntRing2k>(v: (u32, (T, T))) -> (T, (T, T)) {
    (T::of_int(v.0 as int), v.1)
}

/// What is left of two shared values when the one that was selected is taken away.
proof fn lemma_other_value<T: IntRing2k>(
    x: (Share<T>, Share<T>, Share<T>),
    y: (Share<T>, Share<T>, Share<T>),
    taken: (Share<T>, Share<T>, Share<T>),
    b: bool,
)
    requires
        consistent(x.0, x.1, x.2),
        consistent(y.0, y.1, y.2),
        stand_for(
            taken,
            if b {
                sum_value(x.0, x.1, x.2)
            } else {
                sum_value(y.0, y.1, y.2)
            },
        ),
    ensures
        stand_for(
            (
                x.0.plus_spec(y.0).minus_spec(taken.0),
                x.1.plus_spec(y.1).minus_spec(taken.1),
                x.2.plus_spec(y.2).minus_spec(taken.2),
            ),
            if b {
                sum_value(y.0, y.1, y.2)
            } else {
                sum_value(x.0, x.1, x.2)
            },
        ),
{
    let (xv, yv) = (sum_value(x.0, x.1, x.2), sum_value(y.0, y.1, y.2));
    let both = (x.0.plus_spec(y.0), x.1.plus_spec(y.1), x.2.plus_spec(y.2));
    lemma_plus_value(x, y);
    lemma_minus_value(both, taken);
    xv.law_val();
    yv.law_val();
    let t = if b {
        xv.val()
    } else {
        yv.val()
    };
    lemma_absorb::<T>(xv.val() + yv.val(), -t);
}

/// Swapping in a list with public identifiers is correct if no place occurs twice: the lists of the
/// three parties stand for the entries, with the two entries of a pair exchanged where its control
/// bit is zero.
pub proof fn lemma_plain_swap_correct<T: IntRing2k + PrfDraw>(
    prf: (Prf, Prf, Prf),
    bits: (Seq<Share<T>>, Seq<Share<T>>, Seq<Share<T>>),
    list: (
        Seq<(u32, DistanceShare<T>)>,
        Seq<(u32, DistanceShare<T>)>,
        Seq<(u32, DistanceShare<T>)>,
    ),
    indices: Seq<(usize, usize)>,
    plain: Seq<bool>,
    values: Seq<(u32, (T, T))>,
)
    requires
        in_step(prf.0, prf.1, prf.2),
        disjoint(indices),
        in_bounds(indices, values.len()),
        list.0.len() == values.len(),
        list.1.len() == values.len(),
        list.2.len() == values.len(),
        forall|k: int|
            0 <= k < indices.len() ==> stand_for(
                (bits.0[k], bits.1[k], bits.2[k]),
                T::of_int(bit_int(#[trigger] plain[k])),
            ),
        forall|i: int|
            0 <= i < values.len() ==> {
                let v = #[trigger] values[i];
                &&& list.0[i].0 == v.0 && list.1[i].0 == v.0 && list.2[i].0 == v.0
                &&& stand_for_distance((list.0[i].1, list.1[i].1, list.2[i].1), v.1)
            },
    ensures
        ({
            let p = plain_products(prf, bits, list, indices);
            let r = (
                plain_swapped_list(0, bits.0, list.0, indices, p.0),
                plain_swapped_list(1, bits.1, list.1, indices, p.1),
                plain_swapped_list(2, bits.2, list.2, indices, p.2),
            );
            &&& forall|k: int|
                0 <= k < indices.len() ==> {
                    let (i, j) = ((#[trigger] indices[k]).0 as int, indices[k].1 as int);
                    &&& stand_for_entry(
                        (r.0[i], r.1[i], r.2[i]),
                        shared_entry(
                            if plain[k] {
                                values[i]
                            } else {
                                values[j]
                            },
                        ),
                    )
                    &&& stand_for_entry(
                        (r.0[j], r.1[j], r.2[j]),
                        shared_entry(
                            if plain[k] {
                                values[j]
                            } else {
                                values[i]
                            },
                        ),
                    )
                }
            &&& forall|i: int|
                0 <= i < values.len() && (forall|k: int|
                    0 <= k < indices.len() ==> (#[trigger] indices[k]).0 != i && indices[k].1 != i)
                    ==> stand_for_entry((r.0[i], r.1[i], r.2[i]), shared_entry(#[trigger] values[i]))
        }),
{
    let p = plain_products(prf, bits, list, indices);
    let n = indices.len();
    let start = (
        with_shared_ids(0, list.0),
        with_shared_ids(1, list.1),
        with_shared_ids(2, list.2),
    );
    let firsts = (
        Seq::new(n, |k: int| plain_first(0, bits.0, list.0, indices, p.0, k)),
        Seq::new(n, |k: int| plain_first(1, bits.1, list.1, indices, p.1, k)),
        Seq::new(n, |k: int| plain_first(2, bits.2, list.2, indices, p.2, k)),
    );
    let seconds = (
        Seq::new(n, |k: int| plain_second(0, bits.0, list.0, indices, p.0, k)),
        Seq::new(n, |k: int| plain_second(1, bits.1, list.1, indices, p.1, k)),
        Seq::new(n, |k: int| plain_second(2, bits.2, list.2, indices, p.2, k)),
    );
    assert((2 * n) / 2 == n);
    lemma_written_disjoint(start.0, indices, firsts.0, seconds.0, n);
    lemma_written_disjoint(start.1, indices, firsts.1, seconds.1, n);
    lemma_written_disjoint(start.2, indices, firsts.2, seconds.2, n);
    let r = (
        plain_swapped_list(0, bits.0, list.0, indices, p.0),
        plain_swapped_list(1, bits.1, list.1, indices, p.1),
        plain_swapped_list(2, bits.2, list.2, indices, p.2),
    );
    assert forall|k: int| 0 <= k < n implies {
        let (i, j) = ((#[trigger] indices[k]).0 as int, indices[k].1 as int);
        &&& stand_for_entry(
            (r.0[i], r.1[i], r.2[i]),
            shared_entry(
                if plain[k] {
                    values[i]
                } else {
                    values[j]
                },
            ),
        )
        &&& stand_for_entry(
            (r.0[j], r.1[j], r.2[j]),
            shared_entry(
                if plain[k] {
                    values[j]
                } else {
                    values[i]
                },
            ),
        )
    } by {
        let (i, j) = (indices[k].0 as int, indices[k].1 as int);
        assert(i < values.len() && j < values.len());
        let b = plain[k];
        let c = (bits.0[k], bits.1[k], bits.2[k]);
        let pairs = (
            pairs_at(list.0, indices),
            pairs_at(list.1, indices),
            pairs_at(list.2, indices),
        );
        assert(values[i].0 == list.0[i].0 && values[j].0 == list.0[j].0);
        lemma_selection_correct(prf, pairs, bits, k, b, values[i].1, values[j].1);
        let (d0, d1, d2) = (pairs.0[k], pairs.1[k], pairs.2[k]);
        let taken = (
            selected_distance(d0, p.0, k),
            selected_distance(d1, p.1, k),
            selected_distance(d2, p.2, k),
        );
        lemma_other_value(
            (d0.0.code_dot, d1.0.code_dot, d2.0.code_dot),
            (d0.1.code_dot, d1.1.code_dot, d2.1.code_dot),
            (taken.0.code_dot, taken.1.code_dot, taken.2.code_dot),
            b,
        );
        lemma_other_value(
            (d0.0.mask_dot, d1.0.mask_dot, d2.0.mask_dot),
            (d0.1.mask_dot, d1.1.mask_dot, d2.1.mask_dot),
            (taken.0.mask_dot, taken.1.mask_dot, taken.2.mask_dot),
            b,
        );
        lemma_chosen_id(c, values[i].0, values[j].0, b);
        lemma_chosen_id(c, values[j].0, values[i].0, b);
    }
    assert forall|i: int|
        0 <= i < values.len() && (forall|k: int|
            0 <= k < n ==> (#[trigger] indices[k]).0 != i && indices[k].1
                != i) implies stand_for_entry(
        (r.0[i], r.1[i], r.2[i]),
        shared_entry(#[trigger] values[i]),
    ) by {
        assert(r.0[i] == start.0[i] && r.1[i] == start.1[i] && r.2[i] == start.2[i]);
        lemma_const_share_value(T::of_int(values[i].0 as int));
    }
}

} // verus!
