//! Vectors of bit planes: each plane holds one bit of every element of a batch, as word shares.

use crate::binary::{and_many_send, and_parts, join_parts, zip_shares};
use crate::message::ProtocolError;
use crate::prf::{Prf, PrfDraw};
use crate::ring::IntRing2k;
use crate::shares::{Share, XorShare};
use vstd::prelude::*;

verus! {

/// Both vectors have as many planes, and planes at the same place are equally long.
pub open spec fn same_shape<A, B>(x: Seq<Vec<A>>, y: Seq<Vec<B>>) -> bool {
    &&& x.len() == y.len()
    &&& forall|i: int| 0 <= i < x.len() ==> (#[trigger] x[i])@.len() == y[i]@.len()
}

/// The first `n` planes one after the other.
pub open spec fn flat<A>(x: Seq<Vec<A>>, n: nat) -> Seq<A>
    decreases n,
{
    if n == 0 {
        Seq::empty()
    } else {
        flat(x, (n - 1) as nat) + x[n - 1]@
    }
}

/// Entry `k` of plane `i` is found after all entries of the planes before it.
pub proof fn lemma_flat_index<A>(x: Seq<Vec<A>>, n: nat, i: int, k: int)
    requires
        n <= x.len(),
        0 <= i < n,
        0 <= k < x[i]@.len(),
    ensures
        flat(x, i as nat).len() + k < flat(x, n).len(),
        flat(x, n)[flat(x, i as nat).len() + k] == x[i]@[k],
    decreases n,
{
    if i < n - 1 {
        lemma_flat_index(x, (n - 1) as nat, i, k);
    }
}

/// Planes of the same shape are equally long one after the other.
pub proof fn lemma_flat_len<A, B>(x: Seq<Vec<A>>, y: Seq<Vec<B>>, n: nat)
    requires
        same_shape(x, y),
        n <= x.len(),
    ensures
        flat(x, n).len() == flat(y, n).len(),
    decreases n,
{
    if n > 0 {
        lemma_flat_len(x, y, (n - 1) as nat);
        assert(x[n - 1]@.len() == y[n - 1]@.len());
    }
}

/// The planes one after the other are the planes joined end to end.
pub proof fn lemma_flat_joins<A>(x: Seq<Vec<A>>)
    ensures
        flat(x, x.len()) == x.map_values(|plane: Vec<A>| plane@).flatten(),
{
    lemma_flat_joins_front(x, x.len());
    assert(x.take(x.len() as int) =~= x);
}

proof fn lemma_flat_joins_front<A>(x: Seq<Vec<A>>, n: nat)
    requires
        n <= x.len(),
    ensures
        flat(x, n) == x.take(n as int).map_values(|plane: Vec<A>| plane@).flatten(),
    decreases n,
{
    let all = x.take(n as int).map_values(|plane: Vec<A>| plane@);
    all.lemma_flatten_and_flatten_alt_are_equivalent();
    if n > 0 {
        lemma_flat_joins_front(x, (n - 1) as nat);
        let rest = x.take(n - 1).map_values(|plane: Vec<A>| plane@);
        rest.lemma_flatten_and_flatten_alt_are_equivalent();
        assert(all.drop_last() =~= rest);
    }
}

/// Whether two vectors of planes have the same shape.
pub fn shapes_agree<A, B>(x: &[Vec<A>], y: &[Vec<B>]) -> (r: bool)
    ensures
        r == same_shape(x@, y@),
        r == (x@.len() == y@.len() && forall|i: int|
            0 <= i < x@.len() ==> (#[trigger] x@[i])@.len() == y@[i]@.len()),
{
    if x.len() != y.len() {
        return false;
    }
    let mut i: usize = 0;
    while i < x.len()
        invariant
            x@.len() == y@.len(),
            i <= x@.len(),
            forall|j: int| 0 <= j < i ==> (#[trigger] x@[j])@.len() == y@[j]@.len(),
        decreases x@.len() - i,
    {
        if x[i].len() != y[i].len() {
            return false;
        }
        i += 1;
    }
    true
}

/// The planes one after the other.
pub fn flatten<A: Copy>(x: &[Vec<A>]) -> (r: Vec<A>)
    ensures
        r@ == flat(x@, x@.len()),
        r@ == x@.map_values(|plane: Vec<A>| plane@).flatten(),
{
    let mut out: Vec<A> = Vec::new();
    let mut i: usize = 0;
    while i < x.len()
        invariant
            i <= x@.len(),
            out@ == flat(x@, i as nat),
        decreases x@.len() - i,
    {
        let mut k: usize = 0;
        while k < x[i].len()
            invariant
                i < x@.len(),
                k <= x@[i as int]@.len(),
                out@ == flat(x@, i as nat) + x@[i as int]@.subrange(0, k as int),
            decreases x@[i as int]@.len() - k,
        {
            out.push(x[i][k]);
            assert(out@ =~= flat(x@, i as nat) + x@[i as int]@.subrange(0, k + 1));
            k += 1;
        }
        assert(x@[i as int]@.subrange(0, k as int) =~= x@[i as int]@);
        i += 1;
    }
    proof {
        lemma_flat_joins(x@);
    }
    out
}

/// The exclusive or of two vectors of shares, entry by entry.
pub open spec fn xor_seq<S: XorShare>(x: Seq<S>, y: Seq<S>) -> Seq<S> {
    Seq::new(x.len(), |i: int| x[i].xor_of(y[i]))
}

/// The exclusive or of two vectors of shares, entry by entry.
pub fn xor_vec<S: XorShare>(x: &[S], y: &[S]) -> (r: Vec<S>)
    requires
        x@.len() == y@.len(),
    ensures
        r@ == xor_seq(x@, y@),
        r@.len() == x@.len(),
        forall|i: int| 0 <= i < r@.len() ==> #[trigger] r@[i] == x@[i].xor_of(y@[i]),
{
    let mut out: Vec<S> = Vec::new();
    let mut i: usize = 0;
    while i < x.len()
        invariant
            x@.len() == y@.len(),
            i <= x@.len(),
            out@.len() == i,
            forall|j: int| 0 <= j < i ==> #[trigger] out@[j] == x@[j].xor_of(y@[j]),
        decreases x@.len() - i,
    {
        out.push(x[i].xored(y[i]));
        i += 1;
    }
    assert(out@ =~= xor_seq(x@, y@));
    out
}

/// The exclusive or of two vectors of bit planes.
pub fn transposed_pack_xor<S: XorShare>(x1: &[Vec<S>], x2: &[Vec<S>]) -> (r: Vec<
    Vec<S>,
>)
    requires
        same_shape(x1@, x2@),
    ensures
        same_shape(r@, x1@),
        forall|i: int| 0 <= i < r@.len() ==> (#[trigger] r@[i])@ == xor_seq(x1@[i]@, x2@[i]@),
        r@.len() == x1@.len(),
        forall|i: int, k: int|
            0 <= i < r@.len() && 0 <= k < x1@[i]@.len() ==> r@[i]@.len() == x1@[i]@.len()
                && #[trigger] r@[i]@[k] == x1@[i]@[k].xor_of(x2@[i]@[k]),
{
    let mut out: Vec<Vec<S>> = Vec::new();
    let mut i: usize = 0;
    while i < x1.len()
        invariant
            same_shape(x1@, x2@),
            i <= x1@.len(),
            out@.len() == i,
            forall|j: int| 0 <= j < i ==> (#[trigger] out@[j])@ == xor_seq(x1@[j]@, x2@[j]@),
        decreases x1@.len() - i,
    {
        assert(x1@[i as int]@.len() == x2@[i as int]@.len());
        out.push(xor_vec(x1[i].as_slice(), x2[i].as_slice()));
        i += 1;
    }
    out
}

/// The exclusive or of two vectors of bit planes, in place.
pub fn transposed_pack_xor_assign<S: XorShare>(x1: &mut Vec<Vec<S>>, x2: &[Vec<S>])
    requires
        same_shape(old(x1)@, x2@),
    ensures
        same_shape(final(x1)@, old(x1)@),
        forall|i: int|
            0 <= i < final(x1)@.len() ==> (#[trigger] final(x1)@[i])@ == xor_seq(
                old(x1)@[i]@,
                x2@[i]@,
            ),
        final(x1)@.len() == old(x1)@.len(),
        forall|i: int, k: int|
            0 <= i < final(x1)@.len() && 0 <= k < old(x1)@[i]@.len() ==> final(x1)@[i]@.len()
                == old(x1)@[i]@.len() && #[trigger] final(x1)@[i]@[k] == old(x1)@[i]@[k].xor_of(
                x2@[i]@[k],
            ),
{
    let out: Vec<Vec<S>> = transposed_pack_xor(x1.as_slice(), x2);
    *x1 = out;
}

/// First step of the bitwise and of two vectors of bit planes: the local parts of all planes,
/// which go to the next party.
pub fn transposed_pack_and_send<T: IntRing2k + PrfDraw>(
    prf: &mut Prf,
    x1: &[Vec<Share<T>>],
    x2: &[Vec<Share<T>>],
) -> (r: Result<Vec<T>, ProtocolError>)
    ensures
        !same_shape(x1@, x2@) ==> {
            &&& r == Err::<Vec<T>, ProtocolError>(ProtocolError::LengthMismatch)
            &&& *final(prf) == *old(prf)
        },
        same_shape(x1@, x2@) ==> {
            let (a, b) = (flat(x1@, x1@.len()), flat(x2@, x2@.len()));
            &&& r is Ok
            &&& r->Ok_0@ == and_parts(*old(prf), a, b)
            &&& *final(prf) == old(prf).after::<T>(a.len() as int)
        },
{
    if !shapes_agree(x1, x2) {
        return Err(ProtocolError::LengthMismatch);
    }
    proof {
        lemma_flat_len(x1@, x2@, x1@.len());
    }
    let a: Vec<Share<T>> = flatten(x1);
    let b: Vec<Share<T>> = flatten(x2);
    and_many_send(prf, a.as_slice(), b.as_slice())
}

/// Last step of the bitwise and of two vectors of bit planes: joins the own parts with those of
/// the previous party and restores the shape of the operands.
pub fn transposed_pack_and<T: IntRing2k>(
    shape: &[Vec<Share<T>>],
    own: &[T],
    received: &[T],
) -> (r: Result<Vec<Vec<Share<T>>>, ProtocolError>)
    requires
        own@.len() == flat(shape@, shape@.len()).len(),
    ensures
        own@.len() != received@.len() ==> r == Err::<Vec<Vec<Share<T>>>, ProtocolError>(
            ProtocolError::LengthMismatch,
        ),
        own@.len() == received@.len() ==> {
            &&& r is Ok
            &&& same_shape(r->Ok_0@, shape@)
            &&& flat(r->Ok_0@, shape@.len()) == zip_shares(own@, received@)
        },
{
    let joined: Vec<Share<T>> = match join_parts(own, received) {
        Ok(v) => v,
        Err(e) => {
            return Err(e);
        },
    };
    let mut out: Vec<Vec<Share<T>>> = Vec::new();
    let total: usize = joined.len();
    let mut offset: usize = 0;
    let mut i: usize = 0;
    while i < shape.len()
        invariant
            total == joined@.len(),
            i <= shape@.len(),
            joined@.len() == flat(shape@, shape@.len()).len(),
            offset == flat(shape@, i as nat).len(),
            offset <= joined@.len(),
            out@.len() == i,
            forall|j: int| 0 <= j < i ==> (#[trigger] out@[j])@.len() == shape@[j]@.len(),
            flat(out@, i as nat) == joined@.subrange(0, offset as int),
        decreases shape@.len() - i,
    {
        proof {
            lemma_flat_mono(shape@, (i + 1) as nat, shape@.len());
        }
        let len: usize = shape[i].len();
        let ghost before = out@;
        let mut plane: Vec<Share<T>> = Vec::new();
        let mut k: usize = 0;
        while k < len
            invariant
                k <= len,
                total == joined@.len(),
                offset + len <= total,
                plane@ == joined@.subrange(offset as int, offset + k),
            decreases len - k,
        {
            plane.push(joined[offset + k]);
            assert(plane@ =~= joined@.subrange(offset as int, offset + k + 1));
            k += 1;
        }
        out.push(plane);
        proof {
            lemma_flat_prefix(before, out@, i as nat);
            assert(joined@.subrange(0, offset as int) + joined@.subrange(
                offset as int,
                offset + len,
            ) =~= joined@.subrange(0, offset + len));
        }
        offset += len;
        i += 1;
    }
    assert(joined@.subrange(0, offset as int) =~= joined@);
    Ok(out)
}

proof fn lemma_flat_mono<A>(x: Seq<Vec<A>>, m: nat, n: nat)
    requires
        m <= n,
    ensures
        flat(x, m).len() <= flat(x, n).len(),
    decreases n,
{
    if m < n {
        lemma_flat_mono(x, m, (n - 1) as nat);
    }
}

/// The planes at the front decide what comes first.
pub proof fn lemma_flat_prefix<A>(x: Seq<Vec<A>>, y: Seq<Vec<A>>, n: nat)
    requires
        n <= x.len() <= y.len(),
        forall|i: int| 0 <= i < n ==> x[i] == y[i],
    ensures
        flat(x, n) == flat(y, n),
    decreases n,
{
    if n > 0 {
        lemma_flat_prefix(x, y, (n - 1) as nat);
    }
}

} // verus!
