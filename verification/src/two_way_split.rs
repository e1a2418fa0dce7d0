//! Splitting arithmetic shares into two binary sharings whose values add up to the shared value.
//!
//! The input is cut into three chunks, one per party. The party of a chunk knows two of the three
//! parts of each value; it adds them, masks the sum with a value that it draws together with the
//! previous party, and sends it to the next party. The third part is the second summand.

use crate::message::ProtocolError;
use crate::player::Role;
use crate::prf::{drawn_batch, in_step, Prf, PrfDraw};
use crate::ring::IntRing2k;
use crate::ring_lemmas::{group_bits, lemma_absorb, lemma_bits_ext, zero};
use crate::shares::{consistent, sum_value, xor_value, Share};
use vstd::arithmetic::div_mod::*;
use vstd::prelude::*;

verus! {

/// The length of a chunk but the last ones, which may be shorter.
pub open spec fn piece(len: int) -> int {
    (len + 2) / 3
}

/// Where chunk `c` starts; chunk 3 starts at the end.
pub open spec fn chunk_start(len: int, c: int) -> int {
    if c * piece(len) <= len {
        c * piece(len)
    } else {
        len
    }
}

/// The length of chunk `c`.
pub open spec fn chunk_len(len: int, c: int) -> int {
    chunk_start(len, c + 1) - chunk_start(len, c)
}

/// Where chunk `c` of an input starts.
pub fn start_of(len: usize, c: usize) -> (r: usize)
    requires
        c <= 3,
    ensures
        r == chunk_start(len as int, c as int),
        r == if c * ((len + 2) / 3) <= len {
            c * ((len + 2) / 3)
        } else {
            len as int
        },
        c == 3 ==> r == len,
        r <= len,
{
    let third: usize = if len % 3 == 0 {
        len / 3
    } else {
        len / 3 + 1
    };
    assert(third == piece(len as int));
    if c == 0 {
        0
    } else if c == 1 {
        third
    } else if c == 2 {
        if third <= len - third {
            2 * third
        } else {
            len
        }
    } else {
        len
    }
}

/// What a party draws and sends. `t` goes to the next party.
#[derive(Debug)]
pub struct SplitSent<T> {
    pub t: Vec<T>,
    pub r_prev: Vec<T>,
    pub r_next: Vec<T>,
}

/// The masked sum that the party of a chunk sends for one value.
pub open spec fn masked_sum<T: IntRing2k>(x: Share<T>, r: T) -> T {
    T::of_int(x.a.val() + x.b.val()).bxor(r)
}

/// What a party sends and draws for an input.
pub open spec fn split_sent<T: IntRing2k + PrfDraw>(
    role: int,
    prf: Prf,
    input: Seq<Share<T>>,
    sent: SplitSent<T>,
) -> bool {
    let len = input.len() as int;
    &&& sent.r_prev@ == drawn_batch::<T>(prf.prev_prf, chunk_len(len, role) as nat)
    &&& sent.r_next@ == drawn_batch::<T>(prf.my_prf, chunk_len(len, (role + 1) % 3) as nat)
    &&& sent.t@ == Seq::new(
        chunk_len(len, role) as nat,
        |i: int| masked_sum(input[chunk_start(len, role) + i], sent.r_prev@[i]),
    )
}

/// First step: draws the masks and computes what goes to the next party.
pub fn two_way_split_send<T: IntRing2k + PrfDraw>(
    own_role: Role,
    prf: &mut Prf,
    input: &[Share<T>],
) -> (r: Result<SplitSent<T>, ProtocolError>)
    ensures
        own_role.index >= 3 ==> {
            &&& r == Err::<SplitSent<T>, ProtocolError>(ProtocolError::UnsupportedRole)
            &&& *final(prf) == *old(prf)
        },
        own_role.index < 3 ==> {
            &&& r is Ok
            &&& split_sent(own_role.index as int, *old(prf), input@, r->Ok_0)
            &&& *final(prf) == (Prf {
                my_prf: old(prf).my_prf.advanced(
                    chunk_len(input@.len() as int, (own_role.index + 1) % 3) * T::words(),
                ),
                prev_prf: old(prf).prev_prf.advanced(
                    chunk_len(input@.len() as int, own_role.index as int) * T::words(),
                ),
            })
        },
        r is Ok ==> {
            let start = chunk_start(input@.len() as int, own_role.index as int);
            &&& r->Ok_0.t@.len() == chunk_start(input@.len() as int, own_role.index + 1) - start
            &&& r->Ok_0.r_prev@.len() == r->Ok_0.t@.len()
            &&& forall|i: int|
                0 <= i < r->Ok_0.t@.len() ==> #[trigger] r->Ok_0.t@[i] == T::of_int(
                    input@[start + i].a.val() + input@[start + i].b.val(),
                ).bxor(r->Ok_0.r_prev@[i])
        },
{
    if own_role.index >= 3 {
        return Err(ProtocolError::UnsupportedRole);
    }
    let len: usize = input.len();
    let start: usize = start_of(len, own_role.index);
    let end: usize = start_of(len, own_role.index + 1);
    let next: usize = if own_role.index == 2 {
        0
    } else {
        own_role.index + 1
    };
    let next_start: usize = start_of(len, next);
    let next_end: usize = start_of(len, next + 1);
    proof {
        lemma_chunks(len as int);
    }
    let r_prev: Vec<T> = prf.gen_rands_prev(end - start);
    let r_next: Vec<T> = prf.gen_rands_mine(next_end - next_start);
    let mut t: Vec<T> = Vec::new();
    let mut i: usize = 0;
    while i < end - start
        invariant
            start <= end <= len,
            len == input@.len(),
            r_prev@.len() == end - start,
            i <= end - start,
            t@.len() == i,
            forall|j: int|
                0 <= j < i ==> #[trigger] t@[j] == masked_sum(input@[start + j], r_prev@[j]),
        decreases end - start - i,
    {
        let sum: T = input[start + i].a.ring_add(input[start + i].b);
        t.push(sum.ring_xor(r_prev[i]));
        i += 1;
    }
    assert(t@ =~= Seq::new(
        (end - start) as nat,
        |i: int| masked_sum(input@[start + i], r_prev@[i]),
    ));
    Ok(SplitSent { t, r_prev, r_next })
}

proof fn lemma_chunks(len: int)
    requires
        0 <= len,
    ensures
        chunk_start(len, 0) == 0,
        chunk_start(len, 3) == len,
        0 <= chunk_start(len, 1) <= chunk_start(len, 2) <= len,
{
}

/// The two binary shares of one value that a party ends with. `mask` is the value that the party
/// drew for it, `t` the masked sum that it sent or received.
pub open spec fn split_element<T: IntRing2k>(
    role: int,
    chunk: int,
    x: Share<T>,
    mask: T,
    t: T,
) -> (Share<T>, Share<T>) {
    let z = zero::<T>();
    if chunk == role {
        (Share { a: t, b: mask }, Share { a: z, b: z })
    } else if (chunk + 1) % 3 == role {
        (Share { a: z, b: t }, Share { a: x.a, b: z })
    } else {
        (Share { a: mask, b: z }, Share { a: z, b: x.b })
    }
}

/// The chunk that a place belongs to.
pub open spec fn chunk_of(len: int, i: int) -> int {
    if i < chunk_start(len, 1) {
        0
    } else if i < chunk_start(len, 2) {
        1
    } else {
        2
    }
}

/// The two binary shares that a party ends with at place `i`.
pub open spec fn split_at<T: IntRing2k>(
    role: int,
    input: Seq<Share<T>>,
    sent: SplitSent<T>,
    received: Seq<T>,
    i: int,
) -> (Share<T>, Share<T>) {
    let len = input.len() as int;
    let chunk = chunk_of(len, i);
    let k = i - chunk_start(len, chunk);
    if chunk == role {
        split_element(role, chunk, input[i], sent.r_prev@[k], sent.t@[k])
    } else if (chunk + 1) % 3 == role {
        split_element(role, chunk, input[i], zero::<T>(), received[k])
    } else {
        split_element(role, chunk, input[i], sent.r_next@[k], zero::<T>())
    }
}

/// What a party ends with at place `i`, told apart by the chunk of the place: in its own chunk the
/// masked sum and the mask, in the one before the received sum and its first part, in the one after
/// the mask and its second part. Everything else is zero.
pub proof fn lemma_split_places<T: IntRing2k>(
    role: int,
    input: Seq<Share<T>>,
    sent: SplitSent<T>,
    received: Seq<T>,
    i: int,
)
    requires
        0 <= role < 3,
        0 <= i < input.len(),
    ensures
        ({
            let piece = (input.len() + 2) / 3;
            let k = i % piece as int;
            let p = split_at(role, input, sent, received, i);
            let z = T::of_int(0);
            &&& i / piece as int == role ==> p == (
                Share { a: sent.t@[k], b: sent.r_prev@[k] },
                Share { a: z, b: z },
            )
            &&& i / piece as int == (role + 2) % 3 ==> p == (
                Share { a: z, b: received[k] },
                Share { a: input[i].a, b: z },
            )
            &&& i / piece as int == (role + 1) % 3 ==> p == (
                Share { a: sent.r_next@[k], b: z },
                Share { a: z, b: input[i].b },
            )
        }),
{
    let len = input.len() as int;
    let size = (len + 2) / 3;
    lemma_chunks(len);
    let c = chunk_of(len, i);
    let k = i - chunk_start(len, c);
    assert(0 <= k < size);
    assert(chunk_start(len, c) == c * size);
    lemma_fundamental_div_mod_converse(i, size, c, k);
}

/// Last step: takes the masked sums of the previous party and assembles the two sharings.
pub fn two_way_split<T: IntRing2k>(
    own_role: Role,
    input: &[Share<T>],
    sent: &SplitSent<T>,
    received: &[T],
) -> (r: Result<(Vec<Share<T>>, Vec<Share<T>>), ProtocolError>)
    requires
        own_role.index < 3 ==> {
            let len = input@.len() as int;
            &&& sent.t@.len() == chunk_len(len, own_role.index as int)
            &&& sent.r_prev@.len() == chunk_len(len, own_role.index as int)
            &&& sent.r_next@.len() == chunk_len(len, (own_role.index + 1) % 3)
        },
    ensures
        own_role.index >= 3 ==> r == Err::<(Vec<Share<T>>, Vec<Share<T>>), ProtocolError>(
            ProtocolError::UnsupportedRole,
        ),
        own_role.index < 3 ==> {
            let len = input@.len() as int;
            let role = own_role.index as int;
            if received@.len() != chunk_len(len, (role + 2) % 3) {
                r == Err::<(Vec<Share<T>>, Vec<Share<T>>), ProtocolError>(
                    ProtocolError::LengthMismatch,
                )
            } else {
                &&& r is Ok
                &&& r->Ok_0.0@ == Seq::new(
                    len as nat,
                    |i: int| split_at(role, input@, *sent, received@, i).0,
                )
                &&& r->Ok_0.1@ == Seq::new(
                    len as nat,
                    |i: int| split_at(role, input@, *sent, received@, i).1,
                )
            }
        },
{
    if own_role.index >= 3 {
        return Err(ProtocolError::UnsupportedRole);
    }
    let role: usize = own_role.index;
    let len: usize = input.len();
    let prev: usize = if role == 0 {
        2
    } else {
        role - 1
    };
    let first: usize = start_of(len, 1);
    let second: usize = start_of(len, 2);
    let prev_start: usize = start_of(len, prev);
    let prev_end: usize = start_of(len, prev + 1);
    proof {
        lemma_chunks(len as int);
    }
    if received.len() != prev_end - prev_start {
        return Err(ProtocolError::LengthMismatch);
    }
    let nil: T = T::from_bit(false);
    let mut s1: Vec<Share<T>> = Vec::new();
    let mut s2: Vec<Share<T>> = Vec::new();
    let mut i: usize = 0;
    while i < len
        invariant
            len == input@.len(),
            role < 3,
            prev == (role + 2) % 3,
            nil == zero::<T>(),
            first == chunk_start(len as int, 1),
            second == chunk_start(len as int, 2),
            chunk_start(len as int, 0) == 0,
            chunk_start(len as int, 3) == len,
            0 <= first <= second <= len,
            sent.t@.len() == chunk_len(len as int, role as int),
            sent.r_prev@.len() == chunk_len(len as int, role as int),
            sent.r_next@.len() == chunk_len(len as int, (role + 1) % 3),
            received@.len() == chunk_len(len as int, prev as int),
            i <= len,
            s1@.len() == i,
            s2@.len() == i,
            forall|j: int|
                0 <= j < i ==> #[trigger] s1@[j] == split_at(
                    role as int,
                    input@,
                    *sent,
                    received@,
                    j,
                ).0,
            forall|j: int|
                0 <= j < i ==> #[trigger] s2@[j] == split_at(
                    role as int,
                    input@,
                    *sent,
                    received@,
                    j,
                ).1,
        decreases len - i,
    {
        let (chunk, start): (usize, usize) = if i < first {
            (0, 0)
        } else if i < second {
            (1, first)
        } else {
            (2, second)
        };
        let k: usize = i - start;
        if chunk == role {
            s1.push(Share { a: sent.t[k], b: sent.r_prev[k] });
            s2.push(Share { a: nil, b: nil });
        } else if chunk == prev {
            s1.push(Share { a: nil, b: received[k] });
            s2.push(Share { a: input[i].a, b: nil });
        } else {
            s1.push(Share { a: sent.r_next[k], b: nil });
            s2.push(Share { a: nil, b: input[i].b });
        }
        i += 1;
    }
    assert(s1@ =~= Seq::new(
        len as nat,
        |i: int| split_at(role as int, input@, *sent, received@, i).0,
    ));
    assert(s2@ =~= Seq::new(
        len as nat,
        |i: int| split_at(role as int, input@, *sent, received@, i).1,
    ));
    Ok((s1, s2))
}

/// The split is correct for one value: `x` is the share of the party of its chunk, `y` that of
/// the next party and `z` that of the previous one. Both sharings are consistent, and their
/// values add up to the shared value.
pub proof fn lemma_split_element<T: IntRing2k>(
    chunk: int,
    x: Share<T>,
    y: Share<T>,
    z: Share<T>,
    r: T,
)
    requires
        0 <= chunk < 3,
        consistent(x, y, z),
    ensures
        ({
            let t = masked_sum(x, r);
            let p = split_element(chunk, chunk, x, r, t);
            let q = split_element((chunk + 1) % 3, chunk, y, zero::<T>(), t);
            let s = split_element((chunk + 2) % 3, chunk, z, r, zero::<T>());
            &&& consistent(p.0, q.0, s.0)
            &&& consistent(p.1, q.1, s.1)
            &&& T::of_int(xor_value(p.0, q.0, s.0).val() + xor_value(p.1, q.1, s.1).val())
                == sum_value(x, y, z)
        }),
{
    broadcast use group_bits;

    let sum = T::of_int(x.a.val() + x.b.val());
    let t = masked_sum(x, r);
    let p = split_element(chunk, chunk, x, r, t);
    let q = split_element((chunk + 1) % 3, chunk, y, zero::<T>(), t);
    let s = split_element((chunk + 2) % 3, chunk, z, r, zero::<T>());
    lemma_bits_ext(xor_value(p.0, q.0, s.0), sum);
    lemma_bits_ext(xor_value(p.1, q.1, s.1), y.a);
    lemma_absorb::<T>(x.a.val() + x.b.val(), y.a.val());
}

/// The split is correct: at every place both sharings of the three parties are consistent, and
/// their values add up to the shared value. Each party receives what the previous one sent.
pub proof fn lemma_two_way_split_correct<T: IntRing2k + PrfDraw>(
    prf: (Prf, Prf, Prf),
    x: (Seq<Share<T>>, Seq<Share<T>>, Seq<Share<T>>),
    sent: (SplitSent<T>, SplitSent<T>, SplitSent<T>),
    i: int,
)
    requires
        in_step(prf.0, prf.1, prf.2),
        x.1.len() == x.0.len(),
        x.2.len() == x.0.len(),
        0 <= i < x.0.len(),
        consistent(x.0[i], x.1[i], x.2[i]),
        split_sent(0, prf.0, x.0, sent.0),
        split_sent(1, prf.1, x.1, sent.1),
        split_sent(2, prf.2, x.2, sent.2),
    ensures
        ({
            let p = split_at(0, x.0, sent.0, sent.2.t@, i);
            let q = split_at(1, x.1, sent.1, sent.0.t@, i);
            let s = split_at(2, x.2, sent.2, sent.1.t@, i);
            &&& consistent(p.0, q.0, s.0)
            &&& consistent(p.1, q.1, s.1)
            &&& T::of_int(xor_value(p.0, q.0, s.0).val() + xor_value(p.1, q.1, s.1).val())
                == sum_value(x.0[i], x.1[i], x.2[i])
        }),
{
    let len = x.0.len() as int;
    lemma_chunks(len);
    let chunk = chunk_of(len, i);
    let k = i - chunk_start(len, chunk);
    let p = split_at(0, x.0, sent.0, sent.2.t@, i);
    let q = split_at(1, x.1, sent.1, sent.0.t@, i);
    let s = split_at(2, x.2, sent.2, sent.1.t@, i);
    assert(0 <= k < chunk_len(len, chunk));
    if chunk == 0 {
        let r = sent.0.r_prev@[k];
        assert(sent.2.r_next@[k] == r);
        lemma_split_element(0, x.0[i], x.1[i], x.2[i], r);
    } else if chunk == 1 {
        let r = sent.1.r_prev@[k];
        assert(sent.0.r_next@[k] == r);
        lemma_split_element(1, x.1[i], x.2[i], x.0[i], r);
        lemma_rotate(q.0, s.0, p.0);
        lemma_rotate(q.1, s.1, p.1);
        lemma_rotate_sum(x.1[i], x.2[i], x.0[i]);
    } else {
        let r = sent.2.r_prev@[k];
        assert(sent.1.r_next@[k] == r);
        lemma_split_element(2, x.2[i], x.0[i], x.1[i], r);
        lemma_rotate(s.0, p.0, q.0);
        lemma_rotate(s.1, p.1, q.1);
        lemma_rotate(p.0, q.0, s.0);
        lemma_rotate(p.1, q.1, s.1);
        lemma_rotate_sum(x.2[i], x.0[i], x.1[i]);
    }
}

proof fn lemma_rotate<T: IntRing2k>(a: Share<T>, b: Share<T>, c: Share<T>)
    ensures
        xor_value(a, b, c) == xor_value(c, a, b),
        xor_value(a, b, c) == xor_value(b, c, a),
{
    broadcast use group_bits;

    lemma_bits_ext(xor_value(a, b, c), xor_value(c, a, b));
    lemma_bits_ext(xor_value(a, b, c), xor_value(b, c, a));
}

proof fn lemma_rotate_sum<T: IntRing2k>(a: Share<T>, b: Share<T>, c: Share<T>)
    ensures
        sum_value(a, b, c) == sum_value(c, a, b),
        sum_value(a, b, c) == sum_value(b, c, a),
{
}

} // verus!
