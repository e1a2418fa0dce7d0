//! What is drawn from a stream, in terms of the words of its key stream.

use crate::prf::{
    chacha8_word, draw_64, drawn_batch, drawn_choices, drawn_mod, first_accepted, lemma_advance,
    Prf, PrfDraw, PrfRng,
};
use crate::ring::IntRing2k;
use vstd::arithmetic::div_mod::*;
use vstd::prelude::*;

verus! {

/// A stream reads its key stream word by word from its position on, and starts over after `2^68`
/// words. Reading moves the position and keeps the key.
pub proof fn lemma_stream_words(rng: PrfRng, n: int, i: int)
    ensures
        rng.word(i) == chacha8_word(
            rng.key@,
            ((rng.pos + i) % 0x10_0000_0000_0000_0000) as nat,
        ),
        rng.advanced(n).key == rng.key,
        rng.advanced(n).word(i) == rng.word(n + i),
        rng.pos < 0x10_0000_0000_0000_0000 ==> rng.advanced(n).pos == (rng.pos + n)
            % 0x10_0000_0000_0000_0000,
        rng.advanced(0) == rng,
{
    lemma_advance(rng, n, i);
    lemma_fundamental_div_mod(rng.pos as int, 0x10_0000_0000_0000_0000);
    if rng.pos < 0x10_0000_0000_0000_0000 {
        lemma_basic_div(rng.pos as int, 0x10_0000_0000_0000_0000);
    }
}

/// A bit is the top bit of a word, small numbers are its low bits, and a number of 64 bits takes two
/// words, the low one first.
pub proof fn lemma_drawn_values(rng: PrfRng)
    ensures
        bool::words() == 1 && u8::words() == 1 && u16::words() == 1 && u32::words() == 1,
        u64::words() == 2,
        bool::drawn(rng) == (chacha8_word(
            rng.key@,
            (rng.pos % 0x10_0000_0000_0000_0000) as nat,
        ) >= 0x8000_0000),
        u8::drawn(rng) == chacha8_word(rng.key@, (rng.pos % 0x10_0000_0000_0000_0000) as nat)
            % 0x100,
        u16::drawn(rng) == chacha8_word(rng.key@, (rng.pos % 0x10_0000_0000_0000_0000) as nat)
            % 0x1_0000,
        u32::drawn(rng) == chacha8_word(rng.key@, (rng.pos % 0x10_0000_0000_0000_0000) as nat),
        u64::drawn(rng) == chacha8_word(rng.key@, (rng.pos % 0x10_0000_0000_0000_0000) as nat)
            + 0x1_0000_0000 * chacha8_word(
            rng.key@,
            ((rng.pos + 1) % 0x10_0000_0000_0000_0000) as nat,
        ),
{
}

/// A batch is what single draws give one after the other: a batch of one is one draw, and a longer
/// batch is a shorter one followed by what the stream gives after it.
pub proof fn lemma_batches_follow<T: PrfDraw>(rng: PrfRng, m: nat, n: nat)
    ensures
        drawn_batch::<T>(rng, 0) == Seq::<T>::empty(),
        drawn_batch::<T>(rng, 1) == seq![T::drawn(rng)],
        drawn_batch::<T>(rng, m + n) == drawn_batch::<T>(rng, m) + drawn_batch::<T>(
            rng.advanced(m * T::words()),
            n,
        ),
{
    let w = T::words();
    lemma_stream_words(rng, 0, 0);
    assert(0 * w == 0);
    assert(drawn_batch::<T>(rng, 0) =~= Seq::<T>::empty());
    assert(drawn_batch::<T>(rng, 1) =~= seq![T::drawn(rng)]);
    assert forall|i: int| 0 <= i < m + n implies #[trigger] drawn_batch::<
        T,
    >(rng, m + n)[i] == (drawn_batch::<
        T,
    >(rng, m) + drawn_batch::<T>(rng.advanced(m * w), n))[i] by {
        if i >= m {
            let k = i - m;
            lemma_advance(rng, m * w, k * w);
            assert(m * w + k * w == i * w) by (nonlinear_arith)
                requires
                    k == i - m,
            ;
        }
    }
    assert(drawn_batch::<T>(rng, m + n) =~= drawn_batch::<T>(rng, m) + drawn_batch::<T>(
        rng.advanced(m * w),
        n,
    ));
}

/// The shares of zero that three values give: every party takes the value that it shares with the
/// previous party off the one that it shares with the next.
pub proof fn lemma_zero_share_value<T: IntRing2k + PrfDraw>(prf: Prf)
    ensures
        (prf.zero_share::<T>().val() + T::drawn(prf.prev_prf).val()) % T::modulus() == T::drawn(
            prf.my_prf,
        ).val(),
        prf.binary_zero_share::<T>() == T::drawn(prf.my_prf).bxor(T::drawn(prf.prev_prf)),
        prf.after::<T>(1).my_prf == prf.my_prf.advanced(T::words()),
        prf.after::<T>(1).prev_prf == prf.prev_prf.advanced(T::words()),
{
    let (a, b) = (T::drawn(prf.my_prf), T::drawn(prf.prev_prf));
    T::law_modulus();
    a.law_val();
    b.law_val();
    T::law_of_int(a.val() - b.val());
    T::law_of_int(a.val());
    lemma_add_mod_noop(a.val() - b.val(), b.val(), T::modulus());
    lemma_mod_twice(a.val() - b.val(), T::modulus());
    lemma_add_mod_noop((a.val() - b.val()) % T::modulus(), b.val(), T::modulus());
    lemma_small_mod(a.val() as nat, T::modulus() as nat);
}

/// The streams after several values are the streams after the values one by one.
pub proof fn lemma_streams_advance<T: PrfDraw>(prf: Prf, m: int, n: int)
    ensures
        prf.after::<T>(0) == prf,
        prf.after::<T>(m).after::<T>(n) == prf.after::<T>(m + n),
{
    let w = T::words();
    assert(0 * w == 0);
    lemma_stream_words(prf.my_prf, 0, 0);
    lemma_stream_words(prf.prev_prf, 0, 0);
    assert(m * w + n * w == (m + n) * w) by (nonlinear_arith);
    lemma_advance(prf.my_prf, m * w, n * w);
    lemma_advance(prf.prev_prf, m * w, n * w);
}

/// Which values rejection sampling takes: those in a complete run of residues.
proof fn lemma_accepted(v: u64, modulus: u32)
    requires
        modulus > 0,
    ensures
        (v <= crate::prf::bound_for(modulus)) == (v - v % modulus as u64 + modulus
            <= 0x1_0000_0000_0000_0000),
{
    let m = modulus as int;
    let w = 0x1_0000_0000_0000_0000int;
    let (q, r) = (w / m, w % m);
    let (x, y) = (v as int / m, v as int % m);
    lemma_fundamental_div_mod(w, m);
    lemma_fundamental_div_mod(v as int, m);
    lemma_mod_bound(w, m);
    lemma_mod_bound(v as int, m);
    let b = u64::MAX - (u64::MAX % modulus as u64 + 1) % m;
    lemma_add_mod_noop(u64::MAX as int, 1, m);
    lemma_mod_twice(u64::MAX as int, m);
    lemma_add_mod_noop(u64::MAX as int % m, 1, m);
    assert((u64::MAX % modulus as u64 + 1) % m == r);
    assert(b == w - 1 - r);
    assert(m * q >= 0) by (nonlinear_arith)
        requires
            m * q + r == w,
            r < m <= 0xffff_ffff,
            w == 0x1_0000_0000_0000_0000,
    ;
    assert((v <= b) == (m * x + m <= w)) by (nonlinear_arith)
        requires
            b == m * q - 1,
            w == m * q + r,
            v == m * x + y,
            0 <= y < m,
            0 <= r < m,
    {
        if x < q {
            assert(m * x + m <= m * q);
        } else {
            assert(m * x >= m * q);
        }
    }
}

/// The first accepted value comes after rejected ones only.
proof fn lemma_first_accepted(rng: PrfRng, bound: u64, j: nat)
    ensures
        match first_accepted(rng, bound, j) {
            Some(k) => {
                &&& j <= k < crate::prf::STREAM_DRAWS
                &&& draw_64(rng, k) <= bound
                &&& forall|i: nat| j <= i < k ==> #[trigger] draw_64(rng, i) > bound
            },
            None => forall|i: nat|
                j <= i < crate::prf::STREAM_DRAWS ==> #[trigger] draw_64(rng, i) > bound,
        },
    decreases crate::prf::STREAM_DRAWS - j,
{
    if j < crate::prf::STREAM_DRAWS && draw_64(rng, j) > bound {
        lemma_first_accepted(rng, bound, j + 1);
    }
}

/// The `k`-th value of 64 bits that a stream gives.
pub open spec fn value_at(rng: PrfRng, k: int) -> int {
    chacha8_word(rng.key@, ((rng.pos + 2 * k) % 0x10_0000_0000_0000_0000) as nat) + 0x1_0000_0000
        * chacha8_word(rng.key@, ((rng.pos + 2 * k + 1) % 0x10_0000_0000_0000_0000) as nat)
}

/// A residue is drawn without bias. A value of 64 bits is rejected exactly if the run of residues
/// that it lies in does not end below `2^64`, so all values that are left form complete runs, in
/// which every residue occurs equally often. The residue of the first value that is not rejected is
/// drawn, and the stream stands behind that value. There is none exactly if all are rejected.
pub proof fn lemma_residue_drawn(rng: PrfRng, modulus: u32)
    requires
        modulus > 0,
    ensures
        match drawn_mod(rng, modulus) {
            Some((r, after)) => exists|k: int|
                {
                    &&& 0 <= k < 0x8_0000_0000_0000_0000
                    &&& (#[trigger] value_at(rng, k)) - value_at(rng, k) % modulus as int + modulus
                        <= 0x1_0000_0000_0000_0000
                    &&& forall|i: int|
                        0 <= i < k ==> (#[trigger] value_at(rng, i)) - value_at(rng, i)
                            % modulus as int + modulus > 0x1_0000_0000_0000_0000
                    &&& r == value_at(rng, k) % modulus as int
                    &&& after == rng.advanced(2 * k + 2)
                },
            None => forall|i: int|
                0 <= i < 0x8_0000_0000_0000_0000 ==> (#[trigger] value_at(rng, i)) - value_at(
                    rng,
                    i,
                ) % modulus as int + modulus > 0x1_0000_0000_0000_0000,
        },
{
    let bound = crate::prf::bound_for(modulus);
    lemma_first_accepted(rng, bound, 0);
    assert forall|i: int| 0 <= i < 0x8_0000_0000_0000_0000 implies (#[trigger] value_at(rng, i))
        == draw_64(rng, i as nat) && (draw_64(rng, i as nat) <= bound) == (value_at(rng, i)
        - value_at(rng, i) % modulus as int + modulus <= 0x1_0000_0000_0000_0000) by {
        lemma_stream_words(rng, 2 * i, 0);
        lemma_stream_words(rng, 2 * i, 1);
        lemma_stream_words(rng, 0, 2 * i);
        lemma_stream_words(rng, 0, 2 * i + 1);
        lemma_accepted(draw_64(rng, i as nat), modulus);
    }
    match first_accepted(rng, bound, 0) {
        Some(k) => {
            let at = k as int;
            assert(value_at(rng, at) == draw_64(rng, k));
            assert forall|i: int| 0 <= i < at implies (#[trigger] value_at(rng, i)) - value_at(
                rng,
                i,
            ) % modulus as int + modulus > 0x1_0000_0000_0000_0000 by {
                assert(draw_64(rng, i as nat) > bound);
            }
        },
        None => {
            assert forall|i: int| 0 <= i < 0x8_0000_0000_0000_0000 implies (#[trigger] value_at(
                rng,
                i,
            )) - value_at(rng, i) % modulus as int + modulus > 0x1_0000_0000_0000_0000 by {
                assert(draw_64(rng, i as nat) > bound);
            }
        },
    }
}

/// The choices of a shuffle of one number more: the choices of the shorter shuffle, followed by a
/// residue of the new size that is drawn after them. A shuffle of at most one number has no choices.
pub proof fn lemma_choices_of_one_more(rng: PrfRng, size: nat)
    requires
        1 <= size < u32::MAX,
    ensures
        drawn_choices(rng, 1, 0) == Some((Seq::<u32>::empty(), rng)),
        drawn_choices(rng, 1, 1) == Some((Seq::<u32>::empty(), rng)),
        drawn_choices(rng, 1, size + 1) == match drawn_choices(rng, 1, size) {
            None => None,
            Some((choices, then)) => match drawn_mod(then, (size + 1) as u32) {
                None => None,
                Some((c, after)) => Some((choices.push(c), after)),
            },
        },
{
    lemma_choices_extend(rng, 1, size);
}

proof fn lemma_choices_extend(rng: PrfRng, i: nat, size: nat)
    requires
        1 <= i <= size < u32::MAX,
    ensures
        drawn_choices(rng, i, size + 1) == match drawn_choices(rng, i, size) {
            None => None,
            Some((choices, then)) => match drawn_mod(then, (size + 1) as u32) {
                None => None,
                Some((c, after)) => Some((choices.push(c), after)),
            },
        },
    decreases size - i,
{
    reveal_with_fuel(drawn_choices, 3);
    match drawn_mod(rng, (i + 1) as u32) {
        None => {},
        Some((j, after)) => {
            if i < size {
                lemma_choices_extend(after, i + 1, size);
                match drawn_choices(after, i + 1, size) {
                    None => {},
                    Some((rest, then)) => {
                        match drawn_mod(then, (size + 1) as u32) {
                            None => {},
                            Some((c, end)) => {
                                assert(seq![j] + rest.push(c) =~= (seq![j] + rest).push(c));
                            },
                        }
                    },
                }
            } else {
                assert(seq![j] + Seq::<u32>::empty() =~= Seq::<u32>::empty().push(j));
            }
        },
    }
}

} // verus!
