//! What two parties draw together to hide a comparison from the dealer.
//!
//! Both parties draw from streams that start at the same seed, so they draw the same values: first
//! one bit for each place, then, after the first reply of the dealer, one non-zero factor for each
//! place and a rotation.

use crate::message::ProtocolError;
use crate::msb_dealer_helpers::all_in_field;
use crate::prf::{
    chacha8_uniform, chacha8_word, draw_batch, drawn_batch, drawn_mod, gen_u32_mod, lemma_advance,
    PrfDraw, PrfRng,
};
use crate::primefield::PrimeElement;
use crate::stream_laws::{lemma_drawn_values, lemma_residue_drawn};
use vstd::prelude::*;

verus! {

/// The bits that hide the places of a comparison.
pub fn draw_mask_bits(rng: &mut PrfRng, places: usize) -> (r: Vec<bool>)
    ensures
        r@ == drawn_batch::<bool>(*old(rng), places as nat),
        r@.len() == places,
        forall|i: int|
            0 <= i < places ==> #[trigger] r@[i] == (chacha8_word(
                old(rng).key@,
                ((old(rng).pos + i) % 0x10_0000_0000_0000_0000) as nat,
            ) >= 0x8000_0000),
        *final(rng) == old(rng).advanced(places as int),
{
    assert(places * 1 == places);
    let bits: Vec<bool> = draw_batch(rng, places);
    proof {
        assert forall|i: int| 0 <= i < places implies #[trigger] bits@[i] == (chacha8_word(
            old(rng).key@,
            ((old(rng).pos + i) % 0x10_0000_0000_0000_0000) as nat,
        ) >= 0x8000_0000) by {
            assert(i * 1 == i);
            lemma_advance(*old(rng), i, 0);
            lemma_drawn_values(old(rng).advanced(i));
            assert(bits@[i] == bool::drawn(old(rng).advanced(i)));
        }
    }
    bits
}

/// The factors that a stream gives for `n` places, and the stream after them, unless the whole
/// stream is rejected.
pub open spec fn drawn_factors(rng: PrfRng, p: u16, n: nat) -> Option<(Seq<PrimeElement>, PrfRng)>
    decreases n,
{
    if n == 0 {
        Some((Seq::empty(), rng))
    } else {
        match drawn_factors(rng, p, (n - 1) as nat) {
            None => None,
            Some((rest, after)) => match drawn_mod(after, (p - 1) as u32) {
                None => None,
                Some((v, end)) => Some(
                    (rest.push(PrimeElement { value: (v + 1) as u16, modulus: p }), end),
                ),
            },
        }
    }
}

/// The factors for one place more: those for the other places, followed by one more than a residue of
/// `p - 1` that is drawn after them. So every factor is one of the field that is not zero, and all
/// of those are equally likely.
pub proof fn lemma_factors_of_one_more(rng: PrfRng, p: u16, n: nat)
    requires
        p >= 2,
    ensures
        drawn_factors(rng, p, 0) == Some((Seq::<PrimeElement>::empty(), rng)),
        drawn_factors(rng, p, n) is None ==> drawn_factors(rng, p, n + 1) is None,
        drawn_factors(rng, p, n) is Some ==> {
            let (factors, then) = drawn_factors(rng, p, n)->0;
            match drawn_mod(then, (p - 1) as u32) {
                None => drawn_factors(rng, p, n + 1) is None,
                Some((v, after)) => {
                    let (more, end) = drawn_factors(rng, p, n + 1)->0;
                    &&& drawn_factors(rng, p, n + 1) is Some
                    &&& factors.len() == n && more.len() == n + 1
                    &&& forall|i: int| 0 <= i < n ==> #[trigger] more[i] == factors[i]
                    &&& more[n as int].value == v + 1
                    &&& more[n as int].modulus == p
                    &&& end == after
                },
            }
        },
    decreases n,
{
    if n > 0 {
        lemma_factors_of_one_more(rng, p, (n - 1) as nat);
    }
    if drawn_factors(rng, p, n) is Some {
        let (factors, then) = drawn_factors(rng, p, n)->0;
        lemma_residue_drawn(then, (p - 1) as u32);
    }
}

proof fn lemma_factors_fail(rng: PrfRng, p: u16, m: nat, n: nat)
    requires
        m <= n,
        drawn_factors(rng, p, m) is None,
    ensures
        drawn_factors(rng, p, n) is None,
    decreases n,
{
    if m < n {
        lemma_factors_fail(rng, p, m, (n - 1) as nat);
    }
}

/// The factors that hide the places of a comparison: elements of the field other than zero.
pub fn draw_factors(rng: &mut PrfRng, p: u16, places: usize) -> (r: Result<
    Vec<PrimeElement>,
    ProtocolError,
>)
    requires
        p >= 2,
    ensures
        match drawn_factors(*old(rng), p, places as nat) {
            Some((factors, after)) => {
                &&& r is Ok
                &&& r->Ok_0@ == factors
                &&& all_in_field(factors, p)
                &&& forall|i: int| 0 <= i < places ==> (#[trigger] factors[i]).value != 0
                &&& *final(rng) == after
            },
            None => r == Err::<Vec<PrimeElement>, ProtocolError>(ProtocolError::StreamExhausted)
                && *final(rng) == *old(rng),
        },
{
    let start: PrfRng = *rng;
    let mut out: Vec<PrimeElement> = Vec::new();
    let mut i: usize = 0;
    while i < places
        invariant
            p >= 2,
            i <= places,
            start == *old(rng),
            drawn_factors(start, p, i as nat) == Some((out@, *rng)),
            out@.len() == i,
            all_in_field(out@, p),
            forall|j: int| 0 <= j < i ==> (#[trigger] out@[j]).value != 0,
        decreases places - i,
    {
        match gen_u32_mod(rng, p as u32 - 1) {
            Ok(v) => {
                out.push(PrimeElement { value: (v + 1) as u16, modulus: p });
            },
            Err(_) => {
                proof {
                    lemma_factors_fail(start, p, (i + 1) as nat, places as nat);
                }
                *rng = start;
                return Err(ProtocolError::StreamExhausted);
            },
        }
        i += 1;
    }
    Ok(out)
}

/// The rotation of the places of a comparison.
pub fn draw_rotation(rng: &mut PrfRng, places: usize) -> (r: usize)
    requires
        places > 0,
    ensures
        (r as u64, final(rng).pos) == chacha8_uniform(
            old(rng).key@,
            old(rng).pos as nat,
            places as nat,
        ),
        final(rng).key == old(rng).key,
        r < places,
{
    rng.next_below(places as u64) as usize
}

} // verus!
