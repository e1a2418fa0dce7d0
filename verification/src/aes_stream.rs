//! Pseudo-random streams of the five-party session, backed by an AES generator.
//!
//! A stream is known by its seed and by the widths of the values drawn from it so far. Parties
//! that start from the same seed and draw values of the same widths in the same order draw the
//! same values.

use crate::msb_dealer_helpers::PrfSeed;
use crate::ring::IntRing2k;
use rand_core::{RngCore, SeedableRng};
use vstd::prelude::*;

verus! {

/// The generator of `aes_prng`.
#[verifier::external_type_specification]
#[verifier::external_body]
pub struct ExAesRng(aes_prng::AesRng);

/// The generator that is seeded with `seed` after values were drawn from it: 64-bit values where
/// `draws` holds true, 32-bit values where it holds false.
pub uninterp spec fn aes_state(seed: Seq<u8>, draws: Seq<bool>) -> aes_prng::AesRng;

/// The 32-bit value that such a generator gives next.
pub uninterp spec fn aes_u32(seed: Seq<u8>, draws: Seq<bool>) -> u32;

/// The 64-bit value that such a generator gives next.
pub uninterp spec fn aes_u64(seed: Seq<u8>, draws: Seq<bool>) -> u64;

/// Seeds a generator with `AesRng::from_seed`. Claims that the generator depends on the seed
/// alone.
#[verifier::external_body]
fn aes_from_seed(seed: &PrfSeed) -> (r: aes_prng::AesRng)
    ensures
        r == aes_state(seed@, Seq::empty()),
{
    aes_prng::AesRng::from_seed(*seed)
}

/// Draws a 32-bit value with `next_u32`. Claims that the value and the generator afterwards
/// depend on the seed and on what was drawn before alone.
#[verifier::external_body]
fn aes_next_u32(rng: &mut aes_prng::AesRng) -> (r: u32)
    ensures
        forall|seed: Seq<u8>, draws: Seq<bool>|
            *old(rng) == #[trigger] aes_state(seed, draws) ==> {
                &&& r == aes_u32(seed, draws)
                &&& *final(rng) == aes_state(seed, draws.push(false))
            },
{
    rng.next_u32()
}

/// Draws a 64-bit value with `next_u64`. Claims that the value and the generator afterwards
/// depend on the seed and on what was drawn before alone.
#[verifier::external_body]
fn aes_next_u64(rng: &mut aes_prng::AesRng) -> (r: u64)
    ensures
        forall|seed: Seq<u8>, draws: Seq<bool>|
            *old(rng) == #[trigger] aes_state(seed, draws) ==> {
                &&& r == aes_u64(seed, draws)
                &&& *final(rng) == aes_state(seed, draws.push(true))
            },
{
    rng.next_u64()
}

/// A seeded stream.
pub struct AesStream {
    rng: aes_prng::AesRng,
    seed: Ghost<Seq<u8>>,
    draws: Ghost<Seq<bool>>,
}

/// The seed of a stream and the widths of what was drawn from it.
#[verifier::ext_equal]
pub struct AesView {
    pub seed: Seq<u8>,
    pub draws: Seq<bool>,
}

impl View for AesStream {
    type V = AesView;

    closed spec fn view(&self) -> AesView {
        AesView { seed: self.seed@, draws: self.draws@ }
    }
}

impl AesView {
    /// The stream after `n` more values of one width.
    pub open spec fn after(self, wide: bool, n: nat) -> AesView {
        AesView { seed: self.seed, draws: self.draws + Seq::new(n, |i: int| wide) }
    }
}

impl AesStream {
    /// The generator is the one that the view speaks of.
    pub closed spec fn wf(&self) -> bool {
        self.rng == aes_state(self.seed@, self.draws@)
    }

    /// The stream at the start of a seed.
    pub fn from_seed(seed: &PrfSeed) -> (r: AesStream)
        ensures
            r.wf(),
            r@ == (AesView { seed: seed@, draws: Seq::empty() }),
    {
        AesStream { rng: aes_from_seed(seed), seed: Ghost(seed@), draws: Ghost(Seq::empty()) }
    }

    /// Draws a 32-bit value.
    pub fn next_u32(&mut self) -> (r: u32)
        requires
            old(self).wf(),
        ensures
            final(self).wf(),
            r == aes_u32(old(self)@.seed, old(self)@.draws),
            final(self)@ == old(self)@.after(false, 1),
    {
        let r: u32 = aes_next_u32(&mut self.rng);
        self.draws = Ghost(self.draws@.push(false));
        proof {
            assert(old(self)@.after(false, 1).draws =~= old(self).draws@.push(false));
        }
        r
    }

    /// Draws a 64-bit value.
    pub fn next_u64(&mut self) -> (r: u64)
        requires
            old(self).wf(),
        ensures
            final(self).wf(),
            r == aes_u64(old(self)@.seed, old(self)@.draws),
            final(self)@ == old(self)@.after(true, 1),
    {
        let r: u64 = aes_next_u64(&mut self.rng);
        self.draws = Ghost(self.draws@.push(true));
        proof {
            assert(old(self)@.after(true, 1).draws =~= old(self).draws@.push(true));
        }
        r
    }
}

/// Ring elements that can be drawn from such a stream.
pub trait AesDraw: IntRing2k {
    /// Whether a value takes 64 bits of the stream.
    spec fn wide() -> bool;

    /// The value that the stream gives next.
    spec fn drawn(stream: AesView) -> Self;

    /// Draws a value.
    fn draw(stream: &mut AesStream) -> (r: Self)
        requires
            old(stream).wf(),
        ensures
            final(stream).wf(),
            r == Self::drawn(old(stream)@),
            final(stream)@ == old(stream)@.after(Self::wide(), 1),
    ;
}

impl AesDraw for u16 {
    open spec fn wide() -> bool {
        false
    }

    open spec fn drawn(stream: AesView) -> u16 {
        (aes_u32(stream.seed, stream.draws) % 0x1_0000) as u16
    }

    fn draw(stream: &mut AesStream) -> (r: u16) {
        (stream.next_u32() % 0x1_0000) as u16
    }
}

impl AesDraw for u64 {
    open spec fn wide() -> bool {
        true
    }

    open spec fn drawn(stream: AesView) -> u64 {
        aes_u64(stream.seed, stream.draws)
    }

    fn draw(stream: &mut AesStream) -> (r: u64) {
        stream.next_u64()
    }
}

/// The `n` values that a stream gives one after the other.
pub open spec fn drawn_masks<T: AesDraw>(stream: AesView, n: nat) -> Seq<T> {
    Seq::new(n, |i: int| T::drawn(stream.after(T::wide(), i as nat)))
}

/// Drawing on is drawing more.
pub proof fn lemma_after(stream: AesView, wide: bool, m: nat, n: nat)
    ensures
        stream.after(wide, m).after(wide, n) == stream.after(wide, m + n),
        stream.after(wide, 0) == stream,
{
    assert(stream.after(wide, m).after(wide, n).draws =~= stream.after(wide, m + n).draws);
    assert(stream.after(wide, 0).draws =~= stream.draws);
}

/// What a stream gives, in terms of the generator: masks of 16 bits are the low halves of 32-bit
/// values, masks of 64 bits are 64-bit values, and the bytes of a seed are the low bytes of 32-bit
/// values, each drawn after all before it.
pub proof fn lemma_values_of_stream(stream: AesView, n: nat, i: int)
    requires
        0 <= i < n,
    ensures
        !u16::wide() && u64::wide(),
        drawn_masks::<u16>(stream, n).len() == n && drawn_masks::<u64>(stream, n).len() == n,
        drawn_masks::<u16>(stream, n)[i] == aes_u32(
            stream.seed,
            stream.draws + Seq::new(i as nat, |j: int| false),
        ) % 0x1_0000,
        drawn_masks::<u64>(stream, n)[i] == aes_u64(
            stream.seed,
            stream.draws + Seq::new(i as nat, |j: int| true),
        ),
        drawn_seed(stream).len() == 16,
        i < 16 ==> drawn_seed(stream)[i] == aes_u32(
            stream.seed,
            stream.draws + Seq::new(i as nat, |j: int| false),
        ) % 0x100,
        stream.after(false, n).seed == stream.seed,
        stream.after(false, n).draws == stream.draws + Seq::new(n, |j: int| false),
        stream.after(true, n).draws == stream.draws + Seq::new(n, |j: int| true),
{
}

/// Draws `n` values one after the other.
pub fn draw_masks<T: AesDraw>(stream: &mut AesStream, n: usize) -> (r: Vec<T>)
    requires
        old(stream).wf(),
    ensures
        final(stream).wf(),
        r@ == drawn_masks::<T>(old(stream)@, n as nat),
        final(stream)@ == old(stream)@.after(T::wide(), n as nat),
{
    let ghost start = stream@;
    let mut out: Vec<T> = Vec::new();
    let mut i: usize = 0;
    proof {
        lemma_after(start, T::wide(), 0, 0);
    }
    while i < n
        invariant
            i <= n,
            stream.wf(),
            stream@ == start.after(T::wide(), i as nat),
            out@.len() == i,
            forall|j: int|
                0 <= j < i ==> #[trigger] out@[j] == T::drawn(start.after(T::wide(), j as nat)),
        decreases n - i,
    {
        out.push(T::draw(stream));
        proof {
            lemma_after(start, T::wide(), i as nat, 1);
        }
        i += 1;
    }
    assert(out@ =~= drawn_masks::<T>(start, n as nat));
    out
}

/// The seed whose bytes are the low bytes of the next sixteen 32-bit values.
pub open spec fn drawn_seed(stream: AesView) -> Seq<u8> {
    Seq::new(
        16,
        |i: int|
            {
                let at = stream.after(false, i as nat);
                (aes_u32(at.seed, at.draws) % 0x100) as u8
            },
    )
}

/// Draws a seed, byte by byte.
pub fn draw_seed(stream: &mut AesStream) -> (r: PrfSeed)
    requires
        old(stream).wf(),
    ensures
        final(stream).wf(),
        r@ == drawn_seed(old(stream)@),
        final(stream)@ == old(stream)@.after(false, 16),
{
    let ghost start = stream@;
    let mut out: PrfSeed = [0u8; 16];
    let mut i: usize = 0;
    proof {
        lemma_after(start, false, 0, 0);
    }
    while i < 16
        invariant
            i <= 16,
            stream.wf(),
            stream@ == start.after(false, i as nat),
            forall|j: int| 0 <= j < i ==> #[trigger] out@[j] == drawn_seed(start)[j],
        decreases 16 - i,
    {
        out[i] = (stream.next_u32() % 0x100) as u8;
        proof {
            lemma_after(start, false, i as nat, 1);
        }
        i += 1;
    }
    assert(out@ =~= drawn_seed(start));
    out
}

} // verus!
