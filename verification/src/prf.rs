//! Pseudo-random streams that parties share.
//!
//! A stream is a ChaCha8 key stream in counter mode: a key and the position of the next 32-bit
//! word. Two parties that hold the same key and stand at the same position draw the same values.

use crate::message::ProtocolError;
use crate::msb_dealer_helpers::PrfSeed;
use crate::ring::IntRing2k;
use crate::ring_lemmas::{bit, group_bits, lemma_bits_ext, lemma_sum3, zero};
use rand::Rng;
use rand_chacha::rand_core::SeedableRng;
use vstd::arithmetic::div_mod::*;
use vstd::prelude::*;

verus! {

/// Number of words that a stream holds before it starts over.
pub const STREAM_WORDS: u128 = 0x10_0000_0000_0000_0000;

/// Number of 64-bit values that a stream holds before it starts over.
pub const STREAM_DRAWS: u128 = 0x8_0000_0000_0000_0000;

/// The word at position `pos` of the ChaCha8 key stream with the given key.
pub uninterp spec fn chacha8_word(key: Seq<u8>, pos: nat) -> u32;

/// The BLAKE3 digest of a byte string.
pub uninterp spec fn blake3_hash(input: Seq<u8>) -> Seq<u8>;

/// Reads words of a key stream with `rand_chacha::ChaCha8Rng`: seeds the generator with the key,
/// moves it with `set_word_pos`, which takes the position modulo `2^68`, and takes the words with
/// `rand::Rng::fill`. Claims that every word depends on the key and on its position alone, and that
/// the stream starts over after `2^68` words.
#[verifier::external_body]
fn read_words(key: &[u8; 32], pos: u128, n: usize) -> (r: Vec<u32>)
    ensures
        r@ == Seq::new(
            n as nat,
            |i: int| chacha8_word(key@, ((pos + i) % STREAM_WORDS as int) as nat),
        ),
{
    let mut rng = rand_chacha::ChaCha8Rng::from_seed(*key);
    rng.set_word_pos(pos);
    let mut words = vec![0_u32; n];
    rng.fill(words.as_mut_slice());
    words
}

/// Hashes a seed with `blake3::hash`. Claims that the digest depends on the bytes alone.
#[verifier::external_body]
fn blake3_digest(input: &PrfSeed) -> (r: [u8; 32])
    ensures
        r@ == blake3_hash(input@),
{
    *blake3::hash(input).as_bytes()
}

/// The number below `bound` that uniform sampling takes from a key stream at a position, and the
/// position after it.
pub uninterp spec fn chacha8_uniform(key: Seq<u8>, pos: nat, bound: nat) -> (u64, u128);

/// Samples a number below `bound` with `rand::Rng::gen_range` from a `rand_chacha::ChaCha8Rng` at a
/// position. Claims that the number and the position afterwards depend on the key, the position
/// and the bound alone, and that the number is below the bound.
#[verifier::external_body]
fn sample_below(key: &[u8; 32], pos: u128, bound: u64) -> (r: (u64, u128))
    requires
        bound > 0,
    ensures
        r == chacha8_uniform(key@, pos as nat, bound as nat),
        r.0 < bound,
{
    let mut rng = rand_chacha::ChaCha8Rng::from_seed(*key);
    rng.set_word_pos(pos);
    let value = rng.gen_range(0..bound);
    (value, rng.get_word_pos())
}

/// A key stream and the position of the next word in it. The stream starts over after
/// `STREAM_WORDS` words: a position counts modulo that number.
#[derive(Clone, Copy, Debug)]
pub struct PrfRng {
    pub key: [u8; 32],
    pub pos: u128,
}

impl PrfRng {
    /// The word that is `i` words ahead.
    pub open spec fn word(self, i: int) -> u32 {
        chacha8_word(self.key@, ((self.pos + i) % STREAM_WORDS as int) as nat)
    }

    /// The stream after `n` words were read.
    pub open spec fn advanced(self, n: int) -> PrfRng {
        let words = STREAM_WORDS as int;
        PrfRng {
            key: self.key,
            pos: (self.pos as int / words * words + (self.pos + n) % words) as u128,
        }
    }

    /// A stream at the start of its key stream.
    pub open spec fn fresh(key: Seq<u8>, rng: PrfRng) -> bool {
        rng.key@ == key && rng.pos == 0
    }

    /// Reads the next word.
    pub fn next_word(&mut self) -> (r: u32)
        ensures
            r == old(self).word(0),
            *final(self) == old(self).advanced(1),
    {
        let words: Vec<u32> = self.next_words(1);
        words[0]
    }

    /// Reads the next `n` words.
    pub fn next_words(&mut self, n: usize) -> (r: Vec<u32>)
        ensures
            r@ == Seq::new(n as nat, |i: int| old(self).word(i)),
            *final(self) == old(self).advanced(n as int),
    {
        let words: Vec<u32> = read_words(&self.key, self.pos, n);
        assert(words@ =~= Seq::new(n as nat, |i: int| old(self).word(i)));
        let low: u128 = self.pos % STREAM_WORDS;
        proof {
            let m = STREAM_WORDS as int;
            lemma_fundamental_div_mod(self.pos as int, m);
            lemma_mod_multiples_vanish(self.pos as int / m, low + n, m);
        }
        self.pos = self.pos - low + (low + n as u128) % STREAM_WORDS;
        words
    }

    /// Draws a number below `bound`.
    pub fn next_below(&mut self, bound: u64) -> (r: u64)
        requires
            bound > 0,
        ensures
            (r, final(self).pos) == chacha8_uniform(
                old(self).key@,
                old(self).pos as nat,
                bound as nat,
            ),
            final(self).key == old(self).key,
            r < bound,
    {
        let (value, pos): (u64, u128) = sample_below(&self.key, self.pos, bound);
        self.pos = pos;
        value
    }
}

/// Reading on from a position reached earlier is reading from further ahead.
pub proof fn lemma_advance(rng: PrfRng, a: int, b: int)
    ensures
        rng.advanced(a).advanced(b) == rng.advanced(a + b),
        rng.advanced(a).word(b) == rng.word(a + b),
{
    let m = STREAM_WORDS as int;
    let h = rng.pos as int / m;
    let q = (rng.pos + a) % m;
    lemma_mod_bound(rng.pos + a, m);
    lemma_fundamental_div_mod_converse(h * m + q, m, h, q);
    lemma_add_mod_noop(rng.pos + a, b, m);
    lemma_mod_twice(rng.pos + a, m);
    lemma_add_mod_noop(q, b, m);
    lemma_mod_multiples_vanish(h, q + b, m);
    assert(rng.advanced(a).pos == h * m + q);
}

/// Values that can be drawn from a stream.
pub trait PrfDraw: Copy {
    /// Number of words that a value takes.
    spec fn words() -> int;

    /// The value that the next words of a stream give.
    spec fn drawn(rng: PrfRng) -> Self;

    /// Draws a value.
    fn draw(rng: &mut PrfRng) -> (r: Self)
        ensures
            r == Self::drawn(*old(rng)),
            *final(rng) == old(rng).advanced(Self::words()),
    ;

    /// Number of words that a value takes: one or two.
    fn word_count() -> (r: usize)
        ensures
            r == Self::words(),
            1 <= r <= 2,
    ;

    /// The value that a stream gives, from the first and the last word that it takes.
    fn from_words(first: u32, last: u32) -> (r: Self)
        ensures
            forall|rng: PrfRng|
                rng.word(0) == first && rng.word(Self::words() - 1) == last ==> r
                    == #[trigger] Self::drawn(rng),
    ;
}

impl PrfDraw for bool {
    open spec fn words() -> int {
        1
    }

    open spec fn drawn(rng: PrfRng) -> bool {
        rng.word(0) >= 0x8000_0000
    }

    fn draw(rng: &mut PrfRng) -> (r: bool) {
        rng.next_word() >= 0x8000_0000
    }

    fn word_count() -> (r: usize) {
        1
    }

    fn from_words(first: u32, last: u32) -> (r: bool) {
        first >= 0x8000_0000
    }
}

impl PrfDraw for u8 {
    open spec fn words() -> int {
        1
    }

    open spec fn drawn(rng: PrfRng) -> u8 {
        (rng.word(0) % 0x100) as u8
    }

    fn draw(rng: &mut PrfRng) -> (r: u8) {
        (rng.next_word() % 0x100) as u8
    }

    fn word_count() -> (r: usize) {
        1
    }

    fn from_words(first: u32, last: u32) -> (r: u8) {
        (first % 0x100) as u8
    }
}

impl PrfDraw for u16 {
    open spec fn words() -> int {
        1
    }

    open spec fn drawn(rng: PrfRng) -> u16 {
        (rng.word(0) % 0x1_0000) as u16
    }

    fn draw(rng: &mut PrfRng) -> (r: u16) {
        (rng.next_word() % 0x1_0000) as u16
    }

    fn word_count() -> (r: usize) {
        1
    }

    fn from_words(first: u32, last: u32) -> (r: u16) {
        (first % 0x1_0000) as u16
    }
}

impl PrfDraw for u32 {
    open spec fn words() -> int {
        1
    }

    open spec fn drawn(rng: PrfRng) -> u32 {
        rng.word(0)
    }

    fn draw(rng: &mut PrfRng) -> (r: u32) {
        rng.next_word()
    }

    fn word_count() -> (r: usize) {
        1
    }

    fn from_words(first: u32, last: u32) -> (r: u32) {
        first
    }
}

impl PrfDraw for u64 {
    open spec fn words() -> int {
        2
    }

    open spec fn drawn(rng: PrfRng) -> u64 {
        (rng.word(1) * 0x1_0000_0000 + rng.word(0)) as u64
    }

    fn draw(rng: &mut PrfRng) -> (r: u64) {
        let ghost start = *rng;
        let low: u32 = rng.next_word();
        proof {
            lemma_advance(start, 1, 0);
            lemma_advance(start, 1, 1);
        }
        let high: u32 = rng.next_word();
        high as u64 * 0x1_0000_0000 + low as u64
    }

    fn word_count() -> (r: usize) {
        2
    }

    fn from_words(first: u32, last: u32) -> (r: u64) {
        last as u64 * 0x1_0000_0000 + first as u64
    }
}

/// The `n` values that a stream gives one after the other.
pub open spec fn drawn_batch<T: PrfDraw>(rng: PrfRng, n: nat) -> Seq<T> {
    Seq::new(n, |i: int| T::drawn(rng.advanced(i * T::words())))
}

/// Number of values that are drawn at a time.
const DRAW_CHUNK: usize = 0x400;

/// Draws `n` values one after the other.
pub fn draw_batch<T: PrfDraw>(rng: &mut PrfRng, n: usize) -> (r: Vec<T>)
    ensures
        r@ == drawn_batch::<T>(*old(rng), n as nat),
        r@.len() == n,
        forall|i: int|
            0 <= i < n ==> #[trigger] r@[i] == T::drawn(old(rng).advanced(i * T::words())),
        *final(rng) == old(rng).advanced(n * T::words()),
{
    let ghost start = *rng;
    let w: usize = T::word_count();
    let mut out: Vec<T> = Vec::new();
    let mut i: usize = 0;
    proof {
        assert(0 * w == 0);
        lemma_advance(start, 0, 0);
    }
    while i < n
        invariant
            w == T::words(),
            1 <= w <= 2,
            i <= n,
            *rng == start.advanced(i * w),
            out@.len() == i,
            forall|j: int|
                0 <= j < i ==> #[trigger] out@[j] == drawn_batch::<T>(start, n as nat)[j],
        decreases n - i,
    {
        let rest: usize = n - i;
        let chunk: usize = if rest < DRAW_CHUNK {
            rest
        } else {
            DRAW_CHUNK
        };
        let ghost here = *rng;
        assert(0 <= chunk * w <= 0x800) by (nonlinear_arith)
            requires
                0 <= chunk <= 0x400,
                1 <= w <= 2,
        ;
        let words: Vec<u32> = rng.next_words(chunk * w);
        let mut k: usize = 0;
        while k < chunk
            invariant
                w == T::words(),
                1 <= w <= 2,
                chunk <= DRAW_CHUNK,
                i + chunk <= n,
                k <= chunk,
                here == start.advanced(i * w),
                (chunk * w) <= 0x800,
                words@ == Seq::new((chunk * w) as nat, |x: int| here.word(x)),
                out@.len() == i + k,
                forall|j: int|
                    0 <= j < i + k ==> #[trigger] out@[j] == drawn_batch::<T>(start, n as nat)[j],
            decreases chunk - k,
        {
            proof {
                assert(0 <= k * w && k * w + w <= chunk * w) by (nonlinear_arith)
                    requires
                        0 <= k < chunk,
                        w >= 0,
                ;
                assert((i + k) * w == i * w + k * w) by (nonlinear_arith);
                lemma_advance(start, i * w, k * w);
                let at = start.advanced((i + k) * w);
                lemma_advance(start, (i + k) * w, 0);
                lemma_advance(start, (i + k) * w, w - 1);
                lemma_advance(start, i * w, k * w + (w - 1));
                assert(here.word(k * w) == start.word((i + k) * w));
                assert(here.word(k * w + (w - 1)) == start.word((i + k) * w + (w - 1)));
                assert(at.word(0) == words@[k * w]);
                assert(at.word(w - 1) == words@[k * w + w - 1]);
            }
            out.push(T::from_words(words[k * w], words[k * w + w - 1]));
            k += 1;
        }
        proof {
            lemma_advance(start, i * w, chunk * w);
            assert((i + chunk) * w == i * w + chunk * w) by (nonlinear_arith);
        }
        i += chunk;
    }
    assert(out@ =~= drawn_batch::<T>(start, n as nat));
    out
}

/// The largest 64-bit value below which every residue of `modulus` occurs equally often.
pub fn rejection_bound(modulus: u64) -> (r: u64)
    requires
        modulus > 0,
    ensures
        (r + 1) % modulus as int == 0,
        r + modulus > u64::MAX,
{
    let rest: u64 = if u64::MAX % modulus == modulus - 1 {
        0
    } else {
        u64::MAX % modulus + 1
    };
    proof {
        let m = modulus as int;
        let q = u64::MAX as int / m;
        lemma_fundamental_div_mod(u64::MAX as int, m);
        if rest == 0 {
            assert(u64::MAX + 1 == (q + 1) * m) by (nonlinear_arith)
                requires
                    u64::MAX == m * q + (m - 1),
            ;
            lemma_mod_multiples_basic(q + 1, m);
        } else {
            assert(u64::MAX - rest + 1 == q * m) by (nonlinear_arith)
                requires
                    u64::MAX == m * q + (rest - 1),
            ;
            lemma_mod_multiples_basic(q, m);
        }
    }
    u64::MAX - rest
}

/// The `k`-th 64-bit value that a stream gives.
pub open spec fn draw_64(rng: PrfRng, k: nat) -> u64 {
    u64::drawn(rng.advanced(2 * k as int))
}

/// The place, from `k` on, of the first 64-bit value that is at most `bound`.
pub open spec fn first_accepted(rng: PrfRng, bound: u64, k: nat) -> Option<nat>
    decreases STREAM_DRAWS - k,
{
    if k >= STREAM_DRAWS {
        None
    } else if draw_64(rng, k) <= bound {
        Some(k)
    } else {
        first_accepted(rng, bound, k + 1)
    }
}

/// The bound that a draw has to meet, for a modulus.
pub open spec fn bound_for(modulus: u32) -> u64 {
    (u64::MAX - (u64::MAX % modulus as u64 + 1) % modulus as int) as u64
}

/// The residue that rejection sampling draws and the stream after it, unless the whole stream
/// is rejected.
pub open spec fn drawn_mod(rng: PrfRng, modulus: u32) -> Option<(u32, PrfRng)> {
    match first_accepted(rng, bound_for(modulus), 0) {
        Some(k) => Some(
            (
                (draw_64(rng, k) % modulus as u64) as u32,
                rng.advanced(2 * (k as int + 1)),
            ),
        ),
        None => None,
    }
}

proof fn lemma_bound_for(modulus: u32, bound: u64)
    requires
        modulus > 0,
        (bound + 1) % modulus as int == 0,
        bound + modulus > u64::MAX,
    ensures
        bound == bound_for(modulus),
{
    let m = modulus as int;
    let rest = (u64::MAX % modulus as u64 + 1) % m;
    let q = u64::MAX as int / m;
    lemma_fundamental_div_mod(u64::MAX as int, m);
    let r = u64::MAX as int % m;
    lemma_mod_bound(u64::MAX as int, m);
    let b = u64::MAX - rest;
    assert((b + 1) % m == 0) by {
        if r == m - 1 {
            lemma_mod_self_0(m);
            assert(b + 1 == (q + 1) * m) by (nonlinear_arith)
                requires
                    u64::MAX == m * q + (m - 1),
                    b == u64::MAX,
            ;
            lemma_mod_multiples_basic(q + 1, m);
        } else {
            lemma_small_mod((r + 1) as nat, m as nat);
            assert(b + 1 == q * m) by (nonlinear_arith)
                requires
                    u64::MAX == m * q + r,
                    b == u64::MAX - (r + 1),
            ;
            lemma_mod_multiples_basic(q, m);
        }
    }
    lemma_mod_bound(u64::MAX % modulus as u64 + 1, m);
    // two multiples of m less than m apart
    lemma_fundamental_div_mod(b + 1, m);
    lemma_fundamental_div_mod(bound + 1, m);
    let (x, y) = ((b + 1) / m, (bound + 1) / m);
    assert(x == y) by (nonlinear_arith)
        requires
            b + 1 == m * x,
            bound + 1 == m * y,
            -m < (b + 1) - (bound + 1) < m,
            m > 0,
    ;
}

/// Draws a residue of `modulus` without bias: 64-bit values past the last full run of residues
/// are thrown away.
pub fn gen_u32_mod(rng: &mut PrfRng, modulus: u32) -> (r: Result<u32, ProtocolError>)
    ensures
        modulus == 0 ==> r == Err::<u32, ProtocolError>(ProtocolError::ZeroModulus) && *final(rng)
            == *old(rng),
        modulus > 0 ==> match drawn_mod(*old(rng), modulus) {
            Some((v, after)) => {
                &&& r == Ok::<u32, ProtocolError>(v)
                &&& v < modulus
                &&& *final(rng) == after
            },
            None => r == Err::<u32, ProtocolError>(ProtocolError::StreamExhausted) && *final(rng)
                == *old(rng),
        },
{
    if modulus == 0 {
        return Err(ProtocolError::ZeroModulus);
    }
    let modulus_64: u64 = modulus as u64;
    let bound: u64 = rejection_bound(modulus_64);
    proof {
        lemma_bound_for(modulus, bound);
    }
    let ghost start = *rng;
    let mut k: u128 = 0;
    while k < STREAM_DRAWS
        invariant
            modulus > 0,
            modulus_64 == modulus,
            bound == bound_for(modulus),
            k <= STREAM_DRAWS,
            start == *old(rng),
            *rng == start.advanced(2 * k),
            first_accepted(start, bound, 0) == first_accepted(start, bound, k as nat),
        decreases STREAM_DRAWS - k,
    {
        let v: u64 = u64::draw(rng);
        proof {
            lemma_advance(start, 2 * k, 2);
        }
        if v <= bound {
            return Ok((v % modulus_64) as u32);
        }
        k += 1;
    }
    proof {
        lemma_mod_add_multiples_vanish(start.pos as int, STREAM_WORDS as int);
        lemma_fundamental_div_mod(start.pos as int, STREAM_WORDS as int);
    }
    Err(ProtocolError::StreamExhausted)
}

/// The choices of a shuffle of `size` values that a stream gives from step `i` on: in step `i`
/// one of the first `i + 1` places.
pub open spec fn drawn_choices(rng: PrfRng, i: nat, size: nat) -> Option<(Seq<u32>, PrfRng)>
    decreases size - i,
{
    if i >= size {
        Some((Seq::empty(), rng))
    } else {
        match drawn_mod(rng, (i + 1) as u32) {
            None => None,
            Some((j, after)) => match drawn_choices(after, i + 1, size) {
                None => None,
                Some((rest, end)) => Some((seq![j] + rest, end)),
            },
        }
    }
}

/// Draws the choices of a shuffle of `size` values, one for each step from 1 on.
pub fn draw_choices(rng: &mut PrfRng, size: u32) -> (r: Result<Vec<u32>, ProtocolError>)
    ensures
        match drawn_choices(*old(rng), 1, size as nat) {
            Some((choices, after)) => {
                &&& r is Ok
                &&& r->Ok_0@ == choices
                &&& valid_choices(choices)
                &&& choices.len() == if size > 0 {
                    size - 1
                } else {
                    0
                }
                &&& *final(rng) == after
            },
            None => r == Err::<Vec<u32>, ProtocolError>(ProtocolError::StreamExhausted)
                && *final(rng) == *old(rng),
        },
{
    let mut out: Vec<u32> = Vec::new();
    let mut i: u32 = 1;
    let start: PrfRng = *rng;
    while i < size
        invariant
            start == *old(rng),
            i >= 1,
            size > 0 ==> i <= size,
            out@.len() == i - 1,
            valid_choices(out@),
            match (
                drawn_choices(start, 1, size as nat),
                drawn_choices(*rng, i as nat, size as nat),
            ) {
                (None, None) => true,
                (Some((all, a)), Some((rest, b))) => all == out@ + rest && a == b,
                _ => false,
            },
        decreases size - i,
    {
        let ghost before = *rng;
        let ghost made = out@;
        match gen_u32_mod(rng, i + 1) {
            Ok(j) => {
                out.push(j);
                proof {
                    match drawn_choices(*rng, (i + 1) as nat, size as nat) {
                        Some((rest, b)) => {
                            assert(made + (seq![j] + rest) =~= out@ + rest);
                        },
                        None => {},
                    }
                }
            },
            Err(e) => {
                *rng = start;
                return Err(e);
            },
        }
        i += 1;
    }
    proof {
        assert(out@ + Seq::<u32>::empty() =~= out@);
    }
    Ok(out)
}

/// Choice `i` is one of the first `i + 2` places.
pub open spec fn valid_choices(choices: Seq<u32>) -> bool {
    forall|i: int| 0 <= i < choices.len() ==> (#[trigger] choices[i]) <= i + 1
}

/// The numbers below `size` in order.
pub open spec fn identity(size: nat) -> Seq<u32> {
    Seq::new(size, |i: int| i as u32)
}

/// Two places of a sequence exchanged.
pub open spec fn swapped(s: Seq<u32>, i: int, j: int) -> Seq<u32> {
    s.update(i, s[j]).update(j, s[i])
}

/// The numbers below `size` after the first `k` steps of a shuffle.
pub open spec fn shuffled(choices: Seq<u32>, size: nat, k: nat) -> Seq<u32>
    decreases k,
{
    if k == 0 {
        identity(size)
    } else {
        swapped(shuffled(choices, size, (k - 1) as nat), k as int, choices[k - 1] as int)
    }
}

/// Every number below the length occurs exactly once.
pub open spec fn is_permutation(s: Seq<u32>) -> bool {
    &&& forall|i: int| 0 <= i < s.len() ==> (#[trigger] s[i]) < s.len()
    &&& forall|i: int, j: int| 0 <= i < j < s.len() ==> s[i] != s[j]
}

/// A shuffle keeps every number.
pub proof fn lemma_shuffled_is_permutation(choices: Seq<u32>, size: nat, k: nat)
    requires
        size <= u32::MAX,
        k <= choices.len(),
        k < size || k == 0,
        valid_choices(choices),
    ensures
        shuffled(choices, size, k).len() == size,
        is_permutation(shuffled(choices, size, k)),
    decreases k,
{
    if k > 0 {
        lemma_shuffled_is_permutation(choices, size, (k - 1) as nat);
        assert(choices[k - 1] <= k);
    }
}

/// The first steps of a shuffle do not touch the places past them.
proof fn lemma_shuffled_rest(choices: Seq<u32>, size: nat, k: nat, i: int)
    requires
        size <= u32::MAX,
        k <= choices.len(),
        k < size || k == 0,
        valid_choices(choices),
        k < i < size,
    ensures
        shuffled(choices, size, k).len() == size,
        shuffled(choices, size, k)[i] == i,
    decreases k,
{
    if k > 0 {
        lemma_shuffled_rest(choices, size, (k - 1) as nat, i);
        assert(choices[k - 1] <= k);
    }
}

/// A step of a shuffle exchanges two places: after step `k`, place `k` holds what the chosen place
/// held before, the chosen place holds the number `k`, and all other places are as they were.
pub proof fn lemma_shuffle_step(choices: Seq<u32>, size: nat, k: nat)
    requires
        size <= u32::MAX,
        0 < k <= choices.len(),
        k < size,
        valid_choices(choices),
    ensures
        ({
            let (before, after) = (
                shuffled(choices, size, (k - 1) as nat),
                shuffled(choices, size, k),
            );
            let j = choices[k - 1] as int;
            &&& before.len() == size && after.len() == size
            &&& 0 <= j <= k
            &&& before[k as int] == k
            &&& after[k as int] == before[j]
            &&& after[j] == k
            &&& forall|i: int| 0 <= i < size && i != j && i != k ==> #[trigger] after[i]
                == before[i]
        }),
{
    lemma_shuffled_rest(choices, size, (k - 1) as nat, k as int);
    assert(choices[k - 1] <= k);
}

/// A shuffle of one number more: it holds the new number at the chosen place, at its own place what
/// was chosen, and is otherwise the shuffle by the other choices. A shuffle of no number is empty,
/// and that of one number holds zero.
pub proof fn lemma_shuffle_of_one_more(choices: Seq<u32>, c: u32, size: nat)
    requires
        size < u32::MAX,
        choices.len() + 1 == size,
        valid_choices(choices),
        c <= size,
    ensures
        shuffled(Seq::empty(), 0, 0) == Seq::<u32>::empty(),
        shuffled(Seq::empty(), 1, 0) == seq![0u32],
        ({
            let less = shuffled(choices, size, choices.len());
            let more = shuffled(choices.push(c), size + 1, size);
            &&& less.len() == size && more.len() == size + 1
            &&& more[c as int] == size
            &&& more[size as int] == if c == size {
                c
            } else {
                less[c as int]
            }
            &&& forall|i: int| 0 <= i < size && i != c ==> #[trigger] more[i] == less[i]
        }),
{
    assert(shuffled(Seq::empty(), 0, 0) =~= Seq::<u32>::empty());
    assert(shuffled(Seq::empty(), 1, 0) =~= seq![0u32]);
    let all = choices.push(c);
    assert(valid_choices(all)) by {
        assert forall|i: int| 0 <= i < all.len() implies (#[trigger] all[i]) <= i + 1 by {
            if i < choices.len() {
                assert(all[i] == choices[i]);
            }
        }
    }
    lemma_shuffled_prefix(choices, all, size, choices.len());
    lemma_shuffle_step(all, size + 1, size);
}

/// The same choices shuffle one number more in the same way, and leave it at its place.
proof fn lemma_shuffled_prefix(choices: Seq<u32>, all: Seq<u32>, size: nat, k: nat)
    requires
        size < u32::MAX,
        k <= choices.len(),
        choices.len() < size,
        choices.len() <= all.len(),
        forall|i: int| 0 <= i < choices.len() ==> #[trigger] all[i] == choices[i],
        valid_choices(choices),
    ensures
        shuffled(choices, size, k).len() == size,
        shuffled(all, size + 1, k) == shuffled(choices, size, k).push(size as u32),
    decreases k,
{
    if k == 0 {
        assert(shuffled(all, size + 1, 0) =~= shuffled(choices, size, 0).push(size as u32));
    } else {
        let m = (k - 1) as nat;
        lemma_shuffled_prefix(choices, all, size, m);
        assert(all[k - 1] == choices[k - 1] && choices[k - 1] <= k);
        assert(shuffled(all, size + 1, k) =~= shuffled(choices, size, k).push(size as u32));
    }
}

/// Different choices give different permutations: the choices can be read off the permutation. So
/// every permutation of a size comes from as many choices as any other.
pub proof fn lemma_shuffle_one_to_one(a: Seq<u32>, b: Seq<u32>, size: nat, k: nat)
    requires
        size <= u32::MAX,
        a.len() == b.len(),
        k <= a.len(),
        k < size || k == 0,
        valid_choices(a),
        valid_choices(b),
        shuffled(a, size, k) == shuffled(b, size, k),
    ensures
        forall|i: int| 0 <= i < k ==> a[i] == b[i],
        k == a.len() ==> a == b,
    decreases k,
{
    if k > 0 {
        let m = (k - 1) as nat;
        lemma_shuffle_step(a, size, k);
        lemma_shuffle_step(b, size, k);
        lemma_shuffled_is_permutation(a, size, k);
        let r = shuffled(a, size, k);
        let (i, j) = (a[k - 1] as int, b[k - 1] as int);
        assert(r[i] == k && r[j] == k);
        assert(i == j);
        let (x, y) = (shuffled(a, size, m), shuffled(b, size, m));
        assert forall|p: int| 0 <= p < size implies x[p] == y[p] by {
            if p == k {
            } else if p == i {
                assert(r[k as int] == x[i] && r[k as int] == y[i]);
            } else {
                assert(r[p] == x[p] && r[p] == y[p]);
            }
        }
        assert(x =~= y);
        lemma_shuffle_one_to_one(a, b, size, m);
    }
    if k == a.len() {
        assert(a =~= b);
    }
}

/// Shuffles the numbers below `size` by the given choices: step `i` exchanges place `i` with the
/// chosen one.
pub fn shuffle(size: u32, choices: &[u32]) -> (r: Vec<u32>)
    requires
        valid_choices(choices@),
        choices@.len() + 1 == size || (size == 0 && choices@.len() == 0),
    ensures
        r@ == shuffled(choices@, size as nat, choices@.len()),
        r@.len() == size,
        is_permutation(r@),
{
    let mut perm: Vec<u32> = Vec::new();
    let mut i: u32 = 0;
    while i < size
        invariant
            i <= size,
            perm@ == identity(i as nat),
        decreases size - i,
    {
        perm.push(i);
        assert(perm@ =~= identity((i + 1) as nat));
        i += 1;
    }
    let mut k: usize = 0;
    while k < choices.len()
        invariant
            valid_choices(choices@),
            choices@.len() + 1 == size || (size == 0 && choices@.len() == 0),
            k <= choices@.len(),
            perm@.len() == size,
            perm@ == shuffled(choices@, size as nat, k as nat),
        decreases choices@.len() - k,
    {
        let j: usize = choices[k] as usize;
        let (x, y): (u32, u32) = (perm[k + 1], perm[j]);
        perm.set(k + 1, y);
        perm.set(j, x);
        assert(perm@ =~= shuffled(choices@, size as nat, (k + 1) as nat));
        k += 1;
    }
    proof {
        lemma_shuffled_is_permutation(choices@, size as nat, choices@.len());
    }
    perm
}

/// A pair of permutations, the first one known to this party and the next one, the second one to
/// this party and the previous one.
pub type Permutation = (Vec<u32>, Vec<u32>);

/// The two streams of a party among three: its own one, which the next party knows too, and that
/// of the previous party.
#[derive(Clone, Copy, Debug)]
pub struct Prf {
    pub my_prf: PrfRng,
    pub prev_prf: PrfRng,
}

/// A stream for a seed.
pub fn seed_to_rng(seed: &PrfSeed) -> (r: PrfRng)
    ensures
        PrfRng::fresh(blake3_hash(seed@), r),
        r.key@ == blake3_hash(seed@),
        r.pos == 0,
{
    PrfRng { key: Prf::expand_seed(seed), pos: 0 }
}

impl Prf {
    /// The streams of two seeds.
    pub fn new(my_key: &PrfSeed, prev_key: &PrfSeed) -> (r: Prf)
        ensures
            PrfRng::fresh(blake3_hash(my_key@), r.my_prf),
            PrfRng::fresh(blake3_hash(prev_key@), r.prev_prf),
            r.my_prf.key@ == blake3_hash(my_key@) && r.my_prf.pos == 0,
            r.prev_prf.key@ == blake3_hash(prev_key@) && r.prev_prf.pos == 0,
    {
        Prf { my_prf: seed_to_rng(my_key), prev_prf: seed_to_rng(prev_key) }
    }

    /// Stretches a seed to the size of a key.
    pub fn expand_seed(seed: &PrfSeed) -> (r: [u8; 32])
        ensures
            r@ == blake3_hash(seed@),
    {
        blake3_digest(seed)
    }

    /// The own stream.
    pub fn get_my_prf(&mut self) -> (r: &mut PrfRng)
        ensures
            *r == old(self).my_prf,
            *final(self) == (Prf { my_prf: *final(r), prev_prf: old(self).prev_prf }),
    {
        &mut self.my_prf
    }

    /// The stream of the previous party.
    pub fn get_prev_prf(&mut self) -> (r: &mut PrfRng)
        ensures
            *r == old(self).prev_prf,
            *final(self) == (Prf { my_prf: old(self).my_prf, prev_prf: *final(r) }),
    {
        &mut self.prev_prf
    }

    /// The streams after `n` values of type `T` were drawn from each.
    pub open spec fn after<T: PrfDraw>(self, n: int) -> Prf {
        Prf {
            my_prf: self.my_prf.advanced(n * T::words()),
            prev_prf: self.prev_prf.advanced(n * T::words()),
        }
    }

    /// Draws one value from each stream.
    pub fn gen_rands<T: PrfDraw>(&mut self) -> (r: (T, T))
        ensures
            r.0 == T::drawn(old(self).my_prf),
            r.1 == T::drawn(old(self).prev_prf),
            *final(self) == old(self).after::<T>(1),
    {
        let a: T = T::draw(&mut self.my_prf);
        let b: T = T::draw(&mut self.prev_prf);
        (a, b)
    }

    /// Draws a batch from the own stream.
    pub fn gen_rands_mine<T: PrfDraw>(&mut self, len: usize) -> (r: Vec<T>)
        ensures
            r@ == drawn_batch::<T>(old(self).my_prf, len as nat),
            *final(self) == (Prf {
                my_prf: old(self).my_prf.advanced(len * T::words()),
                prev_prf: old(self).prev_prf,
            }),
    {
        draw_batch(&mut self.my_prf, len)
    }

    /// Draws a batch from the stream of the previous party.
    pub fn gen_rands_prev<T: PrfDraw>(&mut self, len: usize) -> (r: Vec<T>)
        ensures
            r@ == drawn_batch::<T>(old(self).prev_prf, len as nat),
            *final(self) == (Prf {
                my_prf: old(self).my_prf,
                prev_prf: old(self).prev_prf.advanced(len * T::words()),
            }),
    {
        draw_batch(&mut self.prev_prf, len)
    }

    /// Draws a batch from each stream.
    pub fn gen_rands_batch<T: PrfDraw>(&mut self, len: usize) -> (r: (Vec<T>, Vec<T>))
        ensures
            r.0@ == drawn_batch::<T>(old(self).my_prf, len as nat),
            r.1@ == drawn_batch::<T>(old(self).prev_prf, len as nat),
            *final(self) == old(self).after::<T>(len as int),
    {
        let mine: Vec<T> = self.gen_rands_mine(len);
        let prev: Vec<T> = self.gen_rands_prev(len);
        (mine, prev)
    }

    /// The next share of zero of this party.
    pub open spec fn zero_share<T: IntRing2k + PrfDraw>(self) -> T {
        T::of_int(T::drawn(self.my_prf).val() - T::drawn(self.prev_prf).val())
    }

    /// The next binary share of zero of this party.
    pub open spec fn binary_zero_share<T: IntRing2k + PrfDraw>(self) -> T {
        T::drawn(self.my_prf).bxor(T::drawn(self.prev_prf))
    }

    /// Draws a share of zero: the own value minus that of the previous party.
    pub fn gen_zero_share<T: IntRing2k + PrfDraw>(&mut self) -> (r: T)
        ensures
            r == old(self).zero_share::<T>(),
            r == T::of_int(
                T::drawn(old(self).my_prf).val() - T::drawn(old(self).prev_prf).val(),
            ),
            *final(self) == old(self).after::<T>(1),
    {
        let (a, b): (T, T) = self.gen_rands();
        a.ring_sub(b)
    }

    /// Draws a binary share of zero: the exclusive or of the own value and that of the previous
    /// party.
    pub fn gen_binary_zero_share<T: IntRing2k + PrfDraw>(&mut self) -> (r: T)
        ensures
            r == old(self).binary_zero_share::<T>(),
            r == T::drawn(old(self).my_prf).bxor(T::drawn(old(self).prev_prf)),
            *final(self) == old(self).after::<T>(1),
    {
        let (a, b): (T, T) = self.gen_rands();
        a.ring_xor(b)
    }

    /// Draws a residue of `modulus` from each stream.
    pub fn gen_u32_mod(&mut self, modulus: u32) -> (r: Result<(u32, u32), ProtocolError>)
        ensures
            modulus == 0 ==> r == Err::<(u32, u32), ProtocolError>(ProtocolError::ZeroModulus)
                && *final(self) == *old(self),
            modulus > 0 ==> match (
                drawn_mod(old(self).my_prf, modulus),
                drawn_mod(old(self).prev_prf, modulus),
            ) {
                (Some((a, my)), Some((b, prev))) => {
                    &&& r == Ok::<(u32, u32), ProtocolError>((a, b))
                    &&& a < modulus
                    &&& b < modulus
                    &&& *final(self) == (Prf { my_prf: my, prev_prf: prev })
                },
                _ => r == Err::<(u32, u32), ProtocolError>(ProtocolError::StreamExhausted)
                    && *final(self) == *old(self),
            },
    {
        let start: Prf = *self;
        let a: u32 = match gen_u32_mod(&mut self.my_prf, modulus) {
            Ok(a) => a,
            Err(e) => {
                return Err(e);
            },
        };
        let b: u32 = match gen_u32_mod(&mut self.prev_prf, modulus) {
            Ok(b) => b,
            Err(e) => {
                *self = start;
                return Err(e);
            },
        };
        Ok((a, b))
    }

    /// Draws a permutation of the numbers below `size` from each stream.
    pub fn gen_permutation(&mut self, size: u32) -> (r: Result<Permutation, ProtocolError>)
        ensures
            permutations_drawn(*old(self), size, r, *final(self)),
            r is Ok ==> {
                &&& r->Ok_0.0@.len() == size && is_permutation(r->Ok_0.0@)
                &&& r->Ok_0.1@.len() == size && is_permutation(r->Ok_0.1@)
            },
            (r is Ok) == (drawn_choices(old(self).my_prf, 1, size as nat) is Some && drawn_choices(
                old(self).prev_prf,
                1,
                size as nat,
            ) is Some),
            r is Err ==> *final(self) == *old(self),
            r is Ok ==> {
                let (my, prev) = (
                    drawn_choices(old(self).my_prf, 1, size as nat)->0,
                    drawn_choices(old(self).prev_prf, 1, size as nat)->0,
                );
                &&& r->Ok_0.0@ == shuffled(my.0, size as nat, my.0.len())
                &&& r->Ok_0.1@ == shuffled(prev.0, size as nat, prev.0.len())
                &&& final(self).my_prf == my.1 && final(self).prev_prf == prev.1
                &&& forall|i: int| 0 <= i < size ==> #[trigger] r->Ok_0.0@[i] < size
                &&& forall|i: int| 0 <= i < size ==> #[trigger] r->Ok_0.1@[i] < size
                &&& forall|i: int, j: int|
                    0 <= i < j < size ==> #[trigger] r->Ok_0.0@[i] != #[trigger] r->Ok_0.0@[j]
                &&& forall|i: int, j: int|
                    0 <= i < j < size ==> #[trigger] r->Ok_0.1@[i] != #[trigger] r->Ok_0.1@[j]
            },
    {
        let start: Prf = *self;
        let a: Vec<u32> = match draw_choices(&mut self.my_prf, size) {
            Ok(a) => a,
            Err(e) => {
                return Err(e);
            },
        };
        let b: Vec<u32> = match draw_choices(&mut self.prev_prf, size) {
            Ok(b) => b,
            Err(e) => {
                *self = start;
                return Err(e);
            },
        };
        Ok((shuffle(size, a.as_slice()), shuffle(size, b.as_slice())))
    }
}

/// Three parties whose streams are pairwise in step: what one calls its own, the next one calls
/// that of its predecessor.
pub open spec fn in_step(p0: Prf, p1: Prf, p2: Prf) -> bool {
    &&& p1.prev_prf == p0.my_prf
    &&& p2.prev_prf == p1.my_prf
    &&& p0.prev_prf == p2.my_prf
}

/// Parties that draw the same stay in step.
pub proof fn lemma_stay_in_step<T: PrfDraw>(p0: Prf, p1: Prf, p2: Prf, n: int)
    requires
        in_step(p0, p1, p2),
    ensures
        in_step(p0.after::<T>(n), p1.after::<T>(n), p2.after::<T>(n)),
{
}

/// The permutation of the numbers below `size` that a stream gives, and the stream after it.
pub open spec fn drawn_permutation(rng: PrfRng, size: nat) -> Option<(Seq<u32>, PrfRng)> {
    match drawn_choices(rng, 1, size) {
        Some((choices, after)) => Some((shuffled(choices, size, choices.len()), after)),
        None => None,
    }
}

/// What a party ends with after drawing a permutation from each of its streams: the permutations
/// and its streams afterwards, or its streams unchanged if one of them is exhausted.
pub open spec fn permutations_drawn(
    before: Prf,
    size: u32,
    r: Result<Permutation, ProtocolError>,
    after: Prf,
) -> bool {
    match (
        drawn_permutation(before.my_prf, size as nat),
        drawn_permutation(before.prev_prf, size as nat),
    ) {
        (Some((a, my)), Some((b, prev))) => {
            &&& r is Ok
            &&& r->Ok_0.0@ == a
            &&& r->Ok_0.1@ == b
            &&& after == (Prf { my_prf: my, prev_prf: prev })
        },
        _ => r == Err::<Permutation, ProtocolError>(ProtocolError::StreamExhausted) && after
            == before,
    }
}

/// Somewhere in the whole stream there is a 64-bit value that no modulus rejects.
pub open spec fn lively(rng: PrfRng) -> bool {
    exists|k: nat| k < STREAM_DRAWS && #[trigger] draw_64(rng, k) <= 0xffff_ffff_0000_0000
}

/// A stream that is read in 64-bit values stays lively.
proof fn lemma_stays_lively(rng: PrfRng, j: nat)
    requires
        lively(rng),
    ensures
        lively(rng.advanced(2 * j as int)),
{
    let k = choose|k: nat| k < STREAM_DRAWS && #[trigger] draw_64(rng, k) <= 0xffff_ffff_0000_0000;
    let (d, w) = (STREAM_DRAWS as int, STREAM_WORDS as int);
    let at = (k - j) % d;
    let q = (k - j) / d;
    lemma_fundamental_div_mod(k - j, d);
    assert(2 * k == q * w + (2 * j + 2 * at));
    lemma_advance(rng, 2 * j as int, 2 * at);
    lemma_mod_multiples_vanish(q, rng.pos + 2 * j + 2 * at, w);
    assert(rng.advanced(2 * k as int) == rng.advanced(2 * j as int + 2 * at)) by {
        assert((rng.pos + 2 * k) % w == (rng.pos + 2 * j + 2 * at) % w);
    }
    assert(draw_64(rng.advanced(2 * j as int), at as nat) == draw_64(rng, k));
}

/// Where some value from place `j` on is accepted, a first one is.
proof fn lemma_some_accepted(rng: PrfRng, bound: u64, j: nat, k: nat)
    requires
        j <= k < STREAM_DRAWS,
        draw_64(rng, k) <= bound,
    ensures
        first_accepted(rng, bound, j) is Some,
    decreases k - j,
{
    if j < k {
        lemma_some_accepted(rng, bound, j + 1, k);
    }
}

/// A lively stream gives a permutation of every size.
pub proof fn lemma_lively_stream_draws(rng: PrfRng, i: nat, size: nat)
    requires
        lively(rng),
        1 <= i,
        size <= u32::MAX,
    ensures
        drawn_choices(rng, i, size) is Some,
        i == 1 ==> drawn_permutation(rng, size) is Some,
    decreases size - i,
{
    if i < size {
        let m = (i + 1) as u32;
        let k = choose|k: nat|
            k < STREAM_DRAWS && #[trigger] draw_64(rng, k) <= 0xffff_ffff_0000_0000;
        lemma_some_accepted(rng, bound_for(m), 0, k);
        let first = first_accepted(rng, bound_for(m), 0)->0;
        lemma_stays_lively(rng, first + 1);
        lemma_lively_stream_draws(rng.advanced(2 * (first as int + 1)), i + 1, size);
    }
}

/// Two parties draw the same permutation from the stream that they share: if the own stream of one
/// party is the stream that the next party holds of its predecessor, and both draw permutations, the
/// first one of that party is the second one of the next, each number below `size` occurs in it
/// exactly once, and the streams stay the same. The first permutation depends on the own stream
/// alone, the second one on that of the previous party. Both parties succeed unless one of the
/// streams holds nothing but the few values that are rejected.
pub proof fn lemma_permutations_agree(
    p: Prf,
    q: Prf,
    size: u32,
    of_p: Result<Permutation, ProtocolError>,
    of_q: Result<Permutation, ProtocolError>,
    p_after: Prf,
    q_after: Prf,
)
    requires
        q.prev_prf == p.my_prf,
        permutations_drawn(p, size, of_p, p_after),
        permutations_drawn(q, size, of_q, q_after),
    ensures
        lively(p.my_prf) && lively(p.prev_prf) ==> of_p is Ok,
        lively(q.my_prf) && lively(q.prev_prf) ==> of_q is Ok,
        of_p is Ok ==> {
            &&& of_p->Ok_0.0@.len() == size && is_permutation(of_p->Ok_0.0@)
            &&& of_p->Ok_0.1@.len() == size && is_permutation(of_p->Ok_0.1@)
            &&& drawn_permutation(p.my_prf, size as nat) == Some(
                (of_p->Ok_0.0@, p_after.my_prf),
            )
            &&& drawn_permutation(p.prev_prf, size as nat) == Some(
                (of_p->Ok_0.1@, p_after.prev_prf),
            )
        },
        of_p is Ok && of_q is Ok ==> {
            &&& of_p->Ok_0.0@ == of_q->Ok_0.1@
            &&& q_after.prev_prf == p_after.my_prf
        },
{
    if lively(p.my_prf) && lively(p.prev_prf) {
        lemma_lively_stream_draws(p.my_prf, 1, size as nat);
        lemma_lively_stream_draws(p.prev_prf, 1, size as nat);
    }
    if lively(q.my_prf) && lively(q.prev_prf) {
        lemma_lively_stream_draws(q.my_prf, 1, size as nat);
        lemma_lively_stream_draws(q.prev_prf, 1, size as nat);
    }
    if of_p is Ok {
        lemma_drawn_is_permutation(p.my_prf, size);
        lemma_drawn_is_permutation(p.prev_prf, size);
    }
}

/// What a stream gives is a permutation.
proof fn lemma_drawn_is_permutation(rng: PrfRng, size: u32)
    requires
        drawn_permutation(rng, size as nat) is Some,
    ensures
        ({
            let (a, _) = drawn_permutation(rng, size as nat)->0;
            a.len() == size && is_permutation(a)
        }),
{
    lemma_choices_valid(rng, 1, size as nat);
    let (choices, _) = drawn_choices(rng, 1, size as nat)->0;
    lemma_shuffled_is_permutation(choices, size as nat, choices.len());
}

/// Step `i` of a shuffle chooses one of the first `i + 1` places.
proof fn lemma_choices_valid(rng: PrfRng, i: nat, size: nat)
    requires
        i >= 1,
        size <= u32::MAX,
        drawn_choices(rng, i, size) is Some,
    ensures
        ({
            let (c, _) = drawn_choices(rng, i, size)->0;
            &&& c.len() == if i < size {
                size - i
            } else {
                0
            }
            &&& forall|k: int| 0 <= k < c.len() ==> (#[trigger] c[k]) <= i + k
        }),
    decreases size - i,
{
    if i < size {
        let (j, after) = drawn_mod(rng, (i + 1) as u32)->0;
        lemma_choices_valid(after, i + 1, size);
        let (rest, _) = drawn_choices(after, i + 1, size)->0;
        let c = seq![j] + rest;
        let m = (i + 1) as u32;
        let k = first_accepted(rng, bound_for(m), 0)->0;
        assert((draw_64(rng, k) % m as u64) < m);
        assert forall|x: int| 0 <= x < c.len() implies (#[trigger] c[x]) <= i + x by {
            if x > 0 {
                assert(c[x] == rest[x - 1]);
            }
        }
    }
}

/// The zero shares of three parties in step add up to zero.
pub proof fn lemma_zero_shares_cancel<T: IntRing2k + PrfDraw>(p0: Prf, p1: Prf, p2: Prf)
    requires
        in_step(p0, p1, p2),
    ensures
        T::of_int(
            p0.zero_share::<T>().val() + p1.zero_share::<T>().val() + p2.zero_share::<T>().val(),
        ) == zero::<T>(),
{
    let (a, b, c) = (
        T::drawn(p0.my_prf).val(),
        T::drawn(p1.my_prf).val(),
        T::drawn(p2.my_prf).val(),
    );
    lemma_sum3::<T>(a - c, b - a, c - b);
}

/// The binary zero shares of three parties in step cancel.
pub proof fn lemma_binary_zero_shares_cancel<T: IntRing2k + PrfDraw>(p0: Prf, p1: Prf, p2: Prf)
    requires
        in_step(p0, p1, p2),
    ensures
        p0.binary_zero_share::<T>().bxor(p1.binary_zero_share::<T>()).bxor(
            p2.binary_zero_share::<T>(),
        ) == zero::<T>(),
{
    broadcast use group_bits;

    let s = p0.binary_zero_share::<T>().bxor(p1.binary_zero_share::<T>()).bxor(
        p2.binary_zero_share::<T>(),
    );
    assert forall|i: nat| i < T::bits() implies bit(s, i) == bit(zero::<T>(), i) by {
    }
    lemma_bits_ext(s, zero::<T>());
}

} // verus!
