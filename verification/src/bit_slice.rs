//! Bit-sliced form: bit `i` of word `k` belongs to element `64 * k + i` of a batch.

use crate::ring::{bit_of, IntRing2k};
use crate::ring_lemmas::bit;
use crate::shares::Share;
use vstd::prelude::*;

verus! {

/// Number of words that hold `n` bits.
pub fn word_count(n: usize) -> (r: usize)
    ensures
        r == (n + 63) / 64,
        64 * r >= n,
        n > 0 ==> 64 * (r - 1) < n,
{
    if n % 64 == 0 {
        n / 64
    } else {
        n / 64 + 1
    }
}

/// Number of words that hold `n` bits.
pub open spec fn words_for(n: nat) -> nat {
    ((n + 63) / 64) as nat
}

proof fn lemma_bit_of_u64(x: u64, i: u64)
    requires
        i < 64,
    ensures
        bit_of(x as int, i as nat) == ((x >> i) & 1 == 1),
{
    vstd::bits::lemma_u64_shr_is_div(x, i);
    assert((x >> i) & 1 == (x >> i) % 2) by (bit_vector);
}

proof fn lemma_set_bit(x: u64, i: u64, j: u64)
    requires
        i < 64,
        j < 64,
    ensures
        bit(x | (1u64 << i), j as nat) == (bit(x, j as nat) || i == j),
{
    lemma_bit_of_u64(x, j);
    lemma_bit_of_u64(x | (1u64 << i), j);
    assert(((x | (1u64 << i)) >> j) & 1 == if i == j {
        1
    } else {
        (x >> j) & 1
    }) by (bit_vector)
        requires
            i < 64,
            j < 64,
    ;
}

/// Bit `i` of a vector, unset past its end.
pub open spec fn padded(bits: Seq<bool>, i: int) -> bool {
    0 <= i < bits.len() && bits[i]
}

/// Packs the 64 bits from `start` on into a word.
fn pack_word(bits: &[bool], start: usize) -> (r: u64)
    requires
        start <= bits@.len(),
    ensures
        forall|i: nat| i < 64 ==> #[trigger] bit(r, i) == padded(bits@, start + i),
{
    let mut acc: u64 = 0;
    proof {
        assert forall|j: nat| j < 64 implies !(#[trigger] bit(0u64, j)) by {
            lemma_bit_of_u64(0, j as u64);
            let s = j as u64;
            assert((0u64 >> s) & 1 == 0) by (bit_vector);
        }
    }
    let len: usize = bits.len();
    let rest: usize = len - start;
    let mut i: usize = 0;
    while i < 64
        invariant
            i <= 64,
            len == bits@.len(),
            start <= len,
            rest == len - start,
            forall|j: nat|
                j < 64 ==> #[trigger] bit(acc, j) == (j < i && padded(bits@, start + j)),
        decreases 64 - i,
    {
        if i < rest && bits[start + i] {
            proof {
                assert forall|j: nat| j < 64 implies #[trigger] bit(acc | (1u64 << (i as u64)), j)
                    == (j < i + 1 && padded(bits@, start + j)) by {
                    lemma_set_bit(acc, i as u64, j as u64);
                    assert(bit(acc, j) == (j < i && padded(bits@, start + j)));
                }
            }
            acc = acc | (1u64 << (i as u64));
        }
        i += 1;
    }
    acc
}

/// The words hold the bits in order, and zeros after them.
pub open spec fn holds_bits(words: Seq<u64>, bits: Seq<bool>) -> bool {
    &&& words.len() == words_for(bits.len())
    &&& forall|k: int, i: nat|
        0 <= k < words.len() && i < 64 ==> #[trigger] bit(words[k], i) == padded(bits, 64 * k + i)
}

/// Packs bits into words. Unused bits of the last word are zero.
pub fn pack_bits(bits: &[bool]) -> (r: Vec<u64>)
    ensures
        holds_bits(r@, bits@),
        r@.len() == (bits@.len() + 63) / 64,
        forall|k: int, i: nat|
            0 <= k < r@.len() && i < 64 ==> #[trigger] bit(r@[k], i) == (64 * k + i < bits@.len()
                && bits@[64 * k + i]),
{
    let len: usize = bits.len();
    let n: usize = word_count(len);
    let mut out: Vec<u64> = Vec::new();
    let mut k: usize = 0;
    while k < n
        invariant
            len == bits@.len(),
            k <= n,
            n == words_for(bits@.len()),
            out@.len() == k,
            forall|m: int, i: nat|
                0 <= m < k && i < 64 ==> #[trigger] bit(out@[m], i) == padded(bits@, 64 * m + i),
        decreases n - k,
    {
        assert(64 * k < bits@.len());
        out.push(pack_word(bits, 64 * k));
        k += 1;
    }
    out
}

/// The first parts of shares.
pub open spec fn first_parts<T>(shares: Seq<Share<T>>) -> Seq<T> {
    shares.map_values(|s: Share<T>| s.a)
}

/// The second parts of shares.
pub open spec fn second_parts<T>(shares: Seq<Share<T>>) -> Seq<T> {
    shares.map_values(|s: Share<T>| s.b)
}

/// The word shares hold the bit shares in order, part by part.
pub open spec fn holds_shares(words: Seq<Share<u64>>, bits: Seq<Share<bool>>) -> bool {
    &&& holds_bits(first_parts(words), first_parts(bits))
    &&& holds_bits(second_parts(words), second_parts(bits))
}

/// Packs bit shares into word shares.
pub fn pack_shares(bits: &[Share<bool>]) -> (r: Vec<Share<u64>>)
    ensures
        holds_shares(r@, bits@),
        r@.len() == words_for(bits@.len()),
        r@.len() == (bits@.len() + 63) / 64,
        forall|k: int, i: nat|
            0 <= k < r@.len() && i < 64 ==> #[trigger] bit(r@[k].a, i) == (64 * k + i
                < bits@.len() && bits@[64 * k + i].a),
        forall|k: int, i: nat|
            0 <= k < r@.len() && i < 64 ==> #[trigger] bit(r@[k].b, i) == (64 * k + i
                < bits@.len() && bits@[64 * k + i].b),
{
    let mut a: Vec<bool> = Vec::new();
    let mut b: Vec<bool> = Vec::new();
    let mut i: usize = 0;
    while i < bits.len()
        invariant
            i <= bits@.len(),
            a@.len() == i,
            b@.len() == i,
            forall|j: int| 0 <= j < i ==> a@[j] == bits@[j].a && b@[j] == bits@[j].b,
        decreases bits@.len() - i,
    {
        a.push(bits[i].a);
        b.push(bits[i].b);
        i += 1;
    }
    assert(a@ =~= first_parts(bits@));
    assert(b@ =~= second_parts(bits@));
    let words_a: Vec<u64> = pack_bits(a.as_slice());
    let words_b: Vec<u64> = pack_bits(b.as_slice());
    let mut out: Vec<Share<u64>> = Vec::new();
    let mut k: usize = 0;
    while k < words_a.len()
        invariant
            words_a@.len() == words_b@.len(),
            k <= words_a@.len(),
            out@.len() == k,
            forall|j: int| 0 <= j < k ==> out@[j].a == words_a@[j] && out@[j].b == words_b@[j],
        decreases words_a@.len() - k,
    {
        out.push(Share { a: words_a[k], b: words_b[k] });
        k += 1;
    }
    assert(first_parts(out@) =~= words_a@);
    assert(second_parts(out@) =~= words_b@);
    proof {
        assert forall|k: int, i: nat| 0 <= k < out@.len() && i < 64 implies #[trigger] bit(
            out@[k].a,
            i,
        ) == (64 * k + i < bits@.len() && bits@[64 * k + i].a) by {
            assert(bit(words_a@[k], i) == (64 * k + i < a@.len() && a@[64 * k + i]));
        }
        assert forall|k: int, i: nat| 0 <= k < out@.len() && i < 64 implies #[trigger] bit(
            out@[k].b,
            i,
        ) == (64 * k + i < bits@.len() && bits@[64 * k + i].b) by {
            assert(bit(words_b@[k], i) == (64 * k + i < b@.len() && b@[64 * k + i]));
        }
    }
    out
}

/// Bit share `i` of word shares.
pub open spec fn lane(words: Seq<Share<u64>>, i: int) -> Share<bool> {
    Share {
        a: bit(words[i / 64].a, (i % 64) as nat),
        b: bit(words[i / 64].b, (i % 64) as nat),
    }
}

/// Takes the first `n` bit shares out of word shares, or all of them if there are fewer.
pub fn unpack_shares(words: &[Share<u64>], n: usize) -> (r: Vec<Share<bool>>)
    ensures
        r@ == Seq::new(
            if n <= 64 * words@.len() {
                n as nat
            } else {
                64 * words@.len()
            },
            |i: int| lane(words@, i),
        ),
        r@.len() <= n && r@.len() <= 64 * words@.len(),
        r@.len() == n || r@.len() == 64 * words@.len(),
        forall|i: int|
            0 <= i < r@.len() ==> (#[trigger] r@[i]).a == bit(
                words@[i / 64].a,
                (i % 64) as nat,
            ) && r@[i].b == bit(words@[i / 64].b, (i % 64) as nat),
{
    let mut out: Vec<Share<bool>> = Vec::new();
    let mut i: usize = 0;
    while i < n && i / 64 < words.len()
        invariant
            i <= n,
            i <= 64 * words@.len(),
            out@.len() == i,
            forall|j: int| 0 <= j < i ==> out@[j] == lane(words@, j),
        decreases n - i,
    {
        let word: Share<u64> = words[i / 64];
        out.push(Share { a: word.a.bit_at(i % 64), b: word.b.bit_at(i % 64) });
        i += 1;
    }
    assert(out@ =~= Seq::new(
        if n <= 64 * words@.len() {
            n as nat
        } else {
            64 * words@.len()
        },
        |i: int| lane(words@, i),
    ));
    out
}

/// Packing and unpacking keeps bit shares.
pub proof fn lemma_unpack_packed(words: Seq<Share<u64>>, bits: Seq<Share<bool>>, i: int)
    requires
        holds_shares(words, bits),
        0 <= i < bits.len(),
    ensures
        lane(words, i) == bits[i],
        i / 64 < words.len(),
{
    let (k, j) = (i / 64, (i % 64) as nat);
    assert(first_parts(words).len() == words.len());
    assert(first_parts(bits).len() == bits.len());
    assert(0 <= k < words.len());
    assert(bit(first_parts(words)[k], j) == padded(first_parts(bits), 64 * k + j));
    assert(bit(second_parts(words)[k], j) == padded(second_parts(bits), 64 * k + j));
}

/// The shares of bit `p` of each element.
pub open spec fn plane_bits<T: IntRing2k>(x: Seq<Share<T>>, p: nat) -> Seq<Share<bool>> {
    x.map_values(|s: Share<T>| Share { a: bit(s.a, p), b: bit(s.b, p) })
}

/// Plane `p` holds bit `p` of each element.
pub open spec fn sliced<T: IntRing2k>(x: Seq<Share<T>>, planes: Seq<Vec<Share<u64>>>) -> bool {
    &&& planes.len() == T::bits()
    &&& forall|p: int|
        0 <= p < T::bits() ==> holds_shares((#[trigger] planes[p])@, plane_bits(x, p as nat))
}

/// In bit-sliced form, bit `e % 64` of word `e / 64` of plane `p` is bit `p` of element `e`.
pub proof fn lemma_sliced_bits<T: IntRing2k>(
    x: Seq<Share<T>>,
    planes: Seq<Vec<Share<u64>>>,
    p: int,
    e: int,
)
    requires
        sliced(x, planes),
        0 <= p < T::bits(),
        0 <= e < x.len(),
    ensures
        planes.len() == T::bits(),
        planes[p]@.len() == (x.len() + 63) / 64,
        bit(planes[p]@[e / 64].a, (e % 64) as nat) == bit(x[e].a, p as nat),
        bit(planes[p]@[e / 64].b, (e % 64) as nat) == bit(x[e].b, p as nat),
{
    assert(holds_shares(planes[p]@, plane_bits(x, p as nat)));
    assert(first_parts(planes[p]@).len() == planes[p]@.len());
    assert(first_parts(plane_bits(x, p as nat)).len() == x.len());
    lemma_unpack_packed(planes[p]@, plane_bits(x, p as nat), e);
}

/// Brings shares into bit-sliced form: plane `p` holds bit `p` of each element.
pub fn transpose_pack_u64<T: IntRing2k>(x: &[Share<T>]) -> (r: Vec<Vec<Share<u64>>>)
    ensures
        sliced(x@, r@),
        forall|p: int| 0 <= p < r@.len() ==> (#[trigger] r@[p])@.len() == words_for(x@.len()),
{
    let k: usize = T::width();
    let mut planes: Vec<Vec<Share<u64>>> = Vec::new();
    let mut p: usize = 0;
    while p < k
        invariant
            k == T::bits(),
            p <= k,
            planes@.len() == p,
            forall|q: int|
                0 <= q < p ==> {
                    &&& (#[trigger] planes@[q])@.len() == words_for(x@.len())
                    &&& holds_shares(planes@[q]@, plane_bits(x@, q as nat))
                },
        decreases k - p,
    {
        let mut bits: Vec<Share<bool>> = Vec::new();
        let mut i: usize = 0;
        while i < x.len()
            invariant
                p < T::bits(),
                i <= x@.len(),
                bits@.len() == i,
                forall|j: int|
                    0 <= j < i ==> #[trigger] bits@[j] == plane_bits(x@, p as nat)[j],
            decreases x@.len() - i,
        {
            bits.push(Share { a: x[i].a.bit_at(p), b: x[i].b.bit_at(p) });
            i += 1;
        }
        assert(bits@ =~= plane_bits(x@, p as nat));
        planes.push(pack_shares(bits.as_slice()));
        p += 1;
    }
    planes
}

} // verus!
