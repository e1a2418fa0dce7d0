//! Reducing three summands that five parties share bit by bit to two.

use crate::adders::{doubled, lnum, majority, majority_bits, xor3_bits};
use crate::dealer_5pc::{lemma_all_boolean, rss_value, shares5, RssShare, ShareType};
use crate::matrix::rectangular;
use crate::message::ProtocolError;
use crate::planes::{xor_seq, xor_vec};
use crate::ring::IntRing2k;
use crate::ring_lemmas::{bit, group_bits};
use crate::rss5::{consistent5, lemma_xor5_value, parts_of};
use crate::rss5_adder_laws::lemma_full_adder;
use crate::shares::XorShare;
use vstd::arithmetic::div_mod::*;
use vstd::prelude::*;

verus! {

impl XorShare for RssShare<u64> {
    open spec fn xor_of(self, other: RssShare<u64>) -> RssShare<u64> {
        self.xor_spec(other)
    }

    open spec fn nil_of() -> RssShare<u64> {
        RssShare { slots: [0u64, 0u64, 0u64, 0u64, 0u64, 0u64] }
    }

    fn xored(self, other: RssShare<u64>) -> (r: RssShare<u64>) {
        self.xor(other)
    }

    fn nil() -> (r: RssShare<u64>) {
        RssShare { slots: [0u64, 0u64, 0u64, 0u64, 0u64, 0u64] }
    }
}

/// Three summands of sixteen planes each, all with `words` words.
pub open spec fn summands_fit<S>(
    x: [Vec<S>; 16],
    y: [Vec<S>; 16],
    z: [Vec<S>; 16],
    words: nat,
) -> bool {
    &&& rectangular(x@, words)
    &&& rectangular(y@, words)
    &&& rectangular(z@, words)
}

fn all_as_long<S>(planes: &[Vec<S>; 16], words: usize) -> (r: bool)
    ensures
        r == rectangular(planes@, words as nat),
{
    let mut i: usize = 0;
    while i < 16
        invariant
            i <= 16,
            forall|j: int| 0 <= j < i ==> (#[trigger] planes@[j])@.len() == words,
        decreases 16 - i,
    {
        if planes[i].len() != words {
            return false;
        }
        i += 1;
    }
    true
}

/// The exclusive or of the fifteen lower planes of two summands, one after the other.
pub open spec fn operand<S: XorShare>(x: [Vec<S>; 16], y: [Vec<S>; 16], words: int) -> Seq<S> {
    Seq::new(
        (15 * words) as nat,
        |m: int| x@[m / words]@[m % words].xor_of(y@[m / words]@[m % words]),
    )
}

/// First half of the reduction: the operands of one bitwise and, which are `x ^ y` and `z ^ x` of
/// the fifteen lower planes, one after the other. Fails unless all planes are equally long.
pub fn full_adder_operands<S: XorShare>(
    x: &[Vec<S>; 16],
    y: &[Vec<S>; 16],
    z: &[Vec<S>; 16],
) -> (r: Result<(Vec<S>, Vec<S>), ProtocolError>)
    ensures
        ({
            let words = x@[0]@.len() as int;
            if summands_fit(*x, *y, *z, words as nat) {
                &&& r is Ok
                &&& (r->Ok_0).0@ == operand(*x, *y, words)
                &&& (r->Ok_0).1@ == operand(*z, *x, words)
            } else {
                r == Err::<(Vec<S>, Vec<S>), ProtocolError>(ProtocolError::LengthMismatch)
            }
        }),
        r is Ok ==> {
            let words = x@[0]@.len() as int;
            &&& (r->Ok_0).0@.len() == 15 * words && (r->Ok_0).1@.len() == 15 * words
            &&& forall|m: int|
                0 <= m < 15 * words ==> #[trigger] (r->Ok_0).0@[m] == x@[m / words]@[m
                    % words].xor_of(y@[m / words]@[m % words])
            &&& forall|m: int|
                0 <= m < 15 * words ==> #[trigger] (r->Ok_0).1@[m] == z@[m / words]@[m
                    % words].xor_of(x@[m / words]@[m % words])
        },
{
    let words: usize = x[0].len();
    if !all_as_long(x, words) || !all_as_long(y, words) || !all_as_long(z, words) {
        return Err(ProtocolError::LengthMismatch);
    }
    let mut lhs: Vec<S> = Vec::new();
    let mut rhs: Vec<S> = Vec::new();
    let mut b: usize = 0;
    assert(0 * words == 0);
    while b < 15
        invariant
            b <= 15,
            words == x@[0]@.len(),
            summands_fit(*x, *y, *z, words as nat),
            lhs@.len() == b * words,
            rhs@.len() == b * words,
            forall|m: int|
                0 <= m < lhs@.len() ==> #[trigger] lhs@[m] == x@[m / words as int]@[m
                    % words as int].xor_of(y@[m / words as int]@[m % words as int]),
            forall|m: int|
                0 <= m < rhs@.len() ==> #[trigger] rhs@[m] == z@[m / words as int]@[m
                    % words as int].xor_of(x@[m / words as int]@[m % words as int]),
        decreases 15 - b,
    {
        let mut w: usize = 0;
        while w < words
            invariant
                b < 15,
                w <= words,
                words == x@[0]@.len(),
                summands_fit(*x, *y, *z, words as nat),
                lhs@.len() == b * words + w,
                rhs@.len() == b * words + w,
                forall|m: int|
                    0 <= m < lhs@.len() ==> #[trigger] lhs@[m] == x@[m / words as int]@[m
                        % words as int].xor_of(y@[m / words as int]@[m % words as int]),
                forall|m: int|
                    0 <= m < rhs@.len() ==> #[trigger] rhs@[m] == z@[m / words as int]@[m
                        % words as int].xor_of(x@[m / words as int]@[m % words as int]),
            decreases words - w,
        {
            proof {
                lemma_fundamental_div_mod_converse(
                    b * words + w,
                    words as int,
                    b as int,
                    w as int,
                );
                assert(x@[b as int]@.len() == words && y@[b as int]@.len() == words
                    && z@[b as int]@.len() == words);
            }
            lhs.push(x[b][w].xored(y[b][w]));
            rhs.push(z[b][w].xored(x[b][w]));
            w += 1;
        }
        assert((b + 1) * words == b * words + words) by (nonlinear_arith);
        b += 1;
    }
    assert(lhs@ =~= operand(*x, *y, words as int));
    assert(rhs@ =~= operand(*z, *x, words as int));
    Ok((lhs, rhs))
}

/// The bitwise sum of the summands.
pub open spec fn reduced_sum<S: XorShare>(
    x: [Vec<S>; 16],
    y: [Vec<S>; 16],
    z: [Vec<S>; 16],
    a: Seq<Vec<S>>,
) -> bool {
    &&& a.len() == 16
    &&& forall|b: int|
        0 <= b < 16 ==> (#[trigger] a[b])@ == xor_seq(xor_seq(x@[b]@, y@[b]@), z@[b]@)
}

/// Twice the carries of the summands: the lowest plane is zero, and every other one is
/// `x ^ product` of the place below.
pub open spec fn reduced_carry<S: XorShare>(
    x: [Vec<S>; 16],
    products: Seq<S>,
    words: int,
    c: Seq<Vec<S>>,
) -> bool {
    &&& c.len() == 16
    &&& c[0]@ == Seq::new(words as nat, |w: int| S::nil_of())
    &&& forall|b: int|
        1 <= b < 16 ==> (#[trigger] c[b])@ == Seq::new(
            words as nat,
            |w: int| x@[b - 1]@[w].xor_of(products[(b - 1) * words + w]),
        )
}

/// Second half of the reduction: two summands with the same sum as the three.
pub fn full_adder_reduce<S: XorShare>(
    x: &[Vec<S>; 16],
    y: &[Vec<S>; 16],
    z: &[Vec<S>; 16],
    products: &[S],
) -> (r: Result<(Vec<Vec<S>>, Vec<Vec<S>>), ProtocolError>)
    requires
        summands_fit(*x, *y, *z, x@[0]@.len()),
    ensures
        if products@.len() == 15 * x@[0]@.len() {
            &&& r is Ok
            &&& reduced_sum(*x, *y, *z, (r->Ok_0).0@)
            &&& reduced_carry(*x, products@, x@[0]@.len() as int, (r->Ok_0).1@)
        } else {
            r == Err::<(Vec<Vec<S>>, Vec<Vec<S>>), ProtocolError>(ProtocolError::LengthMismatch)
        },
        r is Ok ==> {
            let (words, s, c) = (x@[0]@.len() as int, (r->Ok_0).0@, (r->Ok_0).1@);
            &&& s.len() == 16 && c.len() == 16
            &&& forall|b: int|
                0 <= b < 16 ==> (#[trigger] s[b])@ == xor_seq(xor_seq(x@[b]@, y@[b]@), z@[b]@)
            &&& c[0]@ == Seq::new(words as nat, |w: int| S::nil_of())
            &&& forall|b: int|
                1 <= b < 16 ==> (#[trigger] c[b])@ == Seq::new(
                    words as nat,
                    |w: int| x@[b - 1]@[w].xor_of(products@[(b - 1) * words + w]),
                )
        },
{
    let words: usize = x[0].len();
    let total: usize = products.len();
    if total % 15 != 0 || total / 15 != words {
        return Err(ProtocolError::LengthMismatch);
    }
    let mut a: Vec<Vec<S>> = Vec::new();
    let mut c: Vec<Vec<S>> = Vec::new();
    let mut b: usize = 0;
    while b < 16
        invariant
            b <= 16,
            words == x@[0]@.len(),
            summands_fit(*x, *y, *z, words as nat),
            a@.len() == b,
            forall|i: int|
                0 <= i < b ==> (#[trigger] a@[i])@ == xor_seq(
                    xor_seq(x@[i]@, y@[i]@),
                    z@[i]@,
                ),
        decreases 16 - b,
    {
        assert(x@[b as int]@.len() == words && y@[b as int]@.len() == words && z@[b as int]@.len()
            == words);
        let xy: Vec<S> = xor_vec(x[b].as_slice(), y[b].as_slice());
        a.push(xor_vec(xy.as_slice(), z[b].as_slice()));
        b += 1;
    }
    let mut zeros: Vec<S> = Vec::new();
    let mut w: usize = 0;
    while w < words
        invariant
            w <= words,
            zeros@ == Seq::new(w as nat, |v: int| S::nil_of()),
        decreases words - w,
    {
        zeros.push(S::nil());
        assert(zeros@ =~= Seq::new((w + 1) as nat, |v: int| S::nil_of()));
        w += 1;
    }
    c.push(zeros);
    let mut at: usize = 0;
    let mut k: usize = 1;
    while k < 16
        invariant
            1 <= k <= 16,
            words == x@[0]@.len(),
            summands_fit(*x, *y, *z, words as nat),
            total == products@.len(),
            total == 15 * words,
            at == (k - 1) * words,
            c@.len() == k,
            c@[0]@ == Seq::new(words as nat, |v: int| S::nil_of()),
            forall|i: int|
                1 <= i < k ==> (#[trigger] c@[i])@ == Seq::new(
                    words as nat,
                    |v: int| x@[i - 1]@[v].xor_of(products@[(i - 1) * words + v]),
                ),
        decreases 16 - k,
    {
        assert(at + words <= total) by (nonlinear_arith)
            requires
                at == (k - 1) * words,
                k < 16,
                total == 15 * words,
        ;
        assert(x@[k - 1]@.len() == words);
        let mut plane: Vec<S> = Vec::new();
        let mut v: usize = 0;
        while v < words
            invariant
                1 <= k < 16,
                v <= words,
                x@[k - 1]@.len() == words,
                total == products@.len(),
                at + words <= total,
                at == (k - 1) * words,
                plane@.len() == v,
                forall|i: int|
                    0 <= i < v ==> #[trigger] plane@[i] == x@[k - 1]@[i].xor_of(
                        products@[at + i],
                    ),
            decreases words - v,
        {
            plane.push(x[k - 1][v].xored(products[at + v]));
            v += 1;
        }
        assert(plane@ =~= Seq::new(
            words as nat,
            |i: int| x@[k - 1]@[i].xor_of(products@[(k - 1) * words + i]),
        ));
        c.push(plane);
        at += words;
        assert(at == k * words) by (nonlinear_arith)
            requires
                at == (k - 1) * words + words,
        ;
        k += 1;
    }
    Ok((a, c))
}

/// The value of word shares of five parties, as it combines by exclusive or.
pub open spec fn word_value(shares: Seq<RssShare<u64>>) -> u64 {
    rss_value(ShareType::Boolean, shares)
}

/// The exclusive or of word shares that fit fits, and its value is the exclusive or.
pub proof fn lemma_rss_xor(x: Seq<RssShare<u64>>, y: Seq<RssShare<u64>>, z: Seq<RssShare<u64>>)
    requires
        x.len() == 5,
        y.len() == 5,
        z.len() == 5,
        consistent5(shares5(x)),
        consistent5(shares5(y)),
        forall|p: int| 0 <= p < 5 ==> #[trigger] z[p] == x[p].xor_of(y[p]),
    ensures
        consistent5(shares5(z)),
        word_value(z) == word_value(x).bxor(word_value(y)),
{
    let (a, b) = (shares5(x), shares5(y));
    lemma_xor5_value(a, b);
    assert(shares5(z) =~= Seq::new(5, |p: int| a[p].xor_spec(b[p])));
    lemma_all_boolean(parts_of(a), 10);
    lemma_all_boolean(parts_of(b), 10);
    lemma_all_boolean(parts_of(shares5(z)), 10);
}

/// A carry `x ^ ((x ^ y) & (z ^ x))` is the bitwise majority of the three words.
pub proof fn lemma_carry_word(
    x: Seq<RssShare<u64>>,
    y: Seq<RssShare<u64>>,
    z: Seq<RssShare<u64>>,
    product: Seq<RssShare<u64>>,
    c: Seq<RssShare<u64>>,
    i: nat,
)
    requires
        i < 64,
        x.len() == 5,
        y.len() == 5,
        z.len() == 5,
        product.len() == 5,
        c.len() == 5,
        consistent5(shares5(x)),
        consistent5(shares5(y)),
        consistent5(shares5(z)),
        consistent5(shares5(product)),
        word_value(product) == word_value(Seq::new(5, |p: int| x[p].xor_of(y[p]))).band(
            word_value(Seq::new(5, |p: int| z[p].xor_of(x[p]))),
        ),
        forall|p: int| 0 <= p < 5 ==> #[trigger] c[p] == x[p].xor_of(product[p]),
    ensures
        consistent5(shares5(c)),
        bit(word_value(c), i) == majority(
            bit(word_value(x), i),
            bit(word_value(y), i),
            bit(word_value(z), i),
        ),
{
    broadcast use group_bits;

    lemma_rss_xor(x, y, Seq::new(5, |p: int| x[p].xor_of(y[p])));
    lemma_rss_xor(z, x, Seq::new(5, |p: int| z[p].xor_of(x[p])));
    lemma_rss_xor(x, product, c);
}

/// In every lane the two summands add up to what the three added up to, modulo `2^16`: the bitwise
/// sum and twice the bitwise majority without its top bit.
pub proof fn lemma_reduction_keeps_sum(x: Seq<bool>, y: Seq<bool>, z: Seq<bool>)
    requires
        x.len() == 16,
        y.len() == 16,
        z.len() == 16,
    ensures
        (lnum(x, 16) + lnum(y, 16) + lnum(z, 16)) % 0x1_0000 == (lnum(xor3_bits(x, y, z), 16)
            + lnum(doubled(majority_bits(x, y, z)), 16)) % 0x1_0000,
{
    let q = lemma_full_adder(x, y, z);
    let s = lnum(xor3_bits(x, y, z), 16) + lnum(doubled(majority_bits(x, y, z)), 16);
    lemma_mod_multiples_vanish(q, s, 0x1_0000);
}

} // verus!
