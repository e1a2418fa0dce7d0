//! Adding values that five parties share as bit planes, and extracting the top bit of the sum.

use crate::adders::CarryChain;
use crate::bit_slice::{holds_bits, pack_bits, padded, word_count, words_for};
use crate::matrix::rectangular;
use crate::message::ProtocolError;
use crate::planes::{flat, flatten, xor_seq, xor_vec};
use crate::ring::IntRing2k;
use crate::ring_lemmas::{bit, zero};
use crate::rss5::Share5;
use crate::rss5_session::Rss5Session;
use crate::rss5_words::{correction, dealt_share};
use crate::shares::XorShare;
use vstd::arithmetic::div_mod::*;
use vstd::prelude::*;

verus! {

/// Bit planes of a 16-bit value.
pub const PLANES: usize = 16;

/// One bit plane of shared words.
pub type Plane5 = Vec<Share5<u64>>;

/// A shared 16-bit value for each lane: its bit planes, the least significant one first.
pub type Value5 = Vec<Plane5>;

/// What a party brings into the adder: parties 0, 1 and 2 know one addend of every entry.
#[derive(Debug)]
pub struct AdderInput {
    pub len: usize,
    pub value: Option<Vec<u16>>,
}

impl AdderInput {
    /// The addends that the party knows.
    pub fn value(&self) -> (r: Option<&[u16]>)
        ensures
            (r is Some) == (self.value is Some),
            r is Some ==> (r->0)@ == (self.value->0)@,
    {
        match &self.value {
            Some(v) => Some(v.as_slice()),
            None => None,
        }
    }
}

/// Subtracts a public value from every sum: party 0 subtracts it from its addends.
pub fn sub_pub(sess: &Rss5Session, input: &mut AdderInput, rhs: u16)
    requires
        sess.topo.party == 0 ==> old(input).value is Some,
    ensures
        final(input).len == old(input).len,
        sess.topo.party != 0 ==> *final(input) == *old(input),
        sess.topo.party == 0 ==> {
            &&& final(input).value is Some
            &&& (final(input).value->0)@ == (old(input).value->0)@.map_values(
                |v: u16| u16::of_int(v.val() - rhs.val()),
            )
        },
{
    if sess.topo.party == 0 {
        let ghost before = (input.value->0)@;
        if let Some(value) = &input.value {
            let mut out: Vec<u16> = Vec::new();
            let mut i: usize = 0;
            while i < value.len()
                invariant
                    i <= value@.len(),
                    value@ == before,
                    out@.len() == i,
                    forall|j: int|
                        0 <= j < i ==> #[trigger] out@[j] == u16::of_int(
                            before[j].val() - rhs.val(),
                        ),
                decreases value@.len() - i,
            {
                out.push(value[i].ring_sub(rhs));
                i += 1;
            }
            assert(out@ =~= before.map_values(|v: u16| u16::of_int(v.val() - rhs.val())));
            input.value = Some(out);
        }
    }
}

/// Bit `b` of every value.
pub open spec fn bits_of_place(vals: Seq<u16>, b: nat) -> Seq<bool> {
    vals.map_values(|v: u16| bit(v, b))
}

/// The bit planes of values: bit `j` of word `w` of plane `b` is bit `b` of value `64 * w + j`,
/// and bits past the last value are zero.
pub fn transpose_planes(vals: &[u16]) -> (r: Vec<Vec<u64>>)
    ensures
        r@.len() == 16,
        rectangular(r@, words_for(vals@.len())),
        forall|b: int| 0 <= b < 16 ==> holds_bits((#[trigger] r@[b])@, bits_of_place(vals@, b as nat)),
        forall|b: int| 0 <= b < 16 ==> (#[trigger] r@[b])@.len() == (vals@.len() + 63) / 64,
        forall|b: int, k: int, i: nat|
            0 <= b < 16 && 0 <= k < r@[b]@.len() && i < 64 ==> #[trigger] bit(r@[b]@[k], i) == (64
                * k + i < vals@.len() && bit(vals@[64 * k + i], b as nat)),
{
    let mut planes: Vec<Vec<u64>> = Vec::new();
    let mut b: usize = 0;
    while b < 16
        invariant
            b <= 16,
            planes@.len() == b,
            forall|c: int|
                0 <= c < b ==> holds_bits((#[trigger] planes@[c])@, bits_of_place(vals@, c as nat)),
        decreases 16 - b,
    {
        let mut bits: Vec<bool> = Vec::new();
        let mut i: usize = 0;
        while i < vals.len()
            invariant
                b < 16,
                i <= vals@.len(),
                bits@.len() == i,
                forall|j: int| 0 <= j < i ==> #[trigger] bits@[j] == bit(vals@[j], b as nat),
            decreases vals@.len() - i,
        {
            bits.push(vals[i].bit_at(b));
            i += 1;
        }
        assert(bits@ =~= bits_of_place(vals@, b as nat));
        planes.push(pack_bits(bits.as_slice()));
        b += 1;
    }
    planes
}

/// Cuts a vector into planes of equal length.
pub fn chunk_planes<S: Copy>(words: &[S], planes: usize, width: usize) -> (r: Vec<Vec<S>>)
    requires
        words@.len() == planes * width,
    ensures
        r@.len() == planes,
        rectangular(r@, width as nat),
        forall|j: int, w: int|
            0 <= j < planes && 0 <= w < width ==> #[trigger] r@[j]@[w] == words@[j * width + w],
{
    let total: usize = words.len();
    let mut out: Vec<Vec<S>> = Vec::new();
    let mut at: usize = 0;
    let mut j: usize = 0;
    while j < planes
        invariant
            total == words@.len(),
            total == planes * width,
            j <= planes,
            at == j * width,
            at <= total,
            out@.len() == j,
            rectangular(out@, width as nat),
            forall|i: int, w: int|
                0 <= i < j && 0 <= w < width ==> #[trigger] out@[i]@[w] == words@[i * width + w],
        decreases planes - j,
    {
        assert(at + width <= total) by (nonlinear_arith)
            requires
                at == j * width,
                j < planes,
                total == planes * width,
        ;
        let mut plane: Vec<S> = Vec::new();
        let mut w: usize = 0;
        while w < width
            invariant
                total == words@.len(),
                at + width <= total,
                w <= width,
                plane@.len() == w,
                forall|v: int| 0 <= v < w ==> #[trigger] plane@[v] == words@[at + v],
            decreases width - w,
        {
            plane.push(words[at + w]);
            w += 1;
        }
        out.push(plane);
        at += width;
        assert(at == (j + 1) * width) by (nonlinear_arith)
            requires
                at == j * width + width,
        ;
        j += 1;
    }
    out
}

/// The bit planes of values, one after the other.
pub open spec fn holds_planes(words: Seq<u64>, vals: Seq<u16>) -> bool {
    let width = words_for(vals.len()) as int;
    &&& words.len() == 16 * width
    &&& forall|m: int, i: nat|
        0 <= m < words.len() && i < 64 ==> #[trigger] bit(words[m], i) == padded(
            bits_of_place(vals, (m / width) as nat),
            64 * (m % width) + i,
        )
}

/// Planes of equal length, one after the other.
pub proof fn lemma_flat_rect<A>(x: Seq<Vec<A>>, width: nat, n: nat)
    requires
        n <= x.len(),
        rectangular(x, width),
    ensures
        flat(x, n).len() == n * width,
        forall|m: int|
            0 <= m < n * width ==> #[trigger] flat(x, n)[m] == x[m / width as int]@[m
                % width as int],
    decreases n,
{
    if n == 0 {
        assert(0 * width == 0);
    } else {
        let k = (n - 1) as nat;
        lemma_flat_rect(x, width, k);
        let w = width as int;
        assert(n * w == k * w + w) by (nonlinear_arith)
            requires
                n == k + 1,
        ;
        assert(x[k as int]@.len() == width);
        assert forall|m: int| 0 <= m < n * width implies #[trigger] flat(x, n)[m] == x[m / w]@[m
            % w] by {
            if m >= k * w {
                let v = m - k * w;
                lemma_fundamental_div_mod_converse(m, w, k as int, v);
            }
        }
    }
}

/// The addends of a party as bit planes, one after the other.
fn adder_words(vals: &[u16]) -> (r: Vec<u64>)
    ensures
        holds_planes(r@, vals@),
{
    let planes: Vec<Vec<u64>> = transpose_planes(vals);
    let words: Vec<u64> = flatten(planes.as_slice());
    proof {
        let w = words_for(vals@.len());
        lemma_flat_rect(planes@, w, 16);
        assert forall|m: int, i: nat| 0 <= m < words@.len() && i < 64 implies #[trigger] bit(
            words@[m],
            i,
        ) == padded(bits_of_place(vals@, (m / w as int) as nat), 64 * (m % w as int) + i) by {
            let (b, k) = (m / w as int, m % w as int);
            lemma_fundamental_div_mod(m, w as int);
            lemma_mod_bound(m, w as int);
            assert(0 <= b < 16) by (nonlinear_arith)
                requires
                    m == w * b + k,
                    0 <= k < w,
                    0 <= m < 16 * w,
            ;
            assert(holds_bits(planes@[b]@, bits_of_place(vals@, b as nat)));
            assert(bit(planes@[b]@[k], i) == padded(bits_of_place(vals@, b as nat), 64 * k + i));
        }
    }
    words
}

/// First half of sharing the addends of party `sharer` bit by bit. The party turns its addends into
/// bit planes, which are shared as words, one plane after the other.
pub fn share_adder_input(sess: &mut Rss5Session, input: &AdderInput, sharer: usize) -> (r: (
    Vec<Share5<u64>>,
    Option<Vec<u64>>,
))
    requires
        old(sess).wf(),
        sharer < 3,
        old(sess).topo.party == sharer ==> input.value is Some && (input.value->0)@.len()
            == input.len,
    ensures
        final(sess).wf(),
        final(sess).topo == old(sess).topo,
        final(sess)@ == old(sess)@.shared_words(sharer as int, 16 * words_for(input.len as nat)),
        r.0@.len() == 16 * words_for(input.len as nat),
        (r.1 is Some) == (old(sess).topo.party == sharer),
        r.1 is Some ==> exists|words: Seq<u64>| #[trigger]
            holds_planes(words, (input.value->0)@) && (r.1->0)@ == Seq::new(
                16 * words_for(input.len as nat),
                |k: int| correction(old(sess)@.streams, sharer as int, words, k),
            ),
        forall|k: int|
            0 <= k < r.0@.len() ==> dealt_share(
                old(sess)@.party,
                old(sess)@.streams,
                sharer as int,
                16 * words_for(input.len as nat),
                k,
                if r.1 is Some {
                    (r.1->0)@[k]
                } else {
                    zero::<u64>()
                },
                #[trigger] r.0@[k],
            ),
{
    let width: usize = word_count(input.len);
    let mut words: Option<Vec<u64>> = None;
    if sess.topo.party == sharer {
        if let Some(vals) = input.value() {
            words = Some(adder_words(vals));
        }
    }
    let ghost flat_words = words->0@;
    let r = sess.input_share_words(sharer, 16 * width, words);
    proof {
        if r.1 is Some {
            assert(holds_planes(flat_words, (input.value->0)@));
        }
    }
    r
}

/// Values of sixteen planes with `words` words each.
pub open spec fn shaped<S>(values: Seq<Vec<Vec<S>>>, words: nat) -> bool {
    forall|j: int|
        0 <= j < values.len() ==> (#[trigger] values[j])@.len() == 16 && rectangular(
            values[j]@,
            words,
        )
}

/// The operands of a layer of full adders: of each group of three values, the planes `x ^ z` and
/// `y ^ z` of the fifteen lower places.
pub open spec fn fa_operands<S: XorShare>(
    values: Seq<Vec<Vec<S>>>,
    groups: nat,
    lhs: Seq<Vec<S>>,
    rhs: Seq<Vec<S>>,
) -> bool {
    &&& lhs.len() == 15 * groups
    &&& rhs.len() == 15 * groups
    &&& forall|m: int|
        0 <= m < 15 * groups ==> (#[trigger] lhs[m])@ == xor_seq(
            values[3 * (m / 15)]@[m % 15]@,
            values[3 * (m / 15) + 2]@[m % 15]@,
        )
    &&& forall|m: int|
        0 <= m < 15 * groups ==> (#[trigger] rhs[m])@ == xor_seq(
            values[3 * (m / 15) + 1]@[m % 15]@,
            values[3 * (m / 15) + 2]@[m % 15]@,
        )
}

/// The bitwise sum of three values.
pub open spec fn is_sum<S: XorShare>(
    x: Seq<Vec<S>>,
    y: Seq<Vec<S>>,
    z: Seq<Vec<S>>,
    s: Seq<Vec<S>>,
) -> bool {
    &&& s.len() == 16
    &&& forall|k: int|
        0 <= k < 16 ==> (#[trigger] s[k])@ == xor_seq(xor_seq(x[k]@, y[k]@), z[k]@)
}

/// Twice the bitwise majority of three values, from the products of the layer that begin at
/// `base`: the lowest plane is zero, and every other one is `product ^ z` of the place below.
pub open spec fn is_carry<S: XorShare>(
    z: Seq<Vec<S>>,
    products: Seq<Vec<S>>,
    base: int,
    words: nat,
    c: Seq<Vec<S>>,
) -> bool {
    &&& c.len() == 16
    &&& c[0]@ == Seq::new(words, |w: int| S::nil_of())
    &&& forall|k: int|
        1 <= k < 16 ==> (#[trigger] c[k])@ == xor_seq(products[base + k - 1]@, z[k - 1]@)
}

/// The values after a layer: each group of three became a sum and a carry, and the values that were
/// left over follow.
pub open spec fn fa_values<S: XorShare>(
    values: Seq<Vec<Vec<S>>>,
    groups: nat,
    products: Seq<Vec<S>>,
    words: nat,
    next: Seq<Vec<Vec<S>>>,
) -> bool {
    &&& next.len() == values.len() - groups
    &&& forall|j: int| 0 <= j < next.len() ==> fa_value(values, groups, products, words, j, #[trigger] next[j])
}

/// Value `j` after a layer.
pub open spec fn fa_value<S: XorShare>(
    values: Seq<Vec<Vec<S>>>,
    groups: nat,
    products: Seq<Vec<S>>,
    words: nat,
    j: int,
    value: Vec<Vec<S>>,
) -> bool {
    let g = j / 2;
    if j >= 2 * groups {
        value == values[j + groups]
    } else if j % 2 == 0 {
        is_sum(values[3 * g]@, values[3 * g + 1]@, values[3 * g + 2]@, value@)
    } else {
        is_carry(values[3 * g + 2]@, products, 15 * g, words, value@)
    }
}

/// The operands of a layer of full adders.
fn fa_request<S: XorShare>(values: &[Vec<Vec<S>>], words: usize) -> (r: (Vec<Vec<S>>, Vec<Vec<S>>))
    requires
        shaped(values@, words as nat),
    ensures
        fa_operands(values@, values@.len() / 3, r.0@, r.1@),
        rectangular(r.0@, words as nat),
        rectangular(r.1@, words as nat),
{
    let len: usize = values.len();
    let groups: usize = len / 3;
    let mut lhs: Vec<Vec<S>> = Vec::new();
    let mut rhs: Vec<Vec<S>> = Vec::new();
    let mut g: usize = 0;
    while g < groups
        invariant
            shaped(values@, words as nat),
            len == values@.len(),
            groups == len / 3,
            g <= groups,
            fa_operands(values@, g as nat, lhs@, rhs@),
            rectangular(lhs@, words as nat),
            rectangular(rhs@, words as nat),
        decreases groups - g,
    {
        let mut k: usize = 0;
        while k < 15
            invariant
                shaped(values@, words as nat),
                len == values@.len(),
                groups == len / 3,
                g < groups,
                k <= 15,
                lhs@.len() == 15 * g + k,
                rhs@.len() == 15 * g + k,
                forall|m: int|
                    0 <= m < lhs@.len() ==> (#[trigger] lhs@[m])@ == xor_seq(
                        values@[3 * (m / 15)]@[m % 15]@,
                        values@[3 * (m / 15) + 2]@[m % 15]@,
                    ),
                forall|m: int|
                    0 <= m < rhs@.len() ==> (#[trigger] rhs@[m])@ == xor_seq(
                        values@[3 * (m / 15) + 1]@[m % 15]@,
                        values@[3 * (m / 15) + 2]@[m % 15]@,
                    ),
                rectangular(lhs@, words as nat),
                rectangular(rhs@, words as nat),
            decreases 15 - k,
        {
            let (x, y, z): (&Vec<Vec<S>>, &Vec<Vec<S>>, &Vec<Vec<S>>) = (
                &values[3 * g],
                &values[3 * g + 1],
                &values[3 * g + 2],
            );
            proof {
                assert(x@ == values@[3 * g as int]@ && rectangular(x@, words as nat));
                assert(y@ == values@[3 * g + 1]@ && rectangular(y@, words as nat));
                assert(z@ == values@[3 * g + 2]@ && rectangular(z@, words as nat));
                let m = 15 * g + k;
                assert(m / 15 == g && m % 15 == k);
            }
            lhs.push(xor_vec(x[k].as_slice(), z[k].as_slice()));
            rhs.push(xor_vec(y[k].as_slice(), z[k].as_slice()));
            k += 1;
        }
        g += 1;
    }
    (lhs, rhs)
}

/// Whether every row has the same length.
fn all_as_long<S>(rows: &[Vec<S>], width: usize) -> (r: bool)
    ensures
        r == rectangular(rows@, width as nat),
{
    let mut i: usize = 0;
    while i < rows.len()
        invariant
            i <= rows@.len(),
            forall|j: int| 0 <= j < i ==> (#[trigger] rows@[j])@.len() == width,
        decreases rows@.len() - i,
    {
        if rows[i].len() != width {
            return false;
        }
        i += 1;
    }
    true
}

/// The sum of one group.
fn fa_sum<S: XorShare>(x: &Vec<Vec<S>>, y: &Vec<Vec<S>>, z: &Vec<Vec<S>>, words: usize) -> (r: Vec<
    Vec<S>,
>)
    requires
        x@.len() == 16,
        y@.len() == 16,
        z@.len() == 16,
        rectangular(x@, words as nat),
        rectangular(y@, words as nat),
        rectangular(z@, words as nat),
    ensures
        is_sum(x@, y@, z@, r@),
        rectangular(r@, words as nat),
{
    let mut out: Vec<Vec<S>> = Vec::new();
    let mut k: usize = 0;
    while k < 16
        invariant
            x@.len() == 16,
            y@.len() == 16,
            z@.len() == 16,
            rectangular(x@, words as nat),
            rectangular(y@, words as nat),
            rectangular(z@, words as nat),
            k <= 16,
            out@.len() == k,
            rectangular(out@, words as nat),
            forall|i: int|
                0 <= i < k ==> (#[trigger] out@[i])@ == xor_seq(
                    xor_seq(x@[i]@, y@[i]@),
                    z@[i]@,
                ),
        decreases 16 - k,
    {
        let xy: Vec<S> = xor_vec(x[k].as_slice(), y[k].as_slice());
        out.push(xor_vec(xy.as_slice(), z[k].as_slice()));
        k += 1;
    }
    out
}

/// The carry of one group.
fn fa_carry<S: XorShare>(z: &Vec<Vec<S>>, products: &[Vec<S>], base: usize, words: usize) -> (r: Vec<
    Vec<S>,
>)
    requires
        z@.len() == 16,
        rectangular(z@, words as nat),
        rectangular(products@, words as nat),
        base + 15 <= products@.len(),
    ensures
        is_carry(z@, products@, base as int, words as nat, r@),
        rectangular(r@, words as nat),
{
    let mut zeros: Vec<S> = Vec::new();
    let mut w: usize = 0;
    while w < words
        invariant
            w <= words,
            zeros@ == Seq::new(w as nat, |v: int| S::nil_of()),
        decreases words - w,
    {
        zeros.push(S::nil());
        assert(zeros@ =~= Seq::new((w + 1) as nat, |v: int| S::nil_of()));
        w += 1;
    }
    let mut out: Vec<Vec<S>> = Vec::new();
    out.push(zeros);
    let total: usize = products.len();
    let mut k: usize = 1;
    while k < 16
        invariant
            z@.len() == 16,
            total == products@.len(),
            rectangular(z@, words as nat),
            rectangular(products@, words as nat),
            base + 15 <= total,
            1 <= k <= 16,
            out@.len() == k,
            out@[0]@ == Seq::new(words as nat, |v: int| S::nil_of()),
            rectangular(out@, words as nat),
            forall|i: int|
                1 <= i < k ==> (#[trigger] out@[i])@ == xor_seq(
                    products@[base + i - 1]@,
                    z@[i - 1]@,
                ),
        decreases 16 - k,
    {
        out.push(xor_vec(products[base + (k - 1)].as_slice(), z[k - 1].as_slice()));
        k += 1;
    }
    out
}

/// The values after a layer of full adders.
fn fa_layer<S: XorShare>(values: Vec<Vec<Vec<S>>>, products: &[Vec<S>], words: usize) -> (r: Vec<
    Vec<Vec<S>>,
>)
    requires
        shaped(values@, words as nat),
        rectangular(products@, words as nat),
        products@.len() == 15 * (values@.len() / 3),
    ensures
        fa_values(values@, values@.len() / 3, products@, words as nat, r@),
        shaped(r@, words as nat),
{
    let mut values: Vec<Vec<Vec<S>>> = values;
    let ghost before = values@;
    let groups: usize = values.len() / 3;
    let total: usize = products.len();
    let mut next: Vec<Vec<Vec<S>>> = Vec::new();
    let mut g: usize = 0;
    while g < groups
        invariant
            values@ == before,
            shaped(before, words as nat),
            groups == before.len() / 3,
            total == products@.len(),
            total == 15 * groups,
            rectangular(products@, words as nat),
            g <= groups,
            next@.len() == 2 * g,
            shaped(next@, words as nat),
            forall|j: int|
                0 <= j < next@.len() ==> fa_value(
                    before,
                    groups as nat,
                    products@,
                    words as nat,
                    j,
                    #[trigger] next@[j],
                ),
        decreases groups - g,
    {
        let (x, y, z): (&Vec<Vec<S>>, &Vec<Vec<S>>, &Vec<Vec<S>>) = (
            &values[3 * g],
            &values[3 * g + 1],
            &values[3 * g + 2],
        );
        proof {
            assert(x@ == before[3 * g as int]@ && rectangular(x@, words as nat));
            assert(y@ == before[3 * g + 1]@ && rectangular(y@, words as nat));
            assert(z@ == before[3 * g + 2]@ && rectangular(z@, words as nat));
            assert((2 * g) / 2 == g && (2 * g + 1) / 2 == g);
        }
        let sum: Vec<Vec<S>> = fa_sum(x, y, z, words);
        let carry: Vec<Vec<S>> = fa_carry(z, products, 15 * g, words);
        next.push(sum);
        next.push(carry);
        g += 1;
    }
    let mut rest: Vec<Vec<Vec<S>>> = values.split_off(3 * groups);
    let ghost left = rest@;
    let ghost made = next@;
    next.append(&mut rest);
    proof {
        assert forall|j: int| 0 <= j < next@.len() implies fa_value(
            before,
            groups as nat,
            products@,
            words as nat,
            j,
            #[trigger] next@[j],
        ) && next@[j]@.len() == 16 && rectangular(next@[j]@, words as nat) by {
            if j < made.len() {
                assert(next@[j] == made[j]);
            } else {
                assert(next@[j] == left[j - made.len()]);
                assert(left[j - made.len()] == before[j + groups]);
            }
        }
    }
    next
}

/// The extraction of the top bit of a sum of shared values. Layers of full adders reduce the
/// values to two, which a carry chain then adds. Each step is a round of bitwise ands.
#[derive(Debug)]
pub struct MsbExtraction<S> {
    pub words: usize,
    pub values: Vec<Vec<Vec<S>>>,
    pub chain: Option<CarryChain<S>>,
}

impl<S: XorShare> MsbExtraction<S> {
    /// Either at least three values are left, or a chain is on its way to the top place.
    pub open spec fn wf(self) -> bool {
        match self.chain {
            None => self.values@.len() >= 3 && shaped(self.values@, self.words as nat),
            Some(chain) => {
                &&& chain.wf()
                &&& chain.u@.len() == 16
                &&& chain.carry@.len() == self.words
                &&& 1 <= chain.at <= 15
            },
        }
    }

    /// All rounds are over.
    pub open spec fn done(self) -> bool {
        self.chain is Some && self.chain->0.at == 15
    }

    /// Starts with the given values, of which there have to be at least three.
    pub fn start(values: Vec<Vec<Vec<S>>>, words: usize) -> (r: Result<
        MsbExtraction<S>,
        ProtocolError,
    >)
        requires
            shaped(values@, words as nat),
        ensures
            if values@.len() < 3 {
                r == Err::<MsbExtraction<S>, ProtocolError>(ProtocolError::TooFewInputs)
            } else {
                &&& r == Ok::<MsbExtraction<S>, ProtocolError>(
                    MsbExtraction { words, values, chain: None },
                )
                &&& r->Ok_0.wf()
            },
    {
        if values.len() < 3 {
            return Err(ProtocolError::TooFewInputs);
        }
        Ok(MsbExtraction { words, values, chain: None })
    }

    /// Whether the given planes are the operands of the next round.
    pub open spec fn asks(self, lhs: Seq<Vec<S>>, rhs: Seq<Vec<S>>) -> bool {
        &&& rectangular(lhs, self.words as nat)
        &&& rectangular(rhs, self.words as nat)
        &&& match self.chain {
            None => fa_operands(self.values@, self.values@.len() / 3, lhs, rhs),
            Some(chain) => {
                &&& lhs.len() == 1
                &&& rhs.len() == 1
                &&& lhs[0]@ == xor_seq(chain.u@[chain.at as int]@, chain.carry@)
                &&& rhs[0]@ == xor_seq(chain.v@[chain.at as int]@, chain.carry@)
            },
        }
    }

    /// How many planes the next round multiplies.
    pub open spec fn round_planes(self) -> nat {
        match self.chain {
            None => 15 * (self.values@.len() / 3),
            Some(chain) => 1,
        }
    }

    /// The operands of the next round, plane by plane, unless all rounds are over.
    pub fn request(&self) -> (r: Option<(Vec<Vec<S>>, Vec<Vec<S>>)>)
        requires
            self.wf(),
        ensures
            (r is None) == self.done(),
            r is Some ==> self.asks((r->0).0@, (r->0).1@),
    {
        match &self.chain {
            None => Some(fa_request(self.values.as_slice(), self.words)),
            Some(chain) => {
                if chain.at == 15 {
                    return None;
                }
                proof {
                    assert(chain.u@[chain.at as int]@.len() == self.words);
                    assert(chain.v@[chain.at as int]@.len() == self.words);
                }
                let mut lhs: Vec<Vec<S>> = Vec::new();
                let mut rhs: Vec<Vec<S>> = Vec::new();
                if let Some((a, b)) = chain.request() {
                    lhs.push(a);
                    rhs.push(b);
                }
                Some((lhs, rhs))
            },
        }
    }

    /// Takes the products of a round, plane by plane.
    pub fn absorb(&mut self, products: &[Vec<S>]) -> (r: Result<(), ProtocolError>)
        requires
            old(self).wf(),
            !old(self).done(),
        ensures
            final(self).wf(),
            final(self).words == old(self).words,
            if products@.len() != old(self).round_planes() || !rectangular(
                products@,
                old(self).words as nat,
            ) {
                &&& r == Err::<(), ProtocolError>(ProtocolError::LengthMismatch)
                &&& *final(self) == *old(self)
            } else {
                &&& r == Ok::<(), ProtocolError>(())
                &&& old(self).advances(products@, *final(self))
            },
    {
        if !all_as_long(products, self.words) {
            return Err(ProtocolError::LengthMismatch);
        }
        if let Some(chain) = &mut self.chain {
            if products.len() != 1 {
                return Err(ProtocolError::LengthMismatch);
            }
            assert(products@[0]@.len() == old(self).words);
            return chain.absorb(products[0].as_slice());
        }
        let groups: usize = self.values.len() / 3;
        if products.len() % 15 != 0 || products.len() / 15 != groups {
            return Err(ProtocolError::LengthMismatch);
        }
        let mut values: Vec<Vec<Vec<S>>> = Vec::new();
        values.append(&mut self.values);
        assert(values@ =~= old(self).values@);
        let mut next: Vec<Vec<Vec<S>>> = fa_layer(values, products, self.words);
        if next.len() == 2 {
            let ghost both = next@;
            if let Some(v) = next.pop() {
                if let Some(u) = next.pop() {
                    assert(u == both[0] && v == both[1]);
                    self.chain = Some(CarryChain::start(u, v, 1, self.words));
                }
            }
        } else {
            self.values = next;
        }
        Ok(())
    }

    /// What the products of a round make of the extraction.
    pub open spec fn advances(self, products: Seq<Vec<S>>, after: MsbExtraction<S>) -> bool {
        match self.chain {
            None => {
                let groups = self.values@.len() / 3;
                if self.values@.len() - groups > 2 {
                    &&& after.chain is None
                    &&& fa_values(
                        self.values@,
                        groups,
                        products,
                        self.words as nat,
                        after.values@,
                    )
                } else {
                    &&& after.chain matches Some(chain)
                    &&& chain.at == 1
                    &&& chain.carry@ == Seq::new(self.words as nat, |w: int| S::nil_of())
                    &&& fa_values(
                        self.values@,
                        groups,
                        products,
                        self.words as nat,
                        seq![chain.u, chain.v],
                    )
                }
            },
            Some(chain) => {
                &&& after.chain matches Some(moved)
                &&& moved.u == chain.u
                &&& moved.v == chain.v
                &&& moved.at == chain.at + 1
                &&& moved.carry@ == xor_seq(chain.carry@, products[0]@)
            },
        }
    }

    /// The top bit of the sum, once all rounds are over.
    pub fn result(&self) -> (r: Vec<S>)
        requires
            self.wf(),
            self.done(),
        ensures
            ({
                let chain = self.chain->0;
                r@ == xor_seq(xor_seq(chain.u@[15]@, chain.v@[15]@), chain.carry@)
            }),
    {
        match &self.chain {
            Some(chain) => chain.sum_at(15),
            None => Vec::new(),
        }
    }
}

} // verus!
