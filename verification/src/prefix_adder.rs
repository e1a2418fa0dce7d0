//! Parallel prefix adder for the most significant bit of a sum.
//!
//! Place `i` generates a carry if both bits are set and propagates one if they differ. Two
//! neighbouring runs of places combine to one: it propagates if both do, and generates if the
//! upper one does, or the lower one does and the upper one propagates. Every round combines
//! neighbours until one run is left, whose carry goes into the most significant place.

use crate::adders::carry_into;
use crate::matrix::rectangular;
use crate::message::ProtocolError;
use crate::planes::{same_shape, shapes_agree, transposed_pack_xor, xor_seq, xor_vec};
use crate::shares::XorShare;
use vstd::prelude::*;

verus! {

/// A copy of some planes of a vector.
fn copy_planes<S: Copy>(x: &[Vec<S>], from: usize, to: usize) -> (r: Vec<Vec<S>>)
    requires
        from <= to <= x@.len(),
    ensures
        r@.len() == to - from,
        forall|i: int| 0 <= i < r@.len() ==> (#[trigger] r@[i])@ == x@[from + i]@,
{
    let mut out: Vec<Vec<S>> = Vec::new();
    let mut i: usize = from;
    while i < to
        invariant
            from <= i <= to <= x@.len(),
            out@.len() == i - from,
            forall|j: int| 0 <= j < out@.len() ==> (#[trigger] out@[j])@ == x@[from + j]@,
        decreases to - i,
    {
        out.push(vstd::slice::slice_to_vec(x[i].as_slice()));
        i += 1;
    }
    out
}

/// First round of adding two numbers given as bit planes: the operands are all planes but the
/// top ones.
pub fn add2_request<S: XorShare>(x1: &[Vec<S>], x2: &[Vec<S>]) -> (r: Result<
    (Vec<Vec<S>>, Vec<Vec<S>>),
    ProtocolError,
>)
    ensures
        if !same_shape(x1@, x2@) {
            r == Err::<(Vec<Vec<S>>, Vec<Vec<S>>), ProtocolError>(ProtocolError::LengthMismatch)
        } else if x1@.len() < 2 {
            r == Err::<(Vec<Vec<S>>, Vec<Vec<S>>), ProtocolError>(ProtocolError::TooFewBits)
        } else {
            &&& r is Ok
            &&& r->Ok_0.0@.len() == x1@.len() - 1
            &&& r->Ok_0.1@.len() == x1@.len() - 1
            &&& forall|i: int|
                0 <= i < x1@.len() - 1 ==> (#[trigger] r->Ok_0.0@[i])@ == x1@[i]@
            &&& forall|i: int|
                0 <= i < x1@.len() - 1 ==> (#[trigger] r->Ok_0.1@[i])@ == x2@[i]@
        },
{
    if !shapes_agree(x1, x2) {
        return Err(ProtocolError::LengthMismatch);
    }
    if x1.len() < 2 {
        return Err(ProtocolError::TooFewBits);
    }
    Ok((copy_planes(x1, 0, x1.len() - 1), copy_planes(x2, 0, x2.len() - 1)))
}

/// The runs of places that are left: run `i` generates `g[i]`, and run `i + 1` propagates `p[i]`.
/// `top` is the exclusive or of the most significant bits.
#[derive(Debug)]
pub struct PrefixAdder<S> {
    pub p: Vec<Vec<S>>,
    pub g: Vec<Vec<S>>,
    pub top: Vec<S>,
}

impl<S: XorShare> PrefixAdder<S> {
    /// All planes have as many words as the top one, and there is at least one run.
    pub open spec fn wf(self) -> bool {
        &&& self.g@.len() >= 1
        &&& self.p@.len() + 1 == self.g@.len()
        &&& rectangular(self.p@, self.top@.len())
        &&& rectangular(self.g@, self.top@.len())
    }

    /// Takes the result of the first round, the planes that generate a carry.
    pub fn start(x1: &[Vec<S>], x2: &[Vec<S>], products: Vec<Vec<S>>, words: usize) -> (r: Result<
        PrefixAdder<S>,
        ProtocolError,
    >)
        requires
            same_shape(x1@, x2@),
            x1@.len() >= 2,
            rectangular(x1@, words as nat),
        ensures
            if products@.len() == x1@.len() - 1 && rectangular(products@, words as nat) {
                r is Ok && started(x1@, x2@, products@, r->Ok_0)
            } else {
                r == Err::<PrefixAdder<S>, ProtocolError>(ProtocolError::LengthMismatch)
            },
            r is Ok ==> {
                let a = r->Ok_0;
                &&& a.g@ == products@ && a.p@.len() == x1@.len() - 2
                &&& a.top@ == xor_seq(x1@.last()@, x2@.last()@)
                &&& forall|j: int|
                    0 <= j < x1@.len() - 2 ==> (#[trigger] a.p@[j])@ == xor_seq(
                        x1@[j + 1]@,
                        x2@[j + 1]@,
                    )
            },
    {
        let n: usize = x1.len();
        if products.len() != n - 1 {
            return Err(ProtocolError::LengthMismatch);
        }
        let mut i: usize = 0;
        while i < products.len()
            invariant
                i <= products@.len(),
                forall|j: int| 0 <= j < i ==> (#[trigger] products@[j])@.len() == words,
            decreases products@.len() - i,
        {
            if products[i].len() != words {
                return Err(ProtocolError::LengthMismatch);
            }
            i += 1;
        }
        let mut all: Vec<Vec<S>> = transposed_pack_xor(x1, x2);
        let p: Vec<Vec<S>> = copy_planes(all.as_slice(), 1, n - 1);
        let top: Vec<S> = vstd::slice::slice_to_vec(all[n - 1].as_slice());
        proof {
            assert(x1@[n - 1]@.len() == words);
            assert(all@[n - 1]@ == xor_seq(x1@[n - 1]@, x2@[n - 1]@));
            assert forall|i: int| 0 <= i < p@.len() implies (#[trigger] p@[i])@.len() == words by {
                assert(all@[i + 1]@.len() == x1@[i + 1]@.len());
                assert(x1@[i + 1]@.len() == words);
            }
        }
        Ok(PrefixAdder { p, g: products, top })
    }

    /// The operands of the next round, if more than one run is left: those for the propagating
    /// planes of the new runs, then those for the generating ones.
    pub fn request(&self) -> (r: Option<(Vec<Vec<S>>, Vec<Vec<S>>)>)
        requires
            self.wf(),
        ensures
            self.g@.len() == 1 ==> r is None,
            self.g@.len() > 1 ==> r is Some && asked(*self, (r->0).0@, (r->0).1@),
            r is Some ==> {
                let (lhs, rhs) = ((r->0).0@, (r->0).1@);
                let half = self.g@.len() as int / 2;
                &&& lhs.len() == 2 * half - 1 && rhs.len() == 2 * half - 1
                &&& forall|j: int|
                    0 <= j < half - 1 ==> (#[trigger] lhs[j])@ == self.p@[2 * j + 1]@ && rhs[j]@
                        == self.p@[2 * j + 2]@
                &&& forall|j: int|
                    half - 1 <= j < 2 * half - 1 ==> (#[trigger] lhs[j])@ == self.g@[2 * (j - (half
                        - 1))]@ && rhs[j]@ == self.p@[2 * (j - (half - 1))]@
            },
    {
        if self.g.len() == 1 {
            return None;
        }
        let runs: usize = self.g.len();
        let half: usize = runs / 2;
        let mut lhs: Vec<Vec<S>> = Vec::new();
        let mut rhs: Vec<Vec<S>> = Vec::new();
        let mut j: usize = 0;
        while j < half - 1
            invariant
                self.wf(),
                runs == self.g@.len(),
                half == runs / 2,
                half >= 1,
                j <= half - 1,
                lhs@.len() == j,
                rhs@.len() == j,
                forall|k: int| 0 <= k < j ==> (#[trigger] lhs@[k])@ == self.p@[2 * k + 1]@,
                forall|k: int| 0 <= k < j ==> (#[trigger] rhs@[k])@ == self.p@[2 * k + 2]@,
            decreases half - 1 - j,
        {
            lhs.push(vstd::slice::slice_to_vec(self.p[2 * j + 1].as_slice()));
            rhs.push(vstd::slice::slice_to_vec(self.p[2 * j + 2].as_slice()));
            j += 1;
        }
        let mut j: usize = 0;
        while j < half
            invariant
                self.wf(),
                runs == self.g@.len(),
                half == runs / 2,
                half >= 1,
                j <= half,
                lhs@.len() == half - 1 + j,
                rhs@.len() == half - 1 + j,
                forall|k: int| 0 <= k < half - 1 ==> (#[trigger] lhs@[k])@ == self.p@[2 * k + 1]@,
                forall|k: int| 0 <= k < half - 1 ==> (#[trigger] rhs@[k])@ == self.p@[2 * k + 2]@,
                forall|k: int|
                    half - 1 <= k < half - 1 + j ==> (#[trigger] lhs@[k])@ == self.g@[2 * (k - (half
                        - 1))]@,
                forall|k: int|
                    half - 1 <= k < half - 1 + j ==> (#[trigger] rhs@[k])@ == self.p@[2 * (k - (half
                        - 1))]@,
            decreases half - j,
        {
            lhs.push(vstd::slice::slice_to_vec(self.g[2 * j].as_slice()));
            rhs.push(vstd::slice::slice_to_vec(self.p[2 * j].as_slice()));
            j += 1;
        }
        Some((lhs, rhs))
    }

    /// Takes the result of a round: neighbouring runs are combined, and a run without a neighbour
    /// stays.
    pub fn absorb(self, products: &[Vec<S>]) -> (r: Result<PrefixAdder<S>, ProtocolError>)
        requires
            self.wf(),
            self.g@.len() > 1,
        ensures
            ({
                let runs = self.g@.len() as int;
                let half = runs / 2;
                if products@.len() == 2 * half - 1 && rectangular(products@, self.top@.len()) {
                    &&& r is Ok
                    &&& combined_runs(self, products@, r->Ok_0)
                } else {
                    r == Err::<PrefixAdder<S>, ProtocolError>(ProtocolError::LengthMismatch)
                }
            }),
            r is Ok ==> {
                let (runs, after) = (self.g@.len() as int, r->Ok_0);
                let half = runs / 2;
                &&& after.top == self.top && after.g@.len() == half + runs % 2
                &&& forall|j: int|
                    0 <= j < half ==> (#[trigger] after.g@[j])@ == xor_seq(
                        products@[half - 1 + j]@,
                        self.g@[2 * j + 1]@,
                    )
                &&& forall|j: int| 0 <= j < half - 1 ==> (#[trigger] after.p@[j])@ == products@[j]@
                &&& runs % 2 == 1 ==> after.g@[half]@ == self.g@[runs - 1]@ && after.p@[half - 1]@
                    == self.p@[runs - 2]@
            },
    {
        let runs: usize = self.g.len();
        let half: usize = runs / 2;
        let words: usize = self.top.len();
        if products.len() != 2 * half - 1 {
            return Err(ProtocolError::LengthMismatch);
        }
        let mut i: usize = 0;
        while i < products.len()
            invariant
                i <= products@.len(),
                words == self.top@.len(),
                forall|j: int| 0 <= j < i ==> (#[trigger] products@[j])@.len() == words,
            decreases products@.len() - i,
        {
            if products[i].len() != words {
                return Err(ProtocolError::LengthMismatch);
            }
            i += 1;
        }
        let mut p: Vec<Vec<S>> = copy_planes(products, 0, half - 1);
        let mut g: Vec<Vec<S>> = Vec::new();
        let mut j: usize = 0;
        while j < half
            invariant
                self.wf(),
                runs == self.g@.len(),
                half == runs / 2,
                half >= 1,
                words == self.top@.len(),
                products@.len() == 2 * half - 1,
                rectangular(products@, words as nat),
                j <= half,
                g@.len() == j,
                rectangular(g@, words as nat),
                forall|k: int|
                    0 <= k < j ==> (#[trigger] g@[k])@ == xor_seq(
                        products@[half - 1 + k]@,
                        self.g@[2 * k + 1]@,
                    ),
            decreases half - j,
        {
            assert(products@[half - 1 + j]@.len() == words);
            assert(self.g@[2 * j + 1]@.len() == words);
            g.push(xor_vec(products[half - 1 + j].as_slice(), self.g[2 * j + 1].as_slice()));
            j += 1;
        }
        if runs % 2 == 1 {
            assert(self.p@[runs - 2]@.len() == words);
            assert(self.g@[runs - 1]@.len() == words);
            p.push(vstd::slice::slice_to_vec(self.p[runs - 2].as_slice()));
            g.push(vstd::slice::slice_to_vec(self.g[runs - 1].as_slice()));
        }
        assert forall|i: int| 0 <= i < p@.len() implies (#[trigger] p@[i])@.len() == words by {
            if i < half - 1 {
                assert(p@[i]@ == products@[i]@);
            }
        }
        Ok(PrefixAdder { p, g, top: self.top })
    }

    /// The most significant bit of the sum, when one run is left.
    pub fn finish(self) -> (r: Vec<S>)
        requires
            self.wf(),
        ensures
            r@ == xor_seq(self.top@, self.g@[0]@),
    {
        assert(self.g@[0]@.len() == self.top@.len());
        xor_vec(self.top.as_slice(), self.g[0].as_slice())
    }
}

/// What the adder of a party is made of after the first round.
pub open spec fn started<S: XorShare>(
    x1: Seq<Vec<S>>,
    x2: Seq<Vec<S>>,
    products: Seq<Vec<S>>,
    a: PrefixAdder<S>,
) -> bool {
    &&& a.wf()
    &&& a.g@ == products
    &&& a.top@ == xor_seq(x1.last()@, x2.last()@)
    &&& forall|j: int|
        0 <= j < x1.len() - 2 ==> (#[trigger] a.p@[j])@ == xor_seq(x1[j + 1]@, x2[j + 1]@)
}

/// The operands that an adder asks for.
pub open spec fn asked<S: XorShare>(
    a: PrefixAdder<S>,
    lhs: Seq<Vec<S>>,
    rhs: Seq<Vec<S>>,
) -> bool {
    let half = a.g@.len() as int / 2;
    &&& lhs.len() == 2 * half - 1
    &&& rhs.len() == 2 * half - 1
    &&& forall|j: int| 0 <= j < half - 1 ==> (#[trigger] lhs[j])@ == a.p@[2 * j + 1]@
    &&& forall|j: int|
        half - 1 <= j < 2 * half - 1 ==> (#[trigger] lhs[j])@ == a.g@[2 * (j - (half - 1))]@
    &&& forall|j: int| 0 <= j < half - 1 ==> (#[trigger] rhs[j])@ == a.p@[2 * j + 2]@
    &&& forall|j: int|
        half - 1 <= j < 2 * half - 1 ==> (#[trigger] rhs[j])@ == a.p@[2 * (j - (half - 1))]@
}

/// The runs after a round.
pub open spec fn combined_runs<S: XorShare>(
    before: PrefixAdder<S>,
    products: Seq<Vec<S>>,
    after: PrefixAdder<S>,
) -> bool {
    let runs = before.g@.len() as int;
    let half = runs / 2;
    &&& after.wf()
    &&& after.top == before.top
    &&& after.g@.len() == half + runs % 2
    &&& forall|j: int|
        0 <= j < half ==> (#[trigger] after.g@[j])@ == xor_seq(
            products[half - 1 + j]@,
            before.g@[2 * j + 1]@,
        )
    &&& forall|j: int| 0 <= j < half - 1 ==> (#[trigger] after.p@[j])@ == products[j]@
    &&& runs % 2 == 1 ==> after.g@[half]@ == before.g@[runs - 1]@ && after.p@[half - 1]@
        == before.p@[runs - 2]@
}

/// The carry out of the first `k + 1` runs.
pub open spec fn run_carry(g: Seq<bool>, p: Seq<bool>, k: nat) -> bool
    decreases k,
{
    if k == 0 {
        g[0]
    } else {
        g[k as int] != (p[k - 1] && run_carry(g, p, (k - 1) as nat))
    }
}

/// The generated carries of the runs after a round.
pub open spec fn next_g(g: Seq<bool>, p: Seq<bool>) -> Seq<bool> {
    let half = g.len() as int / 2;
    Seq::new(
        (half + g.len() as int % 2) as nat,
        |j: int|
            if j < half {
                (g[2 * j] && p[2 * j]) != g[2 * j + 1]
            } else {
                g[g.len() - 1]
            },
    )
}

/// The propagating runs after a round.
pub open spec fn next_p(g: Seq<bool>, p: Seq<bool>) -> Seq<bool> {
    let half = g.len() as int / 2;
    Seq::new(
        (half + g.len() as int % 2 - 1) as nat,
        |j: int|
            if j < half - 1 {
                p[2 * j + 1] && p[2 * j + 2]
            } else {
                p[g.len() - 2]
            },
    )
}

/// A round keeps the carry out of all runs.
pub proof fn lemma_round_keeps_carry(g: Seq<bool>, p: Seq<bool>)
    requires
        g.len() >= 2,
        p.len() + 1 == g.len(),
    ensures
        run_carry(next_g(g, p), next_p(g, p), (next_g(g, p).len() - 1) as nat) == run_carry(
            g,
            p,
            (g.len() - 1) as nat,
        ),
{
    let half = g.len() as int / 2;
    lemma_round_prefix(g, p, (half - 1) as nat);
    if g.len() as int % 2 == 1 {
        assert(run_carry(next_g(g, p), next_p(g, p), half as nat) == (g[g.len() - 1] != (p[g.len()
            - 2] && run_carry(next_g(g, p), next_p(g, p), (half - 1) as nat))));
    }
}

proof fn lemma_round_prefix(g: Seq<bool>, p: Seq<bool>, j: nat)
    requires
        g.len() >= 2,
        p.len() + 1 == g.len(),
        j < g.len() as int / 2,
    ensures
        run_carry(next_g(g, p), next_p(g, p), j) == run_carry(g, p, 2 * j + 1),
    decreases j,
{
    reveal_with_fuel(run_carry, 3);
    if j > 0 {
        lemma_round_prefix(g, p, (j - 1) as nat);
    }
}

/// Before the first round the carry out of the first `k + 1` places is that of adding bit by bit.
pub proof fn lemma_runs_start(a: Seq<bool>, b: Seq<bool>, g: Seq<bool>, p: Seq<bool>, k: nat)
    requires
        k < g.len(),
        p.len() + 1 == g.len(),
        g.len() <= a.len(),
        a.len() == b.len(),
        forall|i: int| 0 <= i < g.len() ==> g[i] == (a[i] && b[i]),
        forall|i: int| 0 <= i < p.len() ==> #[trigger] p[i] == (a[i + 1] != b[i + 1]),
    ensures
        run_carry(g, p, k) == carry_into(a, b, 0, k + 1),
    decreases k,
{
    reveal_with_fuel(carry_into, 2);
    if k > 0 {
        lemma_runs_start(a, b, g, p, (k - 1) as nat);
        assert(p[k - 1] == (a[k as int] != b[k as int]));
    }
}

} // verus!
