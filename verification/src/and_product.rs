//! The conjunction of several shared bit vectors.
//!
//! Every round combines the vectors of the first half with those of the second half, so that a
//! logarithmic number of rounds is left with one vector.

use crate::bit_slice::{holds_shares, lane, pack_shares, unpack_shares};
use crate::matrix::rectangular;
use crate::message::ProtocolError;
use crate::planes::{flat, flatten};
use crate::shares::Share;
use vstd::prelude::*;

verus! {

/// The vectors that are left to combine, all of length `len`.
#[derive(Debug)]
pub struct AndProduct {
    pub columns: Vec<Vec<Share<bool>>>,
    pub len: usize,
}

impl AndProduct {
    /// There is at least one vector, and all have the same length.
    pub open spec fn wf(self) -> bool {
        &&& self.columns@.len() >= 1
        &&& rectangular(self.columns@, self.len as nat)
    }

    /// The vectors of the first half of a round.
    pub open spec fn left(self) -> Seq<Vec<Share<bool>>> {
        self.columns@.subrange(0, self.columns@.len() as int / 2)
    }

    /// The vectors of the second half of a round.
    pub open spec fn right(self) -> Seq<Vec<Share<bool>>> {
        let half = self.columns@.len() as int / 2;
        self.columns@.subrange(half, 2 * half)
    }

    /// Whether the given words are the operands of the next round.
    pub open spec fn asks(self, lhs: Seq<Share<u64>>, rhs: Seq<Share<u64>>) -> bool {
        let half = self.columns@.len() as int / 2;
        &&& holds_shares(lhs, flat(self.left(), half as nat))
        &&& holds_shares(rhs, flat(self.right(), half as nat))
    }

    /// What the result of a round makes of the vectors.
    pub open spec fn advances(self, words: Seq<Share<u64>>, after: AndProduct) -> bool {
        let n = self.columns@.len() as int;
        let half = n / 2;
        let total = flat(self.left(), half as nat).len();
        &&& after.wf()
        &&& after.len == self.len
        &&& after.columns@.len() == half + n % 2
        &&& flat(after.columns@, half as nat) == Seq::new(total, |i: int| lane(words, i))
        &&& n % 2 == 1 ==> after.columns@.last() == self.columns@.last()
    }

    /// Starts with the given vectors, which must have length `len`.
    pub fn new(columns: Vec<Vec<Share<bool>>>, len: usize) -> (r: Result<AndProduct, ProtocolError>)
        ensures
            if columns@.len() == 0 {
                r == Err::<AndProduct, ProtocolError>(ProtocolError::EmptyInput)
            } else if !rectangular(columns@, len as nat) {
                r == Err::<AndProduct, ProtocolError>(ProtocolError::LengthMismatch)
            } else {
                r == Ok::<AndProduct, ProtocolError>(AndProduct { columns, len })
            },
            (r is Ok) == (columns@.len() > 0 && forall|i: int|
                0 <= i < columns@.len() ==> (#[trigger] columns@[i])@.len() == len),
    {
        if columns.len() == 0 {
            return Err(ProtocolError::EmptyInput);
        }
        let mut i: usize = 0;
        while i < columns.len()
            invariant
                i <= columns@.len(),
                forall|j: int| 0 <= j < i ==> (#[trigger] columns@[j])@.len() == len,
            decreases columns@.len() - i,
        {
            if columns[i].len() != len {
                return Err(ProtocolError::LengthMismatch);
            }
            i += 1;
        }
        Ok(AndProduct { columns, len })
    }

    /// The operands of the next round as packed words, if more than one vector is left.
    pub fn request(&self) -> (r: Option<(Vec<Share<u64>>, Vec<Share<u64>>)>)
        requires
            self.wf(),
        ensures
            self.columns@.len() == 1 ==> r is None,
            self.columns@.len() > 1 ==> r is Some && self.asks((r->0).0@, (r->0).1@),
    {
        let n: usize = self.columns.len();
        if n == 1 {
            return None;
        }
        let half: usize = n / 2;
        let left: Vec<Share<bool>> = flatten(vstd::slice::slice_subrange(
            self.columns.as_slice(),
            0,
            half,
        ));
        let right: Vec<Share<bool>> = flatten(vstd::slice::slice_subrange(
            self.columns.as_slice(),
            half,
            2 * half,
        ));
        Some((pack_shares(left.as_slice()), pack_shares(right.as_slice())))
    }

    /// Takes the result of a round: the combined vectors, followed by one that had no partner.
    pub fn absorb(self, words: &[Share<u64>]) -> (r: Result<AndProduct, ProtocolError>)
        requires
            self.wf(),
            self.columns@.len() > 1,
        ensures
            ({
                let half = self.columns@.len() as int / 2;
                if flat(self.left(), half as nat).len() > 64 * words@.len() {
                    r == Err::<AndProduct, ProtocolError>(ProtocolError::LengthMismatch)
                } else {
                    r is Ok && self.advances(words@, r->Ok_0)
                }
            }),
    {
        let n: usize = self.columns.len();
        let half: usize = n / 2;
        let len: usize = self.len;
        let left: Vec<Share<bool>> = flatten(vstd::slice::slice_subrange(
            self.columns.as_slice(),
            0,
            half,
        ));
        let total: usize = left.len();
        let bits: Vec<Share<bool>> = unpack_shares(words, total);
        if bits.len() != total {
            return Err(ProtocolError::LengthMismatch);
        }
        proof {
            lemma_flat_total(self.left(), half as nat, len as nat);
        }
        let ghost before = self.columns@;
        let mut out: Vec<Vec<Share<bool>>> = Vec::new();
        let mut offset: usize = 0;
        let mut i: usize = 0;
        while i < half
            invariant
                half == before.len() as int / 2,
                bits@.len() == total,
                total == half * len,
                offset == i * len,
                i <= half,
                out@.len() == i,
                rectangular(out@, len as nat),
                flat(out@, i as nat) == bits@.subrange(0, offset as int),
            decreases half - i,
        {
            assert(offset + len <= total) by (nonlinear_arith)
                requires
                    offset == i * len,
                    total == half * len,
                    i < half,
            ;
            assert((i + 1) * len == i * len + len) by (nonlinear_arith);
            let ghost made = out@;
            let mut column: Vec<Share<bool>> = Vec::new();
            let mut k: usize = 0;
            while k < len
                invariant
                    k <= len,
                    bits@.len() == total,
                    offset + len <= total,
                    column@ == bits@.subrange(offset as int, offset + k),
                decreases len - k,
            {
                column.push(bits[offset + k]);
                assert(column@ =~= bits@.subrange(offset as int, offset + k + 1));
                k += 1;
            }
            out.push(column);
            proof {
                crate::planes::lemma_flat_prefix(made, out@, i as nat);
                assert(bits@.subrange(0, offset as int) + bits@.subrange(
                    offset as int,
                    offset + len,
                ) =~= bits@.subrange(0, offset + len));
            }
            offset += len;
            i += 1;
        }
        assert(bits@.subrange(0, offset as int) =~= bits@);
        let ghost made = out@;
        if n % 2 == 1 {
            let mut columns = self.columns;
            if let Some(last) = columns.pop() {
                assert(before[n - 1]@.len() == len);
                out.push(last);
            }
        }
        proof {
            crate::planes::lemma_flat_prefix(made, out@, half as nat);
        }
        Ok(AndProduct { columns: out, len })
    }

    /// The conjunction, when one vector is left.
    pub fn finish(self) -> (r: Vec<Share<bool>>)
        requires
            self.wf(),
            self.columns@.len() == 1,
        ensures
            r == self.columns@[0],
    {
        let mut columns = self.columns;
        match columns.pop() {
            Some(v) => v,
            None => Vec::new(),
        }
    }
}

proof fn lemma_flat_total<A>(x: Seq<Vec<A>>, n: nat, len: nat)
    requires
        n <= x.len(),
        rectangular(x, len),
    ensures
        flat(x, n).len() == n * len,
    decreases n,
{
    if n > 0 {
        lemma_flat_total(x, (n - 1) as nat, len);
        assert(x[n - 1]@.len() == len);
        assert(n * len == (n - 1) * len + len) by (nonlinear_arith);
    } else {
        assert(n * len == 0) by (nonlinear_arith)
            requires
                n == 0,
        ;
    }
}

/// The bits at one place after a round.
pub open spec fn combined_bits(bits: Seq<bool>) -> Seq<bool> {
    let half = bits.len() as int / 2;
    Seq::new(
        (half + bits.len() as int % 2) as nat,
        |i: int|
            if i < half {
                bits[i] && bits[half + i]
            } else {
                bits.last()
            },
    )
}

/// All bits are set.
pub open spec fn all_set(bits: Seq<bool>) -> bool {
    forall|i: int| 0 <= i < bits.len() ==> bits[i]
}

/// A round keeps the conjunction of the bits at every place.
pub proof fn lemma_round_keeps_product(bits: Seq<bool>)
    requires
        bits.len() >= 1,
    ensures
        all_set(combined_bits(bits)) == all_set(bits),
{
    let half = bits.len() as int / 2;
    let c = combined_bits(bits);
    if all_set(c) {
        assert forall|i: int| 0 <= i < bits.len() implies bits[i] by {
            if i < half {
                assert(c[i]);
            } else if i < 2 * half {
                assert(c[i - half]);
            } else {
                assert(c[half]);
            }
        }
    }
}

} // verus!
