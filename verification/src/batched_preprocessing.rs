//! Correlated randomness for extracting the most significant bits of a batch.

use crate::matrix::{column, rectangular, transpose};
use crate::msb_offline_randomness::{
    offline_dealt, offline_shares_for_role_additive_3pc, OfflineRandomSharesAdditive3pc,
    OfflineView,
};
use crate::ring::IntRing2k;
use vstd::prelude::*;

verus! {

/// The randomness of one party for a batch. `r_bits` holds one row per bit, most significant bit
/// first, with one entry per element of the batch.
#[derive(Debug)]
pub struct VecOfflineRandomSharesAdditive3pc<T> {
    pub r: Vec<T>,
    pub r_bits: Vec<Vec<bool>>,
    pub b_bit: Vec<T>,
}

impl<T: IntRing2k> VecOfflineRandomSharesAdditive3pc<T> {
    /// The randomness is that of a batch of the given size.
    pub open spec fn wf(self, batch: nat) -> bool {
        &&& self.r@.len() == batch
        &&& self.b_bit@.len() == batch
        &&& self.r_bits@.len() == T::bits()
        &&& rectangular(self.r_bits@, batch)
    }

    /// The randomness for one element of the batch.
    pub open spec fn element(self, j: int) -> OfflineView<T> {
        OfflineView { r: self.r@[j], r_bits: column(self.r_bits@, j), b_bit: self.b_bit@[j] }
    }
}

/// The randomness of one party while it is dealt element by element.
struct Columns<T> {
    r: Vec<T>,
    bits: Vec<Vec<bool>>,
    b_bit: Vec<T>,
}

impl<T: IntRing2k> Columns<T> {
    spec fn wf(self, batch: nat) -> bool {
        &&& self.r@.len() == batch
        &&& self.b_bit@.len() == batch
        &&& self.bits@.len() == batch
        &&& rectangular(self.bits@, T::bits())
    }

    spec fn element(self, j: int) -> OfflineView<T> {
        OfflineView { r: self.r@[j], r_bits: self.bits@[j]@, b_bit: self.b_bit@[j] }
    }

    fn new() -> (r: Columns<T>)
        ensures
            r.wf(0),
    {
        Columns { r: Vec::new(), bits: Vec::new(), b_bit: Vec::new() }
    }

    fn push(&mut self, share: OfflineRandomSharesAdditive3pc<T>)
        requires
            share.r_bits@.len() == T::bits(),
            old(self).wf(old(self).r@.len()),
        ensures
            final(self).wf(old(self).r@.len() + 1),
            final(self).element(old(self).r@.len() as int) == share@,
            forall|j: int|
                0 <= j < old(self).r@.len() ==> #[trigger] final(self).element(j) == old(
                    self,
                ).element(j),
    {
        self.r.push(share.r);
        self.bits.push(share.r_bits);
        self.b_bit.push(share.b_bit);
    }

    fn finish(self) -> (r: VecOfflineRandomSharesAdditive3pc<T>)
        requires
            self.wf(self.r@.len()),
        ensures
            r.wf(self.r@.len()),
            forall|j: int| 0 <= j < self.r@.len() ==> #[trigger] r.element(j) == self.element(j),
    {
        let r_bits: Vec<Vec<bool>> = transpose(self.bits.as_slice(), T::width());
        let out = VecOfflineRandomSharesAdditive3pc { r: self.r, r_bits, b_bit: self.b_bit };
        assert forall|j: int| 0 <= j < self.r@.len() implies #[trigger] out.element(j)
            == self.element(j) by {
            assert(column(out.r_bits@, j) == self.bits@[j]@);
        }
        out
    }
}

/// Deals the randomness of the three parties for a batch. What one element takes is drawn by the
/// caller: the bits of the mask, the first shares of those bits, the random bit and the masks of
/// the two additive sharings.
pub fn offline_shares_vec_for_role_additive_3pc<T: IntRing2k>(
    bits: &[Vec<bool>],
    first_shares: &[Vec<bool>],
    r_masks: &[T],
    b_values: &[bool],
    b_masks: &[T],
) -> (r: Vec<VecOfflineRandomSharesAdditive3pc<T>>)
    requires
        bits@.len() == first_shares@.len(),
        bits@.len() == r_masks@.len(),
        bits@.len() == b_values@.len(),
        bits@.len() == b_masks@.len(),
        rectangular(bits@, T::bits()),
        rectangular(first_shares@, T::bits()),
    ensures
        r@.len() == 3,
        r@[0].wf(bits@.len()),
        r@[1].wf(bits@.len()),
        r@[2].wf(bits@.len()),
        forall|j: int|
            0 <= j < bits@.len() ==> offline_dealt(
                (#[trigger] bits@[j])@,
                first_shares@[j]@,
                r_masks@[j],
                b_values@[j],
                b_masks@[j],
                seq![r@[0].element(j), r@[1].element(j), r@[2].element(j)],
            ),
{
    let mut c0: Columns<T> = Columns::new();
    let mut c1: Columns<T> = Columns::new();
    let mut c2: Columns<T> = Columns::new();
    let mut i: usize = 0;
    while i < bits.len()
        invariant
            bits@.len() == first_shares@.len(),
            bits@.len() == r_masks@.len(),
            bits@.len() == b_values@.len(),
            bits@.len() == b_masks@.len(),
            rectangular(bits@, T::bits()),
            rectangular(first_shares@, T::bits()),
            i <= bits@.len(),
            c0.wf(i as nat),
            c1.wf(i as nat),
            c2.wf(i as nat),
            forall|j: int|
                0 <= j < i ==> offline_dealt(
                    (#[trigger] bits@[j])@,
                    first_shares@[j]@,
                    r_masks@[j],
                    b_values@[j],
                    b_masks@[j],
                    seq![c0.element(j), c1.element(j), c2.element(j)],
                ),
        decreases bits@.len() - i,
    {
        assert(bits@[i as int]@.len() == T::bits());
        assert(first_shares@[i as int]@.len() == T::bits());
        let mut dealt = offline_shares_for_role_additive_3pc(
            bits[i].as_slice(),
            first_shares[i].as_slice(),
            r_masks[i],
            b_values[i],
            b_masks[i],
        );
        let ghost (d0, d1, d2) = (dealt@[0]@, dealt@[1]@, dealt@[2]@);
        let ghost (e0, e1, e2) = (c0, c1, c2);
        if let Some(share) = dealt.pop() {
            c2.push(share);
        }
        if let Some(share) = dealt.pop() {
            c1.push(share);
        }
        if let Some(share) = dealt.pop() {
            c0.push(share);
        }
        assert forall|j: int| 0 <= j < i + 1 implies offline_dealt(
            (#[trigger] bits@[j])@,
            first_shares@[j]@,
            r_masks@[j],
            b_values@[j],
            b_masks@[j],
            seq![c0.element(j), c1.element(j), c2.element(j)],
        ) by {
            if j < i {
                assert(c0.element(j) == e0.element(j));
                assert(c1.element(j) == e1.element(j));
                assert(c2.element(j) == e2.element(j));
            } else {
                assert(c0.element(j) == d0 && c1.element(j) == d1 && c2.element(j) == d2);
            }
        }
        i += 1;
    }
    let mut out: Vec<VecOfflineRandomSharesAdditive3pc<T>> = Vec::new();
    let ghost (e0, e1, e2) = (c0, c1, c2);
    out.push(c0.finish());
    out.push(c1.finish());
    out.push(c2.finish());
    assert forall|j: int| 0 <= j < bits@.len() implies offline_dealt(
        (#[trigger] bits@[j])@,
        first_shares@[j]@,
        r_masks@[j],
        b_values@[j],
        b_masks@[j],
        seq![out@[0].element(j), out@[1].element(j), out@[2].element(j)],
    ) by {
        assert(out@[0].element(j) == e0.element(j));
        assert(out@[1].element(j) == e1.element(j));
        assert(out@[2].element(j) == e2.element(j));
    }
    out
}

} // verus!
