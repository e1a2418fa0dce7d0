//! Extraction of the most significant bits of a batch of additively shared values.
//!
//! The batch runs the steps of the single extraction side by side. Rows hold one bit of every
//! element, columns all bits of one element. The scalars and the rotation of a comparison are
//! the same for the whole batch.

use crate::batched_preprocessing::VecOfflineRandomSharesAdditive3pc;
use crate::bitlt::{dot, low_bits, masked_shares, rotated_back, test_values};
use crate::matrix::{column, column_of, rectangular, transpose};
use crate::msb_dealer_helpers::all_in_field;
use crate::msb_preprocessing_additive::{
    bitlt_3pc_finish, bitlt_3pc_mask, bitlt_3pc_test, comparison_share, finish_msb_of_parts,
    low_part, masked_msb, masked_msb_of_parts, msb_share, top,
};
use crate::player::Role;
use crate::primefield::PrimeElement;
use crate::ring::{bit_int, IntRing2k};
use crate::ring_lemmas::bit;
use vstd::arithmetic::power2::*;
use vstd::prelude::*;

verus! {

/// First step of a batch of comparisons: the rows that go to the dealer.
pub fn bitlt_3pc_batched_mask<T: IntRing2k>(
    own_role: Role,
    shares: &[Vec<bool>],
    public_values: &[T],
    masks: &[Vec<bool>],
) -> (r: Vec<Vec<bool>>)
    requires
        shares@.len() <= T::bits(),
        masks@.len() == shares@.len() + 1,
        rectangular(shares@, public_values@.len()),
        rectangular(masks@, public_values@.len()),
    ensures
        r@.len() == masks@.len(),
        rectangular(r@, public_values@.len()),
        forall|j: int|
            0 <= j < public_values@.len() ==> #[trigger] column(r@, j) == masked_shares(
                own_role.index == 0,
                column(shares@, j).push(false),
                low_bits(public_values@[j], shares@.len()).push(true),
                column(masks@, j),
            ),
{
    let batch: usize = public_values.len();
    let mut columns: Vec<Vec<bool>> = Vec::new();
    let mut j: usize = 0;
    while j < batch
        invariant
            batch == public_values@.len(),
            shares@.len() <= T::bits(),
            masks@.len() == shares@.len() + 1,
            rectangular(shares@, batch as nat),
            rectangular(masks@, batch as nat),
            j <= batch,
            columns@.len() == j,
            rectangular(columns@, masks@.len()),
            forall|k: int|
                0 <= k < j ==> (#[trigger] columns@[k])@ == masked_shares(
                    own_role.index == 0,
                    column(shares@, k).push(false),
                    low_bits(public_values@[k], shares@.len()).push(true),
                    column(masks@, k),
                ),
        decreases batch - j,
    {
        let share: Vec<bool> = column_of(shares, j, batch);
        let mask: Vec<bool> = column_of(masks, j, batch);
        let masked: Vec<bool> = bitlt_3pc_mask(
            own_role,
            share.as_slice(),
            public_values[j],
            mask.as_slice(),
        );
        columns.push(masked);
        j += 1;
    }
    let out: Vec<Vec<bool>> = transpose(columns.as_slice(), masks.len());
    assert forall|j: int| 0 <= j < public_values@.len() implies #[trigger] column(out@, j)
        == masked_shares(
        own_role.index == 0,
        column(shares@, j).push(false),
        low_bits(public_values@[j], shares@.len()).push(true),
        column(masks@, j),
    ) by {
        assert(column(out@, j) == columns@[j]@);
    }
    out
}

/// Every row holds reduced elements of the field with `p` elements.
pub open spec fn rows_in_field(rows: Seq<Vec<PrimeElement>>, p: u16) -> bool {
    forall|i: int| 0 <= i < rows.len() ==> all_in_field((#[trigger] rows[i])@, p)
}

/// Second step: the rows of test values that go to the dealer.
pub fn bitlt_3pc_batched_test(
    own_role: Role,
    dealt: &[Vec<PrimeElement>],
    masks: &[Vec<bool>],
    scalars: &[PrimeElement],
    shift: usize,
    prime_modulus: u16,
    batch: usize,
) -> (r: Vec<Vec<PrimeElement>>)
    requires
        prime_modulus >= 2,
        dealt@.len() == masks@.len() == scalars@.len(),
        dealt@.len() < usize::MAX / 2,
        shift < dealt@.len(),
        rectangular(dealt@, batch as nat),
        rectangular(masks@, batch as nat),
        rows_in_field(dealt@, prime_modulus),
        all_in_field(scalars@, prime_modulus),
    ensures
        r@.len() == dealt@.len(),
        rectangular(r@, batch as nat),
        rows_in_field(r@, prime_modulus),
        forall|j: int|
            0 <= j < batch ==> #[trigger] column(r@, j) == test_values(
                own_role.index == 0,
                column(dealt@, j),
                column(masks@, j),
                scalars@,
                shift as nat,
                prime_modulus,
            ),
{
    let mut columns: Vec<Vec<PrimeElement>> = Vec::new();
    let mut j: usize = 0;
    while j < batch
        invariant
            prime_modulus >= 2,
            dealt@.len() == masks@.len() == scalars@.len(),
            dealt@.len() < usize::MAX / 2,
            shift < dealt@.len(),
            rectangular(dealt@, batch as nat),
            rectangular(masks@, batch as nat),
            rows_in_field(dealt@, prime_modulus),
            all_in_field(scalars@, prime_modulus),
            j <= batch,
            columns@.len() == j,
            rectangular(columns@, dealt@.len()),
            rows_in_field(columns@, prime_modulus),
            forall|k: int|
                0 <= k < j ==> (#[trigger] columns@[k])@ == test_values(
                    own_role.index == 0,
                    column(dealt@, k),
                    column(masks@, k),
                    scalars@,
                    shift as nat,
                    prime_modulus,
                ),
        decreases batch - j,
    {
        let share: Vec<PrimeElement> = column_of(dealt, j, batch);
        let mask: Vec<bool> = column_of(masks, j, batch);
        assert forall|i: int| 0 <= i < share@.len() implies (#[trigger] share@[i]).wf()
            && share@[i].modulus == prime_modulus by {
            assert(all_in_field(dealt@[i]@, prime_modulus));
            assert(share@[i] == dealt@[i]@[j as int]);
        }
        let tests: Vec<PrimeElement> = bitlt_3pc_test(
            own_role,
            share.as_slice(),
            mask.as_slice(),
            scalars,
            shift,
            prime_modulus,
        );
        columns.push(tests);
        j += 1;
    }
    let out: Vec<Vec<PrimeElement>> = transpose(columns.as_slice(), dealt.len());
    assert forall|j: int| 0 <= j < batch implies #[trigger] column(out@, j) == test_values(
        own_role.index == 0,
        column(dealt@, j),
        column(masks@, j),
        scalars@,
        shift as nat,
        prime_modulus,
    ) by {
        assert(column(out@, j) == columns@[j]@);
    }
    assert forall|i: int| 0 <= i < out@.len() implies all_in_field(
        (#[trigger] out@[i])@,
        prime_modulus,
    ) by {
        assert forall|j: int| 0 <= j < out@[i]@.len() implies (#[trigger] out@[i]@[j]).wf()
            && out@[i]@[j].modulus == prime_modulus by {
            assert(out@[i]@ == column(columns@, i));
            assert(all_in_field(columns@[j]@, prime_modulus));
        }
    }
    out
}

/// The values of the dealer, one row per bit, arranged by element of the batch.
pub fn transpose_dealer_values(rows: &[Vec<PrimeElement>], batch: usize) -> (r: Vec<
    Vec<PrimeElement>,
>)
    requires
        rectangular(rows@, batch as nat),
    ensures
        r@.len() == batch,
        forall|j: int| 0 <= j < batch ==> (#[trigger] r@[j])@ == column(rows@, j),
{
    transpose(rows, batch)
}

/// Last step: the shares of whether each public number is smaller than the shared one. The marks
/// are arranged by element of the batch.
pub fn bitlt_3pc_batched_finish<T: IntRing2k>(
    own_role: Role,
    marks: &[Vec<bool>],
    public_values: &[T],
    num_bits: usize,
    shift: usize,
) -> (r: Vec<bool>)
    requires
        marks@.len() == public_values@.len(),
        num_bits <= T::bits(),
        rectangular(marks@, (num_bits + 1) as nat),
        shift <= num_bits,
    ensures
        r@.len() == public_values@.len(),
        forall|j: int|
            0 <= j < r@.len() ==> #[trigger] r@[j] == (own_role.index <= 1 && comparison_share(
                own_role.index == 0,
                marks@[j]@,
                public_values@[j],
                shift as nat,
            )),
        forall|j: int|
            0 <= j < r@.len() ==> #[trigger] r@[j] == (own_role.index <= 1 && ((own_role.index == 0)
                != dot(
                rotated_back(marks@[j]@, shift as nat),
                low_bits(public_values@[j], num_bits as nat).push(true),
                (num_bits + 1) as nat,
            ))),
{
    let mut out: Vec<bool> = Vec::new();
    let mut j: usize = 0;
    while j < marks.len()
        invariant
            marks@.len() == public_values@.len(),
            num_bits <= T::bits(),
            rectangular(marks@, (num_bits + 1) as nat),
            shift <= num_bits,
            j <= marks@.len(),
            out@.len() == j,
            forall|k: int|
                0 <= k < j ==> #[trigger] out@[k] == (own_role.index <= 1 && comparison_share(
                    own_role.index == 0,
                    marks@[k]@,
                    public_values@[k],
                    shift as nat,
                )),
        decreases marks@.len() - j,
    {
        assert(marks@[j as int]@.len() == num_bits + 1);
        out.push(bitlt_3pc_finish(own_role, marks[j].as_slice(), public_values[j], shift));
        j += 1;
    }
    out
}

/// First step of the extraction: the shares of the masked values, which are opened.
pub fn mask_values<T: IntRing2k>(x: &[T], offline: &VecOfflineRandomSharesAdditive3pc<T>) -> (r:
    Vec<T>)
    requires
        offline.wf(x@.len()),
    ensures
        r@ == Seq::new(x@.len(), |j: int| T::of_int(x@[j].val() + offline.element(j).r.val())),
        r@.len() == x@.len(),
        forall|j: int|
            0 <= j < r@.len() ==> #[trigger] r@[j] == T::of_int(
                x@[j].val() + offline.r@[j].val(),
            ),
{
    let mut out: Vec<T> = Vec::new();
    let mut j: usize = 0;
    while j < x.len()
        invariant
            offline.wf(x@.len()),
            j <= x@.len(),
            out@.len() == j,
            forall|k: int|
                0 <= k < j ==> #[trigger] out@[k] == T::of_int(x@[k].val() + offline.r@[k].val()),
        decreases x@.len() - j,
    {
        out.push(x[j].ring_add(offline.r[j]));
        j += 1;
    }
    assert(out@ =~= Seq::new(
        x@.len(),
        |j: int| T::of_int(x@[j].val() + offline.element(j).r.val()),
    ));
    out
}

/// The opened values without their most significant bits.
pub fn low_parts<T: IntRing2k>(c: &[T]) -> (r: Vec<T>)
    ensures
        r@ == Seq::new(c@.len(), |j: int| T::of_int(c@[j].val() % top::<T>())),
        r@.len() == c@.len(),
        forall|j: int|
            0 <= j < r@.len() ==> #[trigger] r@[j] == T::of_int(
                c@[j].val() % pow2((T::bits() - 1) as nat) as int,
            ),
{
    let mut out: Vec<T> = Vec::new();
    let mut j: usize = 0;
    while j < c.len()
        invariant
            j <= c@.len(),
            out@.len() == j,
            forall|k: int| 0 <= k < j ==> #[trigger] out@[k] == T::of_int(c@[k].val() % top::<T>()),
        decreases c@.len() - j,
    {
        out.push(low_part(c[j]));
        j += 1;
    }
    assert(out@ =~= Seq::new(c@.len(), |j: int| T::of_int(c@[j].val() % top::<T>())));
    out
}

/// The shares of the most significant bits, moved to the top and masked with the random bits.
pub fn masked_msb_shares<T: IntRing2k>(
    own_role: Role,
    x: &[T],
    offline: &VecOfflineRandomSharesAdditive3pc<T>,
    c_primes: &[T],
    borrow_shares: &[bool],
) -> (r: Vec<T>)
    requires
        offline.wf(x@.len()),
        c_primes@.len() == x@.len(),
        borrow_shares@.len() == x@.len(),
    ensures
        r@ == Seq::new(
            x@.len(),
            |j: int|
                masked_msb(
                    own_role.index == 0,
                    x@[j],
                    offline.element(j),
                    c_primes@[j],
                    borrow_shares@[j],
                ),
        ),
        r@.len() == x@.len(),
        forall|j: int|
            0 <= j < r@.len() ==> #[trigger] r@[j] == T::of_int(
                x@[j].val() - (bit_int(borrow_shares@[j]) * pow2((T::bits() - 1) as nat) + bit_int(
                    own_role.index == 0,
                ) * c_primes@[j].val() - (offline.r@[j].val() - bit_int(offline.r_bits@[0]@[j])
                    * pow2((T::bits() - 1) as nat))) + offline.b_bit@[j].val() * pow2(
                    (T::bits() - 1) as nat,
                ),
            ),
{
    let mut out: Vec<T> = Vec::new();
    proof {
        T::law_modulus();
    }
    let mut j: usize = 0;
    while j < x.len()
        invariant
            T::bits() >= 1,
            offline.wf(x@.len()),
            c_primes@.len() == x@.len(),
            borrow_shares@.len() == x@.len(),
            j <= x@.len(),
            out@.len() == j,
            forall|k: int|
                0 <= k < j ==> #[trigger] out@[k] == masked_msb(
                    own_role.index == 0,
                    x@[k],
                    offline.element(k),
                    c_primes@[k],
                    borrow_shares@[k],
                ),
        decreases x@.len() - j,
    {
        assert(offline.r_bits@[0]@.len() == x@.len());
        out.push(
            masked_msb_of_parts(
                own_role.index == 0,
                x[j],
                offline.r[j],
                offline.r_bits[0][j],
                offline.b_bit[j],
                c_primes[j],
                borrow_shares[j],
            ),
        );
        j += 1;
    }
    assert(out@ =~= Seq::new(
        x@.len(),
        |j: int|
            masked_msb(
                own_role.index == 0,
                x@[j],
                offline.element(j),
                c_primes@[j],
                borrow_shares@[j],
            ),
    ));
    out
}

/// Last step: the shares of the most significant bits, from the opened masked bits.
pub fn finish_msbs<T: IntRing2k>(
    own_role: Role,
    offline: &VecOfflineRandomSharesAdditive3pc<T>,
    e: &[T],
) -> (r: Vec<T>)
    requires
        offline.wf(e@.len()),
    ensures
        r@ == Seq::new(
            e@.len(),
            |j: int| msb_share(own_role.index == 0, offline.element(j), e@[j]),
        ),
        r@.len() == e@.len(),
        forall|j: int|
            0 <= j < r@.len() ==> #[trigger] r@[j] == if bit(e@[j], (T::bits() - 1) as nat) {
                T::of_int(bit_int(own_role.index == 0) - offline.b_bit@[j].val())
            } else {
                offline.b_bit@[j]
            },
{
    let mut out: Vec<T> = Vec::new();
    let mut j: usize = 0;
    while j < e.len()
        invariant
            offline.wf(e@.len()),
            j <= e@.len(),
            out@.len() == j,
            forall|k: int|
                0 <= k < j ==> #[trigger] out@[k] == msb_share(
                    own_role.index == 0,
                    offline.element(k),
                    e@[k],
                ),
        decreases e@.len() - j,
    {
        let share: T = finish_msb_of_parts(own_role.index == 0, offline.b_bit[j], e[j]);
        assert(share == msb_share(own_role.index == 0, offline.element(j as int), e@[j as int]));
        out.push(share);
        j += 1;
    }
    assert(out@ =~= Seq::new(
        e@.len(),
        |j: int| msb_share(own_role.index == 0, offline.element(j), e@[j]),
    ));
    out
}

} // verus!
