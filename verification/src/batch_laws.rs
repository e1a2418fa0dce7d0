//! What a batched extraction with a dealer gives: a whole run, from the additive shares of a batch
//! to the shares of the most significant bits.

use crate::batched_msb_extraction::rows_in_field;
use crate::batched_preprocessing::VecOfflineRandomSharesAdditive3pc;
use crate::bitlt::{difference, low_bits, masked_shares, num, test_values};
use crate::matrix::{column, rectangular};
use crate::msb_dealer_helpers::{
    all_in_field, dealt_bits, dealt_primes, lemma_additive_opening_agrees, sum3, sum_primes,
    xor_bits,
};
use crate::msb_offline_randomness::{lemma_dealt_is_valid, offline_dealt, offline_valid};
use crate::msb_preprocessing_additive::{
    comparison_share, lemma_bitlt_3pc_correct, lemma_borrow_is_comparison,
    lemma_dealer_deals_correctly, lemma_extract_msb_correct, masked_msb, msb_share, top, total,
};
use crate::primefield::{is_prime, PrimeElement};
use crate::ring::{bit_int, IntRing2k};
use crate::ring_lemmas::bit;
use vstd::prelude::*;

verus! {

/// What three parties hold: one vector each.
pub type Parts3<T> = (Seq<T>, Seq<T>, Seq<T>);

/// The randomness of three parties for a batch.
pub type Offline3<T> = (
    VecOfflineRandomSharesAdditive3pc<T>,
    VecOfflineRandomSharesAdditive3pc<T>,
    VecOfflineRandomSharesAdditive3pc<T>,
);

/// What the dealer dealt for a batch, as a function of the values that were drawn.
pub struct Drawn<T> {
    pub bits: Seq<Vec<bool>>,
    pub first_shares: Seq<Vec<bool>>,
    pub r_masks: Seq<T>,
    pub b_values: Seq<bool>,
    pub b_masks: Seq<T>,
}

impl<T: IntRing2k> Drawn<T> {
    /// The randomness of the parties was dealt with these values.
    pub open spec fn gave(self, offline: Offline3<T>) -> bool {
        let n = self.bits.len();
        &&& self.first_shares.len() == n
        &&& rectangular(self.bits, T::bits())
        &&& rectangular(self.first_shares, T::bits())
        &&& offline.0.wf(n) && offline.1.wf(n) && offline.2.wf(n)
        &&& forall|j: int|
            0 <= j < n ==> offline_dealt(
                (#[trigger] self.bits[j])@,
                self.first_shares[j]@,
                self.r_masks[j],
                self.b_values[j],
                self.b_masks[j],
                seq![offline.0.element(j), offline.1.element(j), offline.2.element(j)],
            )
    }
}

/// A batch of comparisons: what the compute roles draw from the stream they share, what goes to the
/// dealer and comes back, one row per bit, and the marks, one row per element.
pub struct ComparisonRun {
    pub masks: Seq<Vec<bool>>,
    pub scalars: Seq<PrimeElement>,
    pub shift: nat,
    pub masked: (Seq<Vec<bool>>, Seq<Vec<bool>>),
    pub combined: Seq<Vec<bool>>,
    pub rand_primes: Seq<Vec<PrimeElement>>,
    pub dealt: Seq<Vec<PrimeElement>>,
    pub tests: (Seq<Vec<PrimeElement>>, Seq<Vec<PrimeElement>>),
    pub summed: Seq<Vec<PrimeElement>>,
    pub rand_bits: Seq<Vec<bool>>,
    pub marks: Seq<Vec<bool>>,
}

impl ComparisonRun {
    /// What the compute roles draw is fit for use.
    pub open spec fn drawn(self, places: nat, n: nat, p: u16) -> bool {
        &&& self.masks.len() == places
        &&& rectangular(self.masks, n)
        &&& self.scalars.len() == places
        &&& all_in_field(self.scalars, p)
        &&& forall|i: int| 0 <= i < places ==> 0 < (#[trigger] self.scalars[i]).value
        &&& self.shift < places
    }

    /// What a compute role sends first.
    pub open spec fn masks_rows<T: IntRing2k>(
        self,
        first: bool,
        shares: Seq<Vec<bool>>,
        public_values: Seq<T>,
        rows: Seq<Vec<bool>>,
    ) -> bool {
        &&& rows.len() == self.masks.len()
        &&& rectangular(rows, public_values.len())
        &&& forall|j: int|
            0 <= j < public_values.len() ==> #[trigger] column(rows, j) == masked_shares(
                first,
                column(shares, j).push(false),
                low_bits(public_values[j], shares.len()).push(true),
                column(self.masks, j),
            )
    }

    /// What a compute role sends back.
    pub open spec fn tests_rows(
        self,
        first: bool,
        dealt: Seq<Vec<PrimeElement>>,
        n: nat,
        p: u16,
        rows: Seq<Vec<PrimeElement>>,
    ) -> bool {
        &&& rows.len() == dealt.len()
        &&& rectangular(rows, n)
        &&& forall|j: int|
            0 <= j < n ==> #[trigger] column(rows, j) == test_values(
                first,
                column(dealt, j),
                column(self.masks, j),
                self.scalars,
                self.shift,
                p,
            )
    }

    /// What the dealer does, with the elements and bits that it draws.
    pub open spec fn deals(self, places: nat, n: nat, p: u16) -> bool {
        &&& self.combined.len() == places
        &&& forall|i: int|
            0 <= i < places ==> (#[trigger] self.combined[i])@ == xor_bits(
                self.masked.1[i]@,
                self.masked.0[i]@,
            )
        &&& self.rand_primes.len() == places
        &&& rectangular(self.rand_primes, n)
        &&& rows_in_field(self.rand_primes, p)
        &&& self.dealt.len() == places
        &&& forall|i: int|
            0 <= i < places ==> (#[trigger] self.dealt[i])@ == dealt_primes(
                self.combined[i]@,
                self.rand_primes[i]@,
                p,
            )
        &&& self.summed.len() == places
        &&& forall|i: int|
            0 <= i < places ==> (#[trigger] self.summed[i])@ == sum_primes(
                self.tests.1[i]@,
                self.tests.0[i]@,
                p,
            )
        &&& self.rand_bits.len() == n
        &&& rectangular(self.rand_bits, places)
        &&& self.marks.len() == n
        &&& forall|j: int|
            0 <= j < n ==> (#[trigger] self.marks[j])@ == dealt_bits(
                column(self.summed, j),
                self.rand_bits[j]@,
            )
    }

    /// The parties compared the shared numbers with the public ones, and the compute roles end with
    /// the given shares.
    pub open spec fn ran<T: IntRing2k>(
        self,
        shares: (Seq<Vec<bool>>, Seq<Vec<bool>>),
        public_values: (Seq<T>, Seq<T>),
        p: u16,
        out: (Seq<bool>, Seq<bool>),
    ) -> bool {
        let n = public_values.0.len();
        let places = shares.0.len() + 1;
        &&& self.drawn(places, n, p)
        &&& self.masks_rows(true, shares.0, public_values.0, self.masked.0)
        &&& self.masks_rows(false, shares.1, public_values.1, self.masked.1)
        &&& self.deals(places, n, p)
        &&& self.tests_rows(true, self.dealt, n, p, self.tests.0)
        &&& self.tests_rows(false, self.rand_primes, n, p, self.tests.1)
        &&& out.0 == Seq::new(
            n,
            |j: int| comparison_share(true, self.marks[j]@, public_values.0[j], self.shift),
        )
        &&& out.1 == Seq::new(
            n,
            |j: int| comparison_share(false, self.rand_bits[j]@, public_values.1[j], self.shift),
        )
    }
}

/// One element of a batch of comparisons runs as a single comparison does.
proof fn lemma_column_runs<T: IntRing2k>(
    run: ComparisonRun,
    shares: (Seq<Vec<bool>>, Seq<Vec<bool>>),
    public_values: Seq<T>,
    p: u16,
    out: (Seq<bool>, Seq<bool>),
    j: int,
)
    requires
        is_prime(p as int),
        2 * (shares.0.len() + 1) <= p + 1,
        shares.0.len() < T::bits(),
        shares.1.len() == shares.0.len(),
        rectangular(shares.0, public_values.len()),
        rectangular(shares.1, public_values.len()),
        run.ran(shares, (public_values, public_values), p, out),
        0 <= j < public_values.len(),
    ensures
        (out.0[j] != out.1[j]) == (num(low_bits(public_values[j], shares.0.len())) < num(
            difference(column(shares.0, j), column(shares.1, j)),
        )),
{
    let (n, places) = (public_values.len(), shares.0.len() + 1);
    let (s0, s1) = (column(shares.0, j), column(shares.1, j));
    let public = low_bits(public_values[j], shares.0.len()).push(true);
    let masks = column(run.masks, j);
    let rand_primes = column(run.rand_primes, j);
    let rand_bits = run.rand_bits[j]@;
    assert(rand_bits.len() == places);
    assert(all_in_field(rand_primes, p)) by {
        assert forall|i: int| 0 <= i < places implies (#[trigger] rand_primes[i]).wf()
            && rand_primes[i].modulus == p by {
            assert(all_in_field(run.rand_primes[i]@, p));
            assert(run.rand_primes[i]@.len() == n);
            assert(rand_primes[i] == run.rand_primes[i]@[j]);
        }
    }
    assert forall|i: int| 0 <= i < places implies 0 < (#[trigger] run.scalars[i]).value < p by {
        assert(run.scalars[i].wf() && run.scalars[i].modulus == p);
    }
    lemma_dealer_deals_correctly(
        s0.push(false),
        s1.push(false),
        public,
        masks,
        run.scalars,
        run.shift,
        rand_primes,
        rand_bits,
        p,
    );
    lemma_dealt_column(run, n, places, p, j);
    assert(column(run.masked.0, j) == masked_shares(true, s0.push(false), public, masks));
    assert(column(run.masked.1, j) == masked_shares(false, s1.push(false), public, masks));
    assert(column(run.tests.0, j) == test_values(
        true,
        column(run.dealt, j),
        masks,
        run.scalars,
        run.shift,
        p,
    ));
    assert(column(run.tests.1, j) == test_values(
        false,
        rand_primes,
        masks,
        run.scalars,
        run.shift,
        p,
    ));
    lemma_bitlt_3pc_correct(
        s0,
        s1,
        public_values[j],
        masks,
        run.scalars,
        run.shift,
        column(run.dealt, j),
        rand_primes,
        run.marks[j]@,
        rand_bits,
        p,
    );
}

/// What the dealer deals row by row, element by element.
proof fn lemma_dealt_column(run: ComparisonRun, n: nat, places: nat, p: u16, j: int)
    requires
        run.deals(places, n, p),
        run.masked.0.len() == places,
        run.masked.1.len() == places,
        rectangular(run.masked.0, n),
        rectangular(run.masked.1, n),
        run.tests.0.len() == places,
        run.tests.1.len() == places,
        rectangular(run.tests.0, n),
        rectangular(run.tests.1, n),
        0 <= j < n,
    ensures
        column(run.dealt, j) == dealt_primes(
            xor_bits(column(run.masked.1, j), column(run.masked.0, j)),
            column(run.rand_primes, j),
            p,
        ),
        run.marks[j]@ == dealt_bits(
            sum_primes(column(run.tests.1, j), column(run.tests.0, j), p),
            run.rand_bits[j]@,
        ),
{
    let bits = xor_bits(column(run.masked.1, j), column(run.masked.0, j));
    let dealt = dealt_primes(bits, column(run.rand_primes, j), p);
    assert forall|i: int| 0 <= i < places implies #[trigger] column(run.dealt, j)[i] == dealt[i] by {
        assert(run.dealt[i]@ == dealt_primes(run.combined[i]@, run.rand_primes[i]@, p));
        assert(run.combined[i]@ == xor_bits(run.masked.1[i]@, run.masked.0[i]@));
        assert(run.masked.1[i]@.len() == n && run.masked.0[i]@.len() == n);
    }
    assert(column(run.dealt, j) =~= dealt);
    let sums = sum_primes(column(run.tests.1, j), column(run.tests.0, j), p);
    assert forall|i: int| 0 <= i < places implies #[trigger] column(run.summed, j)[i]
        == sums[i] by {
        assert(run.summed[i]@ == sum_primes(run.tests.1[i]@, run.tests.0[i]@, p));
        assert(run.tests.1[i]@.len() == n && run.tests.0[i]@.len() == n);
    }
    assert(column(run.summed, j) =~= sums);
    assert(run.marks[j]@ == dealt_bits(column(run.summed, j), run.rand_bits[j]@));
}

/// The opened vectors of three parties: each one adds its own shares to those of the previous and the
/// next party.
pub open spec fn opened3<T: IntRing2k>(shares: Parts3<T>, values: Parts3<T>) -> bool {
    &&& values.0 == sum3(shares.0, shares.2, shares.1)
    &&& values.1 == sum3(shares.1, shares.0, shares.2)
    &&& values.2 == sum3(shares.2, shares.1, shares.0)
}

/// The shares of the masked values.
pub open spec fn masked_values<T: IntRing2k>(
    x: Seq<T>,
    offline: VecOfflineRandomSharesAdditive3pc<T>,
) -> Seq<T> {
    Seq::new(x.len(), |j: int| T::of_int(x[j].val() + offline.element(j).r.val()))
}

/// The shares of the masked bits.
pub open spec fn masked_bits<T: IntRing2k>(
    first: bool,
    x: Seq<T>,
    offline: VecOfflineRandomSharesAdditive3pc<T>,
    low: Seq<T>,
    borrows: Seq<bool>,
) -> Seq<T> {
    Seq::new(
        x.len(),
        |j: int| masked_msb(first, x[j], offline.element(j), low[j], borrows[j]),
    )
}

/// The opened values without their most significant bits.
pub open spec fn low_values<T: IntRing2k>(c: Seq<T>) -> Seq<T> {
    Seq::new(c.len(), |j: int| T::of_int(c[j].val() % top::<T>()))
}

/// The shares of the most significant bits.
pub open spec fn finished_shares<T: IntRing2k>(
    first: bool,
    offline: VecOfflineRandomSharesAdditive3pc<T>,
    e: Seq<T>,
) -> Seq<T> {
    Seq::new(e.len(), |j: int| msb_share(first, offline.element(j), e[j]))
}

/// An extraction of a batch: the opened masked values, the comparison of their low parts with the
/// masks, and the opened masked bits.
pub struct BatchRun<T> {
    pub c: Parts3<T>,
    pub low: Parts3<T>,
    pub comparison: ComparisonRun,
    pub borrows: (Seq<bool>, Seq<bool>),
    pub e: Parts3<T>,
}

impl<T: IntRing2k> BatchRun<T> {
    /// The parties ran the extraction on a batch and end with the given shares. The dealer takes no
    /// part in the borrows.
    pub open spec fn ran(
        self,
        x: Parts3<T>,
        offline: Offline3<T>,
        p: u16,
        out: Parts3<T>,
    ) -> bool {
        let n = x.0.len();
        let k = T::bits() as int;
        let none = Seq::new(n, |j: int| false);
        &&& opened3(
            (
                masked_values(x.0, offline.0),
                masked_values(x.1, offline.1),
                masked_values(x.2, offline.2),
            ),
            self.c,
        )
        &&& self.low == (low_values(self.c.0), low_values(self.c.1), low_values(self.c.2))
        &&& self.comparison.ran(
            (offline.0.r_bits@.subrange(1, k), offline.1.r_bits@.subrange(1, k)),
            (self.low.0, self.low.1),
            p,
            self.borrows,
        )
        &&& opened3(
            (
                masked_bits(true, x.0, offline.0, self.low.0, self.borrows.0),
                masked_bits(false, x.1, offline.1, self.low.1, self.borrows.1),
                masked_bits(false, x.2, offline.2, self.low.2, none),
            ),
            self.e,
        )
        &&& out == (
            finished_shares(true, offline.0, self.e.0),
            finished_shares(false, offline.1, self.e.1),
            finished_shares(false, offline.2, self.e.2),
        )
    }
}

/// Parties that open the same shares see the same values.
proof fn lemma_opened_alike<T: IntRing2k>(shares: Parts3<T>, values: Parts3<T>, n: nat)
    requires
        shares.0.len() == n && shares.1.len() == n && shares.2.len() == n,
        opened3(shares, values),
    ensures
        values.1 == values.0 && values.2 == values.0,
        values.0 == Seq::new(n, |j: int| total(shares.0[j], shares.1[j], shares.2[j])),
{
    lemma_additive_opening_agrees(shares.0, shares.1, shares.2);
    assert(values.0 =~= Seq::new(n, |j: int| total(shares.0[j], shares.1[j], shares.2[j])));
}

/// The randomness of one element is valid, and the dealer holds none of the bits.
proof fn lemma_element_valid<T: IntRing2k>(drawn: Drawn<T>, offline: Offline3<T>, j: int)
    requires
        drawn.gave(offline),
        0 <= j < drawn.bits.len(),
    ensures
        offline_valid(offline.0.element(j), offline.1.element(j), offline.2.element(j)),
        forall|i: int| 0 <= i < T::bits() ==> !offline.2.element(j).r_bits[i],
{
    let views = seq![offline.0.element(j), offline.1.element(j), offline.2.element(j)];
    assert(drawn.bits[j]@.len() == T::bits());
    assert(drawn.first_shares[j]@.len() == T::bits());
    lemma_dealt_is_valid(
        drawn.bits[j]@,
        drawn.first_shares[j]@,
        drawn.r_masks[j],
        drawn.b_values[j],
        drawn.b_masks[j],
        views,
    );
    assert(views[2].r_bits == Seq::new(drawn.bits[j]@.len(), |i: int| false));
}

/// The borrow shares of one element tell whether the low part of its opened value is smaller than that
/// of its mask.
proof fn lemma_element_borrow<T: IntRing2k>(
    drawn: Drawn<T>,
    offline: Offline3<T>,
    comparison: ComparisonRun,
    low: Seq<T>,
    p: u16,
    borrows: (Seq<bool>, Seq<bool>),
    j: int,
)
    requires
        T::bits() >= 1,
        is_prime(p as int),
        2 * T::bits() <= p + 1,
        drawn.gave(offline),
        low.len() == drawn.bits.len(),
        0 <= j < low.len(),
        low[j].val() < top::<T>(),
        comparison.ran(
            (
                offline.0.r_bits@.subrange(1, T::bits() as int),
                offline.1.r_bits@.subrange(1, T::bits() as int),
            ),
            (low, low),
            p,
            borrows,
        ),
    ensures
        (borrows.0[j] != borrows.1[j]) == (low[j].val() < total(
            offline.0.element(j).r,
            offline.1.element(j).r,
            offline.2.element(j).r,
        ).val() % top::<T>()),
{
    let k = T::bits() as int;
    let (r0, r1) = (offline.0.r_bits@.subrange(1, k), offline.1.r_bits@.subrange(1, k));
    let (o0, o1, o2) = (offline.0.element(j), offline.1.element(j), offline.2.element(j));
    assert(rectangular(r0, low.len())) by {
        assert forall|i: int| 0 <= i < r0.len() implies (#[trigger] r0[i])@.len() == low.len() by {
            assert(offline.0.r_bits@[i + 1]@.len() == low.len());
        }
    }
    assert(rectangular(r1, low.len())) by {
        assert forall|i: int| 0 <= i < r1.len() implies (#[trigger] r1[i])@.len() == low.len() by {
            assert(offline.1.r_bits@[i + 1]@.len() == low.len());
        }
    }
    lemma_element_valid(drawn, offline, j);
    lemma_column_runs(comparison, (r0, r1), low, p, borrows, j);
    lemma_borrow_is_comparison(o0, o1, o2, low[j]);
    assert(column(r0, j) =~= o0.r_bits.subrange(1, k));
    assert(column(r1, j) =~= o1.r_bits.subrange(1, k));
}

/// A batched extraction gives the most significant bit of every element: the shares that the three
/// parties end with add up to the most significant bit of the value that was shared, whatever the
/// shares, and whatever the dealer and the parties draw.
pub proof fn lemma_batch_run_correct<T: IntRing2k>(
    x: Parts3<T>,
    drawn: Drawn<T>,
    offline: Offline3<T>,
    run: BatchRun<T>,
    p: u16,
    out: Parts3<T>,
    n: nat,
)
    requires
        is_prime(p as int),
        2 * T::bits() <= p + 1,
        x.0.len() == n && x.1.len() == n && x.2.len() == n,
        drawn.bits.len() == n,
        drawn.gave(offline),
        run.ran(x, offline, p, out),
    ensures
        out.0.len() == n && out.1.len() == n && out.2.len() == n,
        forall|j: int|
            0 <= j < n ==> total(#[trigger] out.0[j], out.1[j], out.2[j]) == T::of_int(
                bit_int(bit(total(x.0[j], x.1[j], x.2[j]), (T::bits() - 1) as nat)),
            ),
{
    let none = Seq::new(n, |j: int| false);
    let masked = (
        masked_values(x.0, offline.0),
        masked_values(x.1, offline.1),
        masked_values(x.2, offline.2),
    );
    let (l0, l1, l2) = run.low;
    let masked_bits = (
        masked_bits(true, x.0, offline.0, l0, run.borrows.0),
        masked_bits(false, x.1, offline.1, l1, run.borrows.1),
        masked_bits(false, x.2, offline.2, l2, none),
    );
    lemma_opened_alike(masked, run.c, n);
    lemma_opened_alike(masked_bits, run.e, n);
    assert(l1 == l0 && l2 == l0);
    assert forall|j: int| 0 <= j < n implies total(#[trigger] out.0[j], out.1[j], out.2[j])
        == T::of_int(bit_int(bit(total(x.0[j], x.1[j], x.2[j]), (T::bits() - 1) as nat))) by {
        T::law_modulus();
        lemma_low_part(run.c.0[j]);
        lemma_element_valid(drawn, offline, j);
        lemma_element_borrow(drawn, offline, run.comparison, l0, p, run.borrows, j);
        lemma_extract_msb_correct(
            x.0[j],
            x.1[j],
            x.2[j],
            offline.0.element(j),
            offline.1.element(j),
            offline.2.element(j),
            run.borrows.0[j],
            run.borrows.1[j],
            false,
            run.c.0[j],
            l0[j],
            run.e.0[j],
        );
    }
}

/// The low part of an element is smaller than the place of its most significant bit.
proof fn lemma_low_part<T: IntRing2k>(c: T)
    ensures
        T::of_int(c.val() % top::<T>()).val() == c.val() % top::<T>(),
        c.val() % top::<T>() < top::<T>(),
{
    T::law_modulus();
    c.law_val();
    let r = c.val() % top::<T>();
    vstd::arithmetic::power2::lemma_pow2_pos((T::bits() - 1) as nat);
    vstd::arithmetic::power2::lemma_pow2_unfold(T::bits());
    vstd::arithmetic::div_mod::lemma_mod_bound(c.val(), top::<T>());
    T::law_of_int(r);
    vstd::arithmetic::div_mod::lemma_small_mod(r as nat, T::modulus() as nat);
}

} // verus!
