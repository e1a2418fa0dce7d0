//! Facts about how many indices have a property.

use vstd::prelude::*;

verus! {

/// The indices below `n` that have a property are finitely many, none if `n` is zero, and index
/// `n - 1` adds one to those before it exactly if it has the property.
pub proof fn lemma_count_step(f: spec_fn(int) -> bool, n: nat)
    ensures
        Set::new(|j: int| 0 <= j < n && f(j)).finite(),
        Set::new(|j: int| 0 <= j < n && f(j)).len() <= n,
        n == 0 ==> Set::new(|j: int| 0 <= j < n && f(j)).len() == 0,
        n > 0 ==> Set::new(|j: int| 0 <= j < n && f(j)).len() == Set::new(
            |j: int| 0 <= j < n - 1 && f(j),
        ).len() + if f(n - 1) {
            1int
        } else {
            0int
        },
    decreases n,
{
    let all = Set::new(|j: int| 0 <= j < n && f(j));
    if n == 0 {
        assert(all =~= Set::empty());
    } else {
        let rest = Set::new(|j: int| 0 <= j < n - 1 && f(j));
        lemma_count_step(f, (n - 1) as nat);
        assert(rest =~= Set::new(|j: int| 0 <= j < ((n - 1) as nat) && f(j)));
        if f(n - 1) {
            assert(all =~= rest.insert(n - 1));
        } else {
            assert(all =~= rest);
        }
    }
}

/// A sequence of numbers that starts at zero and grows by one exactly at the indices that have a
/// property counts them.
pub proof fn lemma_counts(f: spec_fn(int) -> bool, c: spec_fn(int) -> int, n: nat)
    requires
        c(0) == 0,
        forall|k: int|
            0 < k <= n ==> #[trigger] c(k) == c(k - 1) + if f(k - 1) {
                1int
            } else {
                0int
            },
    ensures
        c(n as int) == Set::new(|j: int| 0 <= j < n && f(j)).len(),
        Set::new(|j: int| 0 <= j < n && f(j)).finite(),
        Set::new(|j: int| 0 <= j < n && f(j)).len() <= n,
    decreases n,
{
    lemma_count_step(f, n);
    if n > 0 {
        lemma_counts(f, c, (n - 1) as nat);
        assert(Set::new(|j: int| 0 <= j < n - 1 && f(j)) =~= Set::new(
            |j: int| 0 <= j < ((n - 1) as nat) && f(j),
        ));
        assert(c(n as int) == c(n - 1) + if f(n - 1) {
            1int
        } else {
            0int
        });
    }
}

} // verus!
