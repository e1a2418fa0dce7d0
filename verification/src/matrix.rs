//! Batches of equally long vectors.

use vstd::prelude::*;

verus! {

/// Every row has `width` entries.
pub open spec fn rectangular<T>(rows: Seq<Vec<T>>, width: nat) -> bool {
    forall|i: int| 0 <= i < rows.len() ==> (#[trigger] rows[i])@.len() == width
}

/// The entries of all rows at one place.
pub open spec fn column<T>(rows: Seq<Vec<T>>, j: int) -> Seq<T> {
    Seq::new(rows.len(), |i: int| rows[i]@[j])
}

/// The entries of all rows at one place.
pub fn column_of<T: Copy>(rows: &[Vec<T>], j: usize, width: usize) -> (r: Vec<T>)
    requires
        rectangular(rows@, width as nat),
        j < width,
    ensures
        r@ == column(rows@, j as int),
        r@.len() == rows@.len(),
        forall|i: int| 0 <= i < r@.len() ==> #[trigger] r@[i] == rows@[i]@[j as int],
{
    let mut out: Vec<T> = Vec::new();
    let mut i: usize = 0;
    while i < rows.len()
        invariant
            rectangular(rows@, width as nat),
            j < width,
            i <= rows@.len(),
            out@.len() == i,
            forall|k: int| 0 <= k < i ==> out@[k] == rows@[k]@[j as int],
        decreases rows@.len() - i,
    {
        assert(rows@[i as int]@.len() == width);
        out.push(rows[i][j]);
        i += 1;
    }
    assert(out@ =~= column(rows@, j as int));
    out
}

/// Exchanges rows and columns.
pub fn transpose<T: Copy>(rows: &[Vec<T>], width: usize) -> (r: Vec<Vec<T>>)
    requires
        rectangular(rows@, width as nat),
    ensures
        r@.len() == width,
        rectangular(r@, rows@.len()),
        forall|j: int| 0 <= j < width ==> (#[trigger] r@[j])@ == column(rows@, j),
        forall|i: int| 0 <= i < rows@.len() ==> column(r@, i) == (#[trigger] rows@[i])@,
        forall|j: int, i: int|
            0 <= j < width && 0 <= i < rows@.len() ==> r@[j]@.len() == rows@.len()
                && #[trigger] r@[j]@[i] == rows@[i]@[j],
{
    let mut out: Vec<Vec<T>> = Vec::new();
    let mut j: usize = 0;
    while j < width
        invariant
            rectangular(rows@, width as nat),
            j <= width,
            out@.len() == j,
            forall|k: int| 0 <= k < j ==> (#[trigger] out@[k])@ == column(rows@, k),
        decreases width - j,
    {
        out.push(column_of(rows, j, width));
        j += 1;
    }
    assert forall|i: int| 0 <= i < rows@.len() implies column(out@, i) == (#[trigger] rows@[i])@ by {
        assert(column(out@, i) =~= rows@[i]@);
    }
    out
}

} // verus!
