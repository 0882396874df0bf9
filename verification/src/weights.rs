//! Scaling a cost matrix entry by entry by a matrix of weights.

use vstd::prelude::*;

verus! {

/// The two matrices have the same number of rows, at least one row, and
/// first rows of the same length.
pub open spec fn same_shape<T, U>(a: Seq<Vec<T>>, b: Seq<Vec<U>>) -> bool {
    &&& a.len() == b.len()
    &&& a.len() > 0
    &&& a[0]@.len() == b[0]@.len()
}

/// Whether a cost matrix and a weight matrix can be combined: the same number
/// of rows, not both empty, and first rows of the same length.
pub fn shapes_match<T, U>(costs: &[Vec<T>], weights: &[Vec<U>]) -> (ok: bool)
    ensures
        ok == same_shape(costs@, weights@),
        ok == (costs@.len() == weights@.len() && costs@.len() > 0 && costs@[0]@.len()
            == weights@[0]@.len()),
{
    if costs.len() != weights.len() || (costs.len() == 0 && weights.len() == 0) {
        return false;
    }
    costs[0].len() == weights[0].len()
}

/// Combines two matrices entry by entry with `f`: row `i` of the result pairs
/// up row `i` of both, as far as the shorter of the two reaches; the result
/// has as many rows as the shorter matrix.
pub fn entrywise<T: Copy, F: Fn(T, T) -> T>(a: &[Vec<T>], b: &[Vec<T>], f: &F) -> (c: Vec<Vec<T>>)
    requires
        forall|x: T, y: T| #[trigger] call_requires(*f, (x, y)),
    ensures
        c@.len() == if a@.len() <= b@.len() {
            a@.len()
        } else {
            b@.len()
        },
        forall|i: int|
            0 <= i < c@.len() ==> (#[trigger] c@[i])@.len() == if a@[i]@.len() <= b@[i]@.len() {
                a@[i]@.len()
            } else {
                b@[i]@.len()
            },
        forall|i: int, j: int|
            0 <= i < c@.len() && 0 <= j < c@[i]@.len() ==> call_ensures(
                *f,
                (a@[i]@[j], b@[i]@[j]),
                #[trigger] c@[i]@[j],
            ),
{
    let rows = if a.len() <= b.len() {
        a.len()
    } else {
        b.len()
    };
    let mut c: Vec<Vec<T>> = Vec::new();
    let mut i: usize = 0;
    while i < rows
        invariant
            i <= rows,
            rows <= a@.len(),
            rows <= b@.len(),
            rows == if a@.len() <= b@.len() {
                a@.len()
            } else {
                b@.len()
            },
            forall|x: T, y: T| #[trigger] call_requires(*f, (x, y)),
            c@.len() == i,
            forall|r: int|
                0 <= r < i ==> (#[trigger] c@[r])@.len() == if a@[r]@.len() <= b@[r]@.len() {
                    a@[r]@.len()
                } else {
                    b@[r]@.len()
                },
            forall|r: int, q: int|
                0 <= r < i && 0 <= q < c@[r]@.len() ==> call_ensures(
                    *f,
                    (a@[r]@[q], b@[r]@[q]),
                    #[trigger] c@[r]@[q],
                ),
        decreases rows - i,
    {
        let cols = if a[i].len() <= b[i].len() {
            a[i].len()
        } else {
            b[i].len()
        };
        let mut row: Vec<T> = Vec::new();
        let mut j: usize = 0;
        while j < cols
            invariant
                i < rows,
                rows <= a@.len(),
                rows <= b@.len(),
                j <= cols,
                cols <= a@[i as int]@.len(),
                cols <= b@[i as int]@.len(),
                forall|x: T, y: T| #[trigger] call_requires(*f, (x, y)),
                row@.len() == j,
                forall|q: int|
                    0 <= q < j ==> call_ensures(
                        *f,
                        (a@[i as int]@[q], b@[i as int]@[q]),
                        #[trigger] row@[q],
                    ),
            decreases cols - j,
        {
            let x = f(a[i][j], b[i][j]);
            row.push(x);
            j += 1;
        }
        c.push(row);
        i += 1;
    }
    c
}

} // verus!
