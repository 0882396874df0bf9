use vstd::prelude::*;

verus! {

/// The result of solving an assignment problem: the total cost, the column
/// given to each row (`None` for a row left without one) and the row given to
/// each column (`None` for a column left without one).
pub type LapSolution<T> = (T, Vec<Option<usize>>, Vec<Option<usize>>);

/// `rows` and `cols` describe one and the same partial matching:
/// `rows[i] == Some(j)` exactly when `cols[j] == Some(i)`.
pub open spec fn is_matching(rows: Seq<Option<usize>>, cols: Seq<Option<usize>>) -> bool {
    &&& forall|i: int|
        0 <= i < rows.len() && (#[trigger] rows[i]) is Some ==> {
            &&& rows[i]->0 < cols.len()
            &&& cols[rows[i]->0 as int] == Some(i as usize)
        }
    &&& forall|j: int|
        0 <= j < cols.len() && (#[trigger] cols[j]) is Some ==> {
            &&& cols[j]->0 < rows.len()
            &&& rows[cols[j]->0 as int] == Some(j as usize)
        }
}

/// Every entry of an assignment vector names a partner.
pub open spec fn all_assigned(a: Seq<Option<usize>>) -> bool {
    forall|i: int| 0 <= i < a.len() ==> (#[trigger] a[i]) is Some
}

/// Whether every entry of an assignment vector names a partner.
pub fn all_some(a: &Vec<Option<usize>>) -> (ok: bool)
    ensures
        ok == all_assigned(a@),
{
    let mut i: usize = 0;
    while i < a.len()
        invariant
            i <= a@.len(),
            forall|r: int| 0 <= r < i ==> (#[trigger] a@[r]) is Some,
        decreases a@.len() - i,
    {
        if a[i].is_none() {
            return false;
        }
        i += 1;
    }
    true
}

} // verus!
