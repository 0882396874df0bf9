use vstd::prelude::*;

verus! {

/// The caller's operations on cost values can be applied to any arguments.
pub open spec fn arithmetic_total<T, A: Fn(T, T) -> T, S: Fn(T, T) -> T, L: Fn(T, T) -> bool>(
    plus: A,
    minus: S,
    less: L,
) -> bool {
    &&& forall|a: T, b: T| #[trigger] call_requires(plus, (a, b))
    &&& forall|a: T, b: T| #[trigger] call_requires(minus, (a, b))
    &&& forall|a: T, b: T| #[trigger] call_requires(less, (a, b))
}

/// `plus` can be applied to any arguments.
pub open spec fn plus_total<T, A: Fn(T, T) -> T>(plus: A) -> bool {
    forall|a: T, b: T| #[trigger] call_requires(plus, (a, b))
}

/// `partial` holds the running totals of a left fold of `plus` over `items`:
/// `partial[k + 1]` is what `plus(partial[k], items[k])` gave.
pub open spec fn running_totals<T, A: Fn(T, T) -> T>(plus: A, items: Seq<T>, partial: Seq<T>) -> bool {
    &&& partial.len() == items.len() + 1
    &&& forall|k: int|
        0 <= k < items.len() ==> call_ensures(plus, (partial[k], #[trigger] items[k]), partial[k + 1])
}

/// `total` is what folding `plus` over `items` from the left, starting at
/// `start`, gives: `plus(...plus(plus(start, items[0]), items[1])..., items[n - 1])`.
pub open spec fn is_sum<T, A: Fn(T, T) -> T>(plus: A, start: T, items: Seq<T>, total: T) -> bool {
    exists|partial: Seq<T>|
        #[trigger] running_totals(plus, items, partial) && partial[0] == start && partial.last()
            == total
}

/// The costs `matrix[i][rows[i]]` of the first `k` rows, in row order, leaving
/// out the rows without a column.
pub open spec fn assigned_costs<T>(matrix: Seq<Vec<T>>, rows: Seq<Option<usize>>, k: int) -> Seq<T>
    decreases k,
{
    if k <= 0 {
        Seq::empty()
    } else {
        let prev = assigned_costs(matrix, rows, k - 1);
        match rows[k - 1] {
            Some(j) => prev.push(matrix[k - 1]@[j as int]),
            None => prev,
        }
    }
}

/// The cost of an assignment: the sum, in row order, of `matrix[i][j]` over the
/// rows `i` that have a column `j`, starting from `zero`.
pub fn assignment_cost<T: Copy, A: Fn(T, T) -> T>(
    matrix: &[Vec<T>],
    rows: &Vec<Option<usize>>,
    zero: T,
    plus: &A,
) -> (total: T)
    requires
        rows@.len() <= matrix@.len(),
        forall|i: int|
            0 <= i < rows@.len() && (#[trigger] rows@[i]) is Some ==> rows@[i]->0 < matrix@[i]@.len(),
        plus_total(*plus),
    ensures
        is_sum(*plus, zero, assigned_costs(matrix@, rows@, rows@.len() as int), total),
{
    let mut total = zero;
    let ghost mut partial: Seq<T> = seq![zero];
    let mut i: usize = 0;
    while i < rows.len()
        invariant
            i <= rows@.len(),
            rows@.len() <= matrix@.len(),
            forall|i: int|
                0 <= i < rows@.len() && (#[trigger] rows@[i]) is Some ==> rows@[i]->0
                    < matrix@[i]@.len(),
            plus_total(*plus),
            running_totals(*plus, assigned_costs(matrix@, rows@, i as int), partial),
            partial[0] == zero,
            partial.last() == total,
        decreases rows@.len() - i,
    {
        match rows[i] {
            Some(j) => {
                assert(rows@[i as int] is Some);
                let c = matrix[i][j];
                let ghost before = total;
                total = plus(total, c);
                let ghost items = assigned_costs(matrix@, rows@, i + 1);
                assert(items == assigned_costs(matrix@, rows@, i as int).push(c));
                proof {
                    partial = partial.push(total);
                }
            },
            None => {},
        }
        i += 1;
    }
    assert(running_totals(*plus, assigned_costs(matrix@, rows@, rows@.len() as int), partial));
    total
}

} // verus!
