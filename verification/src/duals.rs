//! Dual values of the shortest augmenting path method, read through an exact
//! integer reading `val` of the costs, and the facts that make the final
//! assignment one of minimum cost.

use vstd::prelude::*;

use crate::cost::assigned_costs;
use crate::optimality::{
    assignment_value,
    exact_arithmetic,
    is_permutation,
    items_value,
    lemma_sum_add,
    lemma_sum_congruent,
    lemma_sum_le,
    lemma_sum_permuted,
    sum_of,
};
use crate::sap::partial_column_matching;

verus! {

/// The reduced cost of row `r`, column `j` (both 1-based): `cost - u[r] - v[j]`.
pub open spec fn reduced<T>(
    val: spec_fn(T) -> int,
    cost: Seq<Vec<T>>,
    u: Seq<T>,
    v: Seq<T>,
    r: int,
    j: int,
) -> int {
    val(cost[r - 1]@[j - 1]) - val(u[r]) - val(v[j])
}

/// The rows `1..=k` have no negative reduced cost.
pub open spec fn rows_feasible<T>(
    val: spec_fn(T) -> int,
    cost: Seq<Vec<T>>,
    u: Seq<T>,
    v: Seq<T>,
    k: int,
    n: int,
) -> bool {
    forall|r: int, j: int| 1 <= r <= k && 1 <= j <= n ==> #[trigger] reduced(val, cost, u, v, r, j) >= 0
}

/// Row `r` has no negative reduced cost.
pub open spec fn row_feasible<T>(
    val: spec_fn(T) -> int,
    cost: Seq<Vec<T>>,
    u: Seq<T>,
    v: Seq<T>,
    r: int,
    n: int,
) -> bool {
    forall|j: int| 1 <= j <= n ==> #[trigger] reduced(val, cost, u, v, r, j) >= 0
}

/// Every column that holds a row has reduced cost `0` with it.
pub open spec fn matched_tight<T>(
    val: spec_fn(T) -> int,
    cost: Seq<Vec<T>>,
    u: Seq<T>,
    v: Seq<T>,
    p: Seq<usize>,
    n: int,
) -> bool {
    forall|j: int| 1 <= j <= n && p[j] != 0 ==> #[trigger] reduced(val, cost, u, v, p[j] as int, j) == 0
}

/// Every visited column has reduced cost `0` with the row of the column it
/// was reached from.
pub open spec fn tree_tight<T>(
    val: spec_fn(T) -> int,
    cost: Seq<Vec<T>>,
    u: Seq<T>,
    v: Seq<T>,
    p: Seq<usize>,
    way: Seq<usize>,
    used: Seq<bool>,
    n: int,
) -> bool {
    forall|j: int|
        1 <= j <= n && used[j] ==> #[trigger] reduced(val, cost, u, v, p[way[j] as int] as int, j) == 0
}

/// For each unvisited column with a recorded slack, the slack is the reduced
/// cost from the row it was recorded from, and no more than the reduced cost
/// from the row of any visited column.
pub open spec fn slack_bounds<T>(
    val: spec_fn(T) -> int,
    cost: Seq<Vec<T>>,
    u: Seq<T>,
    v: Seq<T>,
    p: Seq<usize>,
    way: Seq<usize>,
    used: Seq<bool>,
    minv: Seq<Option<T>>,
    n: int,
) -> bool {
    &&& forall|j: int|
        1 <= j <= n && !used[j] && minv[j] is Some ==> val(minv[j]->0) == #[trigger] reduced(
            val,
            cost,
            u,
            v,
            p[way[j] as int] as int,
            j,
        )
    &&& forall|j: int, k: int|
        1 <= j <= n && 0 <= k <= n && !used[j] && used[k] && minv[j] is Some ==> val(minv[j]->0)
            <= #[trigger] reduced(val, cost, u, v, p[k] as int, j)
}

/// Row `r` is the row of some visited column.
pub open spec fn in_tree(p: Seq<usize>, used: Seq<bool>, n: int, r: int) -> bool {
    exists|k: int| 0 <= k <= n && used[k] && #[trigger] p[k] == r
}

/// Moving the dual values by the shortest distance `d` keeps the rows
/// feasible and the matched and visited edges tight, and lowers each slack by
/// `d`, so that the column `j1` of least slack becomes tight.
pub proof fn lemma_shift_duals<T, A: Fn(T, T) -> T, S: Fn(T, T) -> T, L: Fn(T, T) -> bool>(
    plus: A,
    minus: S,
    less: L,
    zero: T,
    val: spec_fn(T) -> int,
    cost: Seq<Vec<T>>,
    u0: Seq<T>,
    v0: Seq<T>,
    minv0: Seq<Option<T>>,
    u: Seq<T>,
    v: Seq<T>,
    minv: Seq<Option<T>>,
    p: Seq<usize>,
    way: Seq<usize>,
    used: Seq<bool>,
    d: T,
    j1: int,
    i: int,
    n: int,
    first: bool,
)
    requires
        exact_arithmetic(plus, minus, less, zero, val),
        1 <= i <= n,
        partial_column_matching(p, n, i - 1),
        p[0] == i,
        u0.len() == n + 1,
        v0.len() == n + 1,
        u.len() == n + 1,
        v.len() == n + 1,
        minv0.len() == n + 1,
        minv.len() == n + 1,
        way.len() == n + 1,
        used.len() == n + 1,
        forall|j: int| 0 <= j <= n ==> #[trigger] way[j] <= n,
        used[0],
        first ==> forall|j: int| 1 <= j <= n ==> !(#[trigger] used[j]),
        forall|j: int| 1 <= j <= n && #[trigger] used[j] ==> p[j] != 0 && used[way[j] as int],
        forall|j: int|
            1 <= j <= n && !(#[trigger] used[j]) && minv0[j] is Some ==> used[way[j] as int],
        rows_feasible(val, cost, u0, v0, i - 1, n),
        matched_tight(val, cost, u0, v0, p, n),
        tree_tight(val, cost, u0, v0, p, way, used, n),
        !first ==> row_feasible(val, cost, u0, v0, i, n),
        slack_bounds(val, cost, u0, v0, p, way, used, minv0, n),
        forall|j: int| 1 <= j <= n && !(#[trigger] used[j]) ==> minv0[j] is Some,
        1 <= j1 <= n,
        !used[j1],
        val(minv0[j1]->0) == val(d),
        forall|j: int| 1 <= j <= n && !(#[trigger] used[j]) ==> val(d) <= val(minv0[j]->0),
        forall|k: int|
            0 <= k <= n && #[trigger] used[k] ==> call_ensures(plus, (u0[p[k] as int], d), u[p[k] as int])
                && call_ensures(minus, (v0[k], d), v[k]),
        forall|k: int| 0 <= k <= n && !(#[trigger] used[k]) ==> v[k] == v0[k],
        forall|r: int| 0 <= r <= n && !in_tree(p, used, n, r) ==> #[trigger] u[r] == u0[r],
        forall|k: int|
            1 <= k <= n && !(#[trigger] used[k]) && minv0[k] is Some ==> minv[k] is Some && call_ensures(
                minus,
                (minv0[k]->0, d),
                minv[k]->0,
            ),
    ensures
        rows_feasible(val, cost, u, v, i, n),
        matched_tight(val, cost, u, v, p, n),
        tree_tight(val, cost, u, v, p, way, used, n),
        slack_bounds(val, cost, u, v, p, way, used, minv, n),
        val(minv[j1]->0) == 0,
{
    let dv = val(d);
    // Rows of visited columns move up by `d`; visited columns move down by `d`.
    assert forall|k: int| 0 <= k <= n && #[trigger] used[k] implies val(u[p[k] as int]) == val(
        u0[p[k] as int],
    ) + dv && val(v[k]) == val(v0[k]) - dv by {
        assert(call_ensures(plus, (u0[p[k] as int], d), u[p[k] as int]));
        assert(call_ensures(minus, (v0[k], d), v[k]));
    }
    // The distance is not negative once row `i` is feasible.
    assert(!first ==> dv >= 0) by {
        if !first {
            let w = way[j1] as int;
            assert(used[w]);
            assert(val(minv0[j1]->0) == reduced(val, cost, u0, v0, p[w] as int, j1));
            if w == 0 {
                assert(reduced(val, cost, u0, v0, i, j1) >= 0);
            } else {
                assert(1 <= p[w] <= i - 1);
                assert(reduced(val, cost, u0, v0, p[w] as int, j1) >= 0);
            }
        }
    }
    // The row of a visited column belongs to no other column.
    assert forall|a: int, b: int| 0 <= a <= n && 0 <= b <= n && a != b && used[a] && used[b] implies p[a]
        != p[b] by {
        if a == 0 {
            assert(p[b] <= i - 1);
        } else if b == 0 {
            assert(p[a] <= i - 1);
        } else {
            assert(p[a] != 0);
        }
    }
    assert forall|r: int, j: int| 1 <= r <= i && 1 <= j <= n implies #[trigger] reduced(
        val,
        cost,
        u,
        v,
        r,
        j,
    ) >= 0 by {
        if in_tree(p, used, n, r) {
            let k = choose|k: int| 0 <= k <= n && used[k] && #[trigger] p[k] == r;
            if used[j] {
                assert(val(u[r]) == val(u0[r]) + dv);
                assert(val(v[j]) == val(v0[j]) - dv);
                if r < i {
                    assert(reduced(val, cost, u0, v0, r, j) >= 0);
                } else {
                    assert(!first);
                    assert(reduced(val, cost, u0, v0, r, j) >= 0);
                }
            } else {
                assert(minv0[j] is Some);
                assert(val(minv0[j]->0) <= reduced(val, cost, u0, v0, p[k] as int, j));
            }
        } else {
            assert(u[r] == u0[r]);
            assert(r < i) by {
                if r == i {
                    assert(p[0] == r);
                }
            }
            assert(reduced(val, cost, u0, v0, r, j) >= 0);
            if used[j] {
                assert(!first);
                assert(val(v[j]) == val(v0[j]) - dv);
            }
        }
    }
    assert forall|j: int| 1 <= j <= n && p[j] != 0 implies #[trigger] reduced(
        val,
        cost,
        u,
        v,
        p[j] as int,
        j,
    ) == 0 by {
        let r = p[j] as int;
        assert(reduced(val, cost, u0, v0, r, j) == 0);
        if used[j] {
            assert(val(u[r]) == val(u0[r]) + dv);
        } else {
            assert(!in_tree(p, used, n, r)) by {
                if in_tree(p, used, n, r) {
                    let k = choose|k: int| 0 <= k <= n && used[k] && #[trigger] p[k] == r;
                    if k == 0 {
                        assert(p[j] <= i - 1);
                    } else {
                        assert(p[k] != p[j]);
                    }
                }
            }
            assert(u[r] == u0[r]);
        }
    }
    assert forall|j: int| 1 <= j <= n && used[j] implies #[trigger] reduced(
        val,
        cost,
        u,
        v,
        p[way[j] as int] as int,
        j,
    ) == 0 by {
        let w = way[j] as int;
        assert(used[w]);
        assert(reduced(val, cost, u0, v0, p[w] as int, j) == 0);
        assert(val(u[p[w] as int]) == val(u0[p[w] as int]) + dv);
    }
    assert forall|j: int|
        1 <= j <= n && !used[j] && minv[j] is Some implies val(minv[j]->0) == #[trigger] reduced(
        val,
        cost,
        u,
        v,
        p[way[j] as int] as int,
        j,
    ) by {
        let w = way[j] as int;
        assert(minv0[j] is Some);
        assert(call_ensures(minus, (minv0[j]->0, d), minv[j]->0));
        assert(val(minv0[j]->0) == reduced(val, cost, u0, v0, p[w] as int, j));
        assert(val(u[p[w] as int]) == val(u0[p[w] as int]) + dv);
    }
    assert forall|j: int, k: int|
        1 <= j <= n && 0 <= k <= n && !used[j] && used[k] && minv[j] is Some implies val(minv[j]->0)
        <= #[trigger] reduced(val, cost, u, v, p[k] as int, j) by {
        assert(minv0[j] is Some);
        assert(call_ensures(minus, (minv0[j]->0, d), minv[j]->0));
        assert(val(minv0[j]->0) <= reduced(val, cost, u0, v0, p[k] as int, j));
        assert(val(u[p[k] as int]) == val(u0[p[k] as int]) + dv);
    }
    assert(call_ensures(minus, (minv0[j1]->0, d), minv[j1]->0));
}

proof fn lemma_full_assigned_costs<T>(cost: Seq<Vec<T>>, rows: Seq<Option<usize>>, k: int)
    requires
        0 <= k <= rows.len(),
        forall|r: int| 0 <= r < rows.len() ==> (#[trigger] rows[r]) is Some,
    ensures
        assigned_costs(cost, rows, k).len() == k,
        forall|q: int| 0 <= q < k ==> #[trigger] assigned_costs(cost, rows, k)[q] == cost[q]@[rows[q]->0 as int],
    decreases k,
{
    if k > 0 {
        lemma_full_assigned_costs(cost, rows, k - 1);
        assert(rows[k - 1] is Some);
    }
}

/// A complete assignment whose edges are all tight, under dual values with
/// no negative reduced cost, costs no more than any other complete assignment.
pub proof fn lemma_tight_assignment_is_minimal<T>(
    val: spec_fn(T) -> int,
    cost: Seq<Vec<T>>,
    u: Seq<T>,
    v: Seq<T>,
    p: Seq<usize>,
    rows: Seq<Option<usize>>,
    n: int,
    perm: Seq<int>,
)
    requires
        n >= 0,
        cost.len() == n,
        u.len() == n + 1,
        v.len() == n + 1,
        p.len() == n + 1,
        rows.len() == n,
        forall|r: int| 0 <= r < n ==> (#[trigger] rows[r]) is Some,
        forall|r: int| 0 <= r < n ==> (#[trigger] rows[r])->0 < n && p[rows[r]->0 + 1] == r + 1,
        rows_feasible(val, cost, u, v, n, n),
        matched_tight(val, cost, u, v, p, n),
        is_permutation(perm, n),
    ensures
        items_value(val, assigned_costs(cost, rows, n)) <= assignment_value(val, cost, perm),
{
    let sigma = Seq::new(n as nat, |r: int| rows[r]->0 as int);
    assert forall|a: int, b: int| 0 <= a < n && 0 <= b < n && a != b implies #[trigger] sigma[a]
        != #[trigger] sigma[b] by {
        assert(rows[a] is Some && rows[b] is Some);
        assert(p[rows[a]->0 + 1] == a + 1);
        assert(p[rows[b]->0 + 1] == b + 1);
    }
    assert forall|r: int| 0 <= r < n implies 0 <= #[trigger] sigma[r] < n by {
        assert(rows[r] is Some);
    }
    assert(is_permutation(sigma, n));
    let items = assigned_costs(cost, rows, n);
    lemma_full_assigned_costs(cost, rows, n);
    let fu = |r: int| val(u[r + 1]);
    let fv = |c: int| val(v[c + 1]);
    let chosen = |r: int| val(cost[r]@[sigma[r]]);
    let other = |r: int| val(cost[r]@[perm[r]]);
    let v_sigma = |r: int| fv(sigma[r]);
    let v_perm = |r: int| fv(perm[r]);
    let dual_sigma = |r: int| fu(r) + v_sigma(r);
    let dual_perm = |r: int| fu(r) + v_perm(r);
    // The chosen assignment is worth exactly the dual total.
    lemma_sum_congruent(|k: int| val(items[k]), chosen, n);
    assert forall|r: int| 0 <= r < n implies #[trigger] chosen(r) == dual_sigma(r) by {
        assert(rows[r] is Some);
        let j = rows[r]->0 + 1;
        assert(p[j] == r + 1);
        assert(reduced(val, cost, u, v, p[j] as int, j) == 0);
    }
    lemma_sum_congruent(chosen, dual_sigma, n);
    lemma_sum_add(fu, v_sigma, dual_sigma, n);
    lemma_sum_permuted(fv, sigma, n);
    // Any other assignment is worth at least the dual total.
    assert forall|r: int| 0 <= r < n implies #[trigger] dual_perm(r) <= other(r) by {
        assert(reduced(val, cost, u, v, r + 1, perm[r] + 1) >= 0);
    }
    lemma_sum_le(dual_perm, other, n);
    lemma_sum_add(fu, v_perm, dual_perm, n);
    lemma_sum_permuted(fv, perm, n);
}

} // verus!
