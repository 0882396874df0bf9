//! What any two results of the solvers have in common: their costs agree, and
//! the optimum moves predictably when a row is shifted or the matrix is
//! transposed.

use vstd::prelude::*;

use crate::cost::{assigned_costs, is_sum};
use crate::matching::{all_assigned, is_matching, LapSolution};
use crate::optimality::{
    assignment_value,
    choice_value,
    exact_arithmetic,
    is_full_choice,
    is_permutation,
    lemma_assigned_costs_value,
    lemma_permutation_onto,
    lemma_sum_change_one,
    lemma_sum_congruent,
    lemma_sum_constant,
    lemma_sum_permuted,
    lemma_sum_reads_as_total,
    sum_of,
};
use crate::utils::{column_count, is_rectangular};

verus! {

/// What [`crate::sap::sap_solve`] promises of its result `sol` on the square
/// matrix `cost`: a perfect matching, its total as the row-order sum of its
/// costs, and no permutation cheaper under any exact reading of the
/// arithmetic.
pub open spec fn least_cost_square<T, A: Fn(T, T) -> T, S: Fn(T, T) -> T, L: Fn(T, T) -> bool>(
    plus: A,
    minus: S,
    less: L,
    zero: T,
    cost: Seq<Vec<T>>,
    sol: LapSolution<T>,
) -> bool {
    &&& sol.1@.len() == cost.len()
    &&& sol.2@.len() == cost.len()
    &&& is_matching(sol.1@, sol.2@)
    &&& all_assigned(sol.1@)
    &&& all_assigned(sol.2@)
    &&& is_sum(plus, zero, assigned_costs(cost, sol.1@, cost.len() as int), sol.0)
    &&& forall|val: spec_fn(T) -> int, perm: Seq<int>|
        exact_arithmetic(plus, minus, less, zero, val) && is_permutation(perm, cost.len() as int)
            ==> val(sol.0) <= #[trigger] assignment_value(val, cost, perm)
}

/// What [`crate::utils::solve_padded`] promises of its result `sol` on
/// `matrix`: a matching that gives the smaller side partners, its total as
/// the row-order sum of its costs, and, for a square or rectangular matrix,
/// no such choice cheaper under any exact reading of the arithmetic.
pub open spec fn least_cost_padded<T, A: Fn(T, T) -> T, S: Fn(T, T) -> T, L: Fn(T, T) -> bool>(
    plus: A,
    minus: S,
    less: L,
    zero: T,
    matrix: Seq<Vec<T>>,
    sol: LapSolution<T>,
) -> bool {
    &&& sol.1@.len() == matrix.len()
    &&& sol.2@.len() == column_count(matrix)
    &&& is_matching(sol.1@, sol.2@)
    &&& matrix.len() <= column_count(matrix) ==> all_assigned(sol.1@)
    &&& column_count(matrix) <= matrix.len() ==> all_assigned(sol.2@)
    &&& is_full_choice(sol.1@, matrix.len() as int, column_count(matrix))
    &&& is_sum(plus, zero, assigned_costs(matrix, sol.1@, matrix.len() as int), sol.0)
    &&& matrix.len() == column_count(matrix) || is_rectangular(matrix) ==> forall|
        val: spec_fn(T) -> int,
        choice: Seq<Option<usize>>,
    |
        exact_arithmetic(plus, minus, less, zero, val) && is_full_choice(
            choice,
            matrix.len() as int,
            column_count(matrix),
        ) ==> val(sol.0) <= #[trigger] choice_value(val, matrix, choice)
}

/// The partners named by a complete assignment vector, as integers.
pub open spec fn partners(a: Seq<Option<usize>>) -> Seq<int> {
    Seq::new(a.len(), |r: int| a[r]->0 as int)
}

/// The value of an assignment's total is the value of the costs it chose.
proof fn lemma_total_is_choice_value<T, A: Fn(T, T) -> T, S: Fn(T, T) -> T, L: Fn(T, T) -> bool>(
    plus: A,
    minus: S,
    less: L,
    zero: T,
    val: spec_fn(T) -> int,
    matrix: Seq<Vec<T>>,
    rows: Seq<Option<usize>>,
    total: T,
)
    requires
        exact_arithmetic(plus, minus, less, zero, val),
        rows.len() == matrix.len(),
        is_sum(plus, zero, assigned_costs(matrix, rows, matrix.len() as int), total),
    ensures
        val(total) == choice_value(val, matrix, rows),
{
    let n = matrix.len() as int;
    lemma_sum_reads_as_total(plus, minus, less, zero, val, assigned_costs(matrix, rows, n), total);
    lemma_assigned_costs_value(val, matrix, rows, n);
    lemma_sum_congruent(
        |r: int|
            if rows[r] is Some {
                val(matrix[r]@[rows[r]->0 as int])
            } else {
                0
            },
        |r: int|
            if rows[r] is Some {
                val(matrix[r]@[rows[r]->0 as int])
            } else {
                0
            },
        n,
    );
}

/// A square result's row and column partners are permutations inverse to
/// each other, and its total is worth the cost of the row permutation.
pub proof fn lemma_square_result_value<T, A: Fn(T, T) -> T, S: Fn(T, T) -> T, L: Fn(T, T) -> bool>(
    plus: A,
    minus: S,
    less: L,
    zero: T,
    val: spec_fn(T) -> int,
    cost: Seq<Vec<T>>,
    sol: LapSolution<T>,
)
    requires
        exact_arithmetic(plus, minus, less, zero, val),
        cost.len() <= usize::MAX,
        least_cost_square(plus, minus, less, zero, cost, sol),
    ensures
        is_permutation(partners(sol.1@), cost.len() as int),
        is_permutation(partners(sol.2@), cost.len() as int),
        forall|r: int| 0 <= r < cost.len() ==> #[trigger] partners(sol.2@)[partners(sol.1@)[r]] == r,
        forall|c: int| 0 <= c < cost.len() ==> #[trigger] partners(sol.1@)[partners(sol.2@)[c]] == c,
        val(sol.0) == assignment_value(val, cost, partners(sol.1@)),
{
    let n = cost.len() as int;
    let rows = sol.1@;
    let cols = sol.2@;
    let p = partners(rows);
    let q = partners(cols);
    assert forall|r: int| 0 <= r < n implies #[trigger] q[p[r]] == r && 0 <= p[r] < n by {
        assert(rows[r] is Some);
        assert(p[r] == rows[r]->0 as int);
        assert(cols[rows[r]->0 as int] == Some(r as usize));
    }
    assert forall|c: int| 0 <= c < n implies #[trigger] p[q[c]] == c && 0 <= q[c] < n by {
        assert(cols[c] is Some);
        assert(q[c] == cols[c]->0 as int);
        assert(rows[cols[c]->0 as int] == Some(c as usize));
    }
    assert forall|a: int, b: int| 0 <= a < n && 0 <= b < n && a != b implies #[trigger] p[a] != #[trigger] p[b] by {
        assert(q[p[a]] == a && q[p[b]] == b);
    }
    assert forall|a: int, b: int| 0 <= a < n && 0 <= b < n && a != b implies #[trigger] q[a] != #[trigger] q[b] by {
        assert(p[q[a]] == a && p[q[b]] == b);
    }
    assert forall|r: int| 0 <= r < n implies 0 <= #[trigger] p[r] < n by {
        assert(q[p[r]] == r);
    }
    assert forall|c: int| 0 <= c < n implies 0 <= #[trigger] q[c] < n by {
        assert(p[q[c]] == c);
    }
    lemma_total_is_choice_value(plus, minus, less, zero, val, cost, rows, sol.0);
    assert forall|r: int| 0 <= r < n implies (if rows[r] is Some {
        val(cost[r]@[rows[r]->0 as int])
    } else {
        0
    }) == #[trigger] val(cost[r]@[p[r]]) by {
        assert(rows[r] is Some);
    }
    lemma_sum_congruent(
        |r: int|
            if rows[r] is Some {
                val(cost[r]@[rows[r]->0 as int])
            } else {
                0
            },
        |r: int| val(cost[r]@[p[r]]),
        n,
    );
}

/// Any two results of the square solver on one matrix cost the same under
/// every exact reading of the arithmetic.
pub proof fn lemma_square_results_agree<T, A: Fn(T, T) -> T, S: Fn(T, T) -> T, L: Fn(T, T) -> bool>(
    plus: A,
    minus: S,
    less: L,
    zero: T,
    val: spec_fn(T) -> int,
    cost: Seq<Vec<T>>,
    a: LapSolution<T>,
    b: LapSolution<T>,
)
    requires
        exact_arithmetic(plus, minus, less, zero, val),
        cost.len() <= usize::MAX,
        least_cost_square(plus, minus, less, zero, cost, a),
        least_cost_square(plus, minus, less, zero, cost, b),
    ensures
        val(a.0) == val(b.0),
{
    lemma_square_result_value(plus, minus, less, zero, val, cost, a);
    lemma_square_result_value(plus, minus, less, zero, val, cost, b);
    assert(val(a.0) <= assignment_value(val, cost, partners(b.1@)));
    assert(val(b.0) <= assignment_value(val, cost, partners(a.1@)));
}

/// Any two results of the padded solver on one square or rectangular matrix,
/// whatever the padding values, cost the same under every exact reading of
/// the arithmetic: the LAPJV, Hungarian, Dantzig, LAPMOD and subgradient
/// entry points agree on the optimal cost.
pub proof fn lemma_padded_results_agree<T, A: Fn(T, T) -> T, S: Fn(T, T) -> T, L: Fn(T, T) -> bool>(
    plus: A,
    minus: S,
    less: L,
    zero: T,
    val: spec_fn(T) -> int,
    matrix: Seq<Vec<T>>,
    a: LapSolution<T>,
    b: LapSolution<T>,
)
    requires
        exact_arithmetic(plus, minus, less, zero, val),
        matrix.len() == column_count(matrix) || is_rectangular(matrix),
        least_cost_padded(plus, minus, less, zero, matrix, a),
        least_cost_padded(plus, minus, less, zero, matrix, b),
    ensures
        val(a.0) == val(b.0),
        val(a.0) == choice_value(val, matrix, a.1@),
{
    lemma_total_is_choice_value(plus, minus, less, zero, val, matrix, a.1@, a.0);
    lemma_total_is_choice_value(plus, minus, less, zero, val, matrix, b.1@, b.0);
    assert(val(a.0) <= choice_value(val, matrix, b.1@));
    assert(val(b.0) <= choice_value(val, matrix, a.1@));
}

/// On a square matrix, what the padded solver promises implies what the
/// square solver promises: the subgradient entry point, which runs the padded
/// solver, gives a least-cost permutation as the square solver does.
pub proof fn lemma_padded_square_is_least_cost<T, A: Fn(T, T) -> T, S: Fn(T, T) -> T, L: Fn(T, T) -> bool>(
    plus: A,
    minus: S,
    less: L,
    zero: T,
    cost: Seq<Vec<T>>,
    sol: LapSolution<T>,
)
    requires
        cost.len() <= usize::MAX,
        cost.len() == column_count(cost),
        least_cost_padded(plus, minus, less, zero, cost, sol),
    ensures
        least_cost_square(plus, minus, less, zero, cost, sol),
{
    let n = cost.len() as int;
    assert forall|val: spec_fn(T) -> int, perm: Seq<int>|
        exact_arithmetic(plus, minus, less, zero, val) && is_permutation(perm, n) implies val(sol.0)
        <= #[trigger] assignment_value(val, cost, perm) by {
        let choice = Seq::new(n as nat, |r: int| Some(perm[r] as usize));
        assert forall|r: int| 0 <= r < n implies (#[trigger] choice[r])->0 as int == perm[r] by {
            assert(0 <= perm[r] < n);
        }
        lemma_sum_congruent(
            |r: int| if choice[r] is Some { 1int } else { 0int },
            |r: int| 1int,
            n,
        );
        lemma_sum_constant(1, n);
        assert(is_full_choice(choice, n, n));
        assert(val(sol.0) <= choice_value(val, cost, choice));
        lemma_sum_congruent(
            |r: int|
                if choice[r] is Some {
                    val(cost[r]@[choice[r]->0 as int])
                } else {
                    0
                },
            |r: int| val(cost[r]@[perm[r]]),
            n,
        );
    }
}

/// Adding `d` to every entry of row `k` adds `d` to the cost of every
/// permutation.
pub proof fn lemma_row_shift_value<T>(
    val: spec_fn(T) -> int,
    cost: Seq<Vec<T>>,
    shifted: Seq<Vec<T>>,
    k: int,
    d: int,
    perm: Seq<int>,
)
    requires
        shifted.len() == cost.len(),
        0 <= k < cost.len(),
        forall|i: int, j: int|
            0 <= i < cost.len() && 0 <= j < cost.len() ==> #[trigger] val(shifted[i]@[j]) == val(cost[i]@[j])
                + if i == k {
                d
            } else {
                0
            },
        is_permutation(perm, cost.len() as int),
    ensures
        assignment_value(val, shifted, perm) == assignment_value(val, cost, perm) + d,
{
    let n = cost.len() as int;
    let f = |r: int| val(cost[r]@[perm[r]]);
    let g = |r: int| val(shifted[r]@[perm[r]]);
    assert forall|x: int| 0 <= x < n && x != k implies #[trigger] f(x) == g(x) by {
        assert(0 <= perm[x] < n);
        assert(val(shifted[x]@[perm[x]]) == val(cost[x]@[perm[x]]));
    }
    assert(0 <= perm[k] < n);
    assert(g(k) == f(k) + d);
    lemma_sum_change_one(f, g, n, k);
}

/// Adding `d` to every entry of one row adds `d` to the least cost, and a
/// least-cost assignment before the shift is one after it.
pub proof fn lemma_row_shift_optimum<T, A: Fn(T, T) -> T, S: Fn(T, T) -> T, L: Fn(T, T) -> bool>(
    plus: A,
    minus: S,
    less: L,
    zero: T,
    val: spec_fn(T) -> int,
    cost: Seq<Vec<T>>,
    shifted: Seq<Vec<T>>,
    k: int,
    d: int,
    sol: LapSolution<T>,
    shifted_sol: LapSolution<T>,
)
    requires
        exact_arithmetic(plus, minus, less, zero, val),
        cost.len() <= usize::MAX,
        shifted.len() == cost.len(),
        0 <= k < cost.len(),
        forall|i: int, j: int|
            0 <= i < cost.len() && 0 <= j < cost.len() ==> #[trigger] val(shifted[i]@[j]) == val(cost[i]@[j])
                + if i == k {
                d
            } else {
                0
            },
        least_cost_square(plus, minus, less, zero, cost, sol),
        least_cost_square(plus, minus, less, zero, shifted, shifted_sol),
    ensures
        val(shifted_sol.0) == val(sol.0) + d,
        forall|perm: Seq<int>|
            is_permutation(perm, cost.len() as int) ==> assignment_value(val, shifted, partners(sol.1@))
                <= #[trigger] assignment_value(val, shifted, perm),
{
    lemma_square_result_value(plus, minus, less, zero, val, cost, sol);
    lemma_square_result_value(plus, minus, less, zero, val, shifted, shifted_sol);
    let p = partners(sol.1@);
    let p2 = partners(shifted_sol.1@);
    lemma_row_shift_value(val, cost, shifted, k, d, p);
    lemma_row_shift_value(val, cost, shifted, k, d, p2);
    assert(val(shifted_sol.0) <= assignment_value(val, shifted, p));
    assert(val(sol.0) <= assignment_value(val, cost, p2));
    assert forall|perm: Seq<int>| is_permutation(perm, cost.len() as int) implies assignment_value(
        val,
        shifted,
        p,
    ) <= #[trigger] assignment_value(val, shifted, perm) by {
        lemma_row_shift_value(val, cost, shifted, k, d, perm);
        assert(val(sol.0) <= assignment_value(val, cost, perm));
    }
}

/// Every permutation has an inverse permutation.
pub proof fn lemma_inverse_permutation(pi: Seq<int>, n: int) -> (sigma: Seq<int>)
    requires
        is_permutation(pi, n),
    ensures
        is_permutation(sigma, n),
        forall|r: int| 0 <= r < n ==> #[trigger] sigma[pi[r]] == r,
        forall|c: int| 0 <= c < n ==> #[trigger] pi[sigma[c]] == c,
{
    let sigma = Seq::new(n as nat, |c: int| choose|r: int| 0 <= r < n && pi[r] == c);
    assert forall|c: int| 0 <= c < n implies 0 <= #[trigger] sigma[c] < n && pi[sigma[c]] == c by {
        lemma_permutation_onto(pi, n, c);
    }
    assert forall|r: int| 0 <= r < n implies #[trigger] sigma[pi[r]] == r by {
        let c = pi[r];
        assert(0 <= c < n);
        assert(pi[sigma[c]] == c);
        assert(0 <= sigma[c] < n);
        if sigma[c] != r {
            assert(pi[sigma[c]] != pi[r]);
        }
    }
    assert forall|a: int, b: int| 0 <= a < n && 0 <= b < n && a != b implies #[trigger] sigma[a]
        != #[trigger] sigma[b] by {
        assert(pi[sigma[a]] == a && pi[sigma[b]] == b);
    }
    sigma
}

/// A permutation of the transposed matrix costs what its inverse costs on the
/// matrix itself.
pub proof fn lemma_transpose_value<T>(
    val: spec_fn(T) -> int,
    cost: Seq<Vec<T>>,
    flipped: Seq<Vec<T>>,
    pi: Seq<int>,
    sigma: Seq<int>,
)
    requires
        flipped.len() == cost.len(),
        forall|i: int, j: int|
            0 <= i < cost.len() && 0 <= j < cost.len() ==> #[trigger] val(flipped[i]@[j]) == val(cost[j]@[i]),
        is_permutation(pi, cost.len() as int),
        is_permutation(sigma, cost.len() as int),
        forall|r: int| 0 <= r < cost.len() ==> #[trigger] sigma[pi[r]] == r,
    ensures
        assignment_value(val, flipped, pi) == assignment_value(val, cost, sigma),
{
    let n = cost.len() as int;
    let h = |c: int| val(cost[c]@[sigma[c]]);
    assert forall|r: int| 0 <= r < n implies #[trigger] val(flipped[r]@[pi[r]]) == h(pi[r]) by {
        assert(0 <= pi[r] < n);
        assert(sigma[pi[r]] == r);
    }
    lemma_sum_congruent(|r: int| val(flipped[r]@[pi[r]]), |r: int| h(pi[r]), n);
    lemma_sum_permuted(h, pi, n);
}

/// Transposing the matrix keeps the least cost, and the column partners of
/// a least-cost assignment are a least-cost assignment of the transpose.
pub proof fn lemma_transpose_optimum<T, A: Fn(T, T) -> T, S: Fn(T, T) -> T, L: Fn(T, T) -> bool>(
    plus: A,
    minus: S,
    less: L,
    zero: T,
    val: spec_fn(T) -> int,
    cost: Seq<Vec<T>>,
    flipped: Seq<Vec<T>>,
    sol: LapSolution<T>,
    flipped_sol: LapSolution<T>,
)
    requires
        exact_arithmetic(plus, minus, less, zero, val),
        cost.len() <= usize::MAX,
        flipped.len() == cost.len(),
        forall|i: int, j: int|
            0 <= i < cost.len() && 0 <= j < cost.len() ==> #[trigger] val(flipped[i]@[j]) == val(cost[j]@[i]),
        least_cost_square(plus, minus, less, zero, cost, sol),
        least_cost_square(plus, minus, less, zero, flipped, flipped_sol),
    ensures
        val(flipped_sol.0) == val(sol.0),
        forall|perm: Seq<int>|
            is_permutation(perm, cost.len() as int) ==> assignment_value(val, flipped, partners(sol.2@))
                <= #[trigger] assignment_value(val, flipped, perm),
{
    let n = cost.len() as int;
    lemma_square_result_value(plus, minus, less, zero, val, cost, sol);
    lemma_square_result_value(plus, minus, less, zero, val, flipped, flipped_sol);
    let p = partners(sol.1@);
    let q = partners(sol.2@);
    lemma_transpose_value(val, cost, flipped, q, p);
    let p2 = partners(flipped_sol.1@);
    let s2 = lemma_inverse_permutation(p2, n);
    lemma_transpose_value(val, cost, flipped, p2, s2);
    assert(val(flipped_sol.0) <= assignment_value(val, flipped, q));
    assert(val(sol.0) <= assignment_value(val, cost, s2));
    assert forall|perm: Seq<int>| is_permutation(perm, n) implies assignment_value(val, flipped, q)
        <= #[trigger] assignment_value(val, flipped, perm) by {
        let inv = lemma_inverse_permutation(perm, n);
        lemma_transpose_value(val, cost, flipped, perm, inv);
        assert(val(sol.0) <= assignment_value(val, cost, inv));
    }
}

} // verus!
