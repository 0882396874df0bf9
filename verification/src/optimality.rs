//! What it means for an assignment to be of minimum cost, when the caller's
//! arithmetic is exact on some integer reading of the cost values, and the
//! facts about sums that the proofs of minimality use.

use vstd::prelude::*;
use vstd::relations::injective_on;
use vstd::set_lib::*;

use crate::cost::{assigned_costs, is_sum, running_totals};
use crate::matching::{all_assigned, is_matching};

verus! {

/// `val` reads cost values as integers, and the caller's operations are exact
/// integer arithmetic under that reading: `zero` reads as `0`, `plus` adds,
/// `minus` subtracts and `less` compares.
pub open spec fn exact_arithmetic<T, A: Fn(T, T) -> T, S: Fn(T, T) -> T, L: Fn(T, T) -> bool>(
    plus: A,
    minus: S,
    less: L,
    zero: T,
    val: spec_fn(T) -> int,
) -> bool {
    &&& val(zero) == 0
    &&& forall|a: T, b: T, r: T| #[trigger] call_ensures(plus, (a, b), r) ==> val(r) == val(a) + val(b)
    &&& forall|a: T, b: T, r: T| #[trigger] call_ensures(minus, (a, b), r) ==> val(r) == val(a) - val(b)
    &&& forall|a: T, b: T, r: bool| #[trigger] call_ensures(less, (a, b), r) ==> r == (val(a) < val(b))
}

/// `f(0) + f(1) + ... + f(n - 1)`.
pub open spec fn sum_of(f: spec_fn(int) -> int, n: int) -> int
    decreases n,
{
    if n <= 0 {
        0
    } else {
        sum_of(f, n - 1) + f(n - 1)
    }
}

/// `perm` gives each of the rows `0..n` its own column in `0..n`.
pub open spec fn is_permutation(perm: Seq<int>, n: int) -> bool {
    &&& perm.len() == n
    &&& forall|r: int| 0 <= r < n ==> 0 <= #[trigger] perm[r] < n
    &&& forall|a: int, b: int| 0 <= a < n && 0 <= b < n && a != b ==> #[trigger] perm[a] != #[trigger] perm[b]
}

/// The cost, read through `val`, of giving row `r` the column `perm[r]`, summed
/// over all rows of `perm`.
pub open spec fn assignment_value<T>(val: spec_fn(T) -> int, cost: Seq<Vec<T>>, perm: Seq<int>) -> int {
    sum_of(|r: int| val(cost[r]@[perm[r]]), perm.len() as int)
}

/// The sum of the values of the items, read through `val`.
pub open spec fn items_value<T>(val: spec_fn(T) -> int, items: Seq<T>) -> int {
    sum_of(|k: int| val(items[k]), items.len() as int)
}

/// Sums of functions that agree below `m` agree.
pub proof fn lemma_sum_congruent(f: spec_fn(int) -> int, g: spec_fn(int) -> int, m: int)
    requires
        forall|x: int| 0 <= x < m ==> #[trigger] f(x) == g(x),
    ensures
        sum_of(f, m) == sum_of(g, m),
    decreases m,
{
    if m > 0 {
        lemma_sum_congruent(f, g, m - 1);
    }
}

/// `n * c` as a sum of `n` terms `c`.
pub proof fn lemma_sum_constant(c: int, n: int)
    requires
        n >= 0,
    ensures
        sum_of(|r: int| c, n) == n * c,
    decreases n,
{
    if n > 0 {
        lemma_sum_constant(c, n - 1);
        let f = |r: int| c;
        assert(sum_of(f, n) == sum_of(f, n - 1) + f(n - 1));
        assert((n - 1) * c + c == n * c) by (nonlinear_arith);
    } else {
        assert(n * c == 0) by (nonlinear_arith)
            requires
                n == 0,
        ;
    }
}

/// Changing one term of a sum changes the sum by the difference.
pub proof fn lemma_sum_change_one(f: spec_fn(int) -> int, g: spec_fn(int) -> int, m: int, k: int)
    requires
        0 <= k < m,
        forall|x: int| 0 <= x < m && x != k ==> #[trigger] f(x) == g(x),
    ensures
        sum_of(g, m) == sum_of(f, m) - f(k) + g(k),
    decreases m,
{
    if m - 1 == k {
        lemma_sum_congruent(f, g, m - 1);
    } else {
        lemma_sum_change_one(f, g, m - 1, k);
    }
}

/// The sum of `f` and `g` term by term.
pub proof fn lemma_sum_add(f: spec_fn(int) -> int, g: spec_fn(int) -> int, h: spec_fn(int) -> int, m: int)
    requires
        forall|x: int| 0 <= x < m ==> #[trigger] h(x) == f(x) + g(x),
    ensures
        sum_of(h, m) == sum_of(f, m) + sum_of(g, m),
    decreases m,
{
    if m > 0 {
        lemma_sum_add(f, g, h, m - 1);
    }
}

/// A sum of terms each at most the matching term of another sum is at most
/// that sum.
pub proof fn lemma_sum_le(f: spec_fn(int) -> int, g: spec_fn(int) -> int, m: int)
    requires
        forall|x: int| 0 <= x < m ==> #[trigger] f(x) <= g(x),
    ensures
        sum_of(f, m) <= sum_of(g, m),
    decreases m,
{
    if m > 0 {
        lemma_sum_le(f, g, m - 1);
    }
}

/// A permutation of `0..n` reaches every column.
pub proof fn lemma_permutation_onto(perm: Seq<int>, n: int, c: int)
    requires
        is_permutation(perm, n),
        0 <= c < n,
    ensures
        exists|r: int| 0 <= r < n && perm[r] == c,
{
    let rows = set_int_range(0, n);
    let f = |r: int| perm[r];
    lemma_int_range(0, n);
    assert(injective_on(f, rows));
    let image = rows.map(f);
    lemma_map_size(rows, image, f);
    assert(image.subset_of(rows)) by {
        assert forall|x: int| image.contains(x) implies rows.contains(x) by {
            let r = choose|r: int| rows.contains(r) && f(r) == x;
        }
    }
    lemma_subset_equality(image, rows);
    assert(image.contains(c));
    let r = choose|r: int| rows.contains(r) && f(r) == c;
    assert(0 <= r < n && perm[r] == c);
}

/// Summing `g` over the columns of a permutation of `0..n` is summing `g`
/// over `0..n`.
pub proof fn lemma_sum_permuted(g: spec_fn(int) -> int, perm: Seq<int>, n: int)
    requires
        is_permutation(perm, n),
    ensures
        sum_of(|r: int| g(perm[r]), n) == sum_of(g, n),
    decreases n,
{
    if n > 0 {
        lemma_permutation_onto(perm, n, n - 1);
        let k = choose|r: int| 0 <= r < n && perm[r] == n - 1;
        // Swap the column `n - 1` to the last row.
        let swapped = perm.update(k, perm[n - 1]).update(n - 1, n - 1);
        assert forall|a: int, b: int| 0 <= a < n && 0 <= b < n && a != b implies #[trigger] swapped[a]
            != #[trigger] swapped[b] by {
            if a != k && a != n - 1 && b != k && b != n - 1 {
                assert(perm[a] != perm[b]);
            } else if a == n - 1 || b == n - 1 {
            } else if a == k {
                assert(perm[n - 1] != perm[b]);
            } else {
                assert(perm[a] != perm[n - 1]);
            }
        }
        let shorter = swapped.subrange(0, n - 1);
        assert forall|r: int| 0 <= r < n - 1 implies 0 <= #[trigger] shorter[r] < n - 1 by {
            assert(swapped[r] != swapped[n - 1]);
            if r != k {
                assert(perm[r] != perm[k]);
            } else {
                assert(perm[n - 1] != perm[k]);
            }
        }
        assert forall|a: int, b: int| 0 <= a < n - 1 && 0 <= b < n - 1 && a != b implies #[trigger] shorter[a]
            != #[trigger] shorter[b] by {
            assert(swapped[a] != swapped[b]);
        }
        lemma_sum_permuted(g, shorter, n - 1);
        let f_perm = |r: int| g(perm[r]);
        let f_swapped = |r: int| g(swapped[r]);
        let f_shorter = |r: int| g(shorter[r]);
        lemma_sum_congruent(f_shorter, f_swapped, n - 1);
        if k == n - 1 {
            lemma_sum_congruent(f_perm, f_swapped, n);
        } else {
            let f_mid = |r: int| g(perm.update(k, perm[n - 1])[r]);
            lemma_sum_change_one(f_perm, f_mid, n, k);
            lemma_sum_change_one(f_mid, f_swapped, n, n - 1);
        }
    }
}

/// With exact arithmetic, a left fold of `plus` from `zero` reads as the sum
/// of the items.
pub proof fn lemma_sum_reads_as_total<T, A: Fn(T, T) -> T, S: Fn(T, T) -> T, L: Fn(T, T) -> bool>(
    plus: A,
    minus: S,
    less: L,
    zero: T,
    val: spec_fn(T) -> int,
    items: Seq<T>,
    total: T,
)
    requires
        exact_arithmetic(plus, minus, less, zero, val),
        is_sum(plus, zero, items, total),
    ensures
        val(total) == items_value(val, items),
{
    let partial = choose|partial: Seq<T>|
        #[trigger] running_totals(plus, items, partial) && partial[0] == zero && partial.last() == total;
    let f = |k: int| val(items[k]);
    assert forall|m: int| 0 <= m <= items.len() implies val(#[trigger] partial[m]) == sum_of(f, m) by {
        lemma_prefix_total(plus, minus, less, zero, val, items, partial, m);
    }
}

proof fn lemma_prefix_total<T, A: Fn(T, T) -> T, S: Fn(T, T) -> T, L: Fn(T, T) -> bool>(
    plus: A,
    minus: S,
    less: L,
    zero: T,
    val: spec_fn(T) -> int,
    items: Seq<T>,
    partial: Seq<T>,
    m: int,
)
    requires
        exact_arithmetic(plus, minus, less, zero, val),
        running_totals(plus, items, partial),
        partial[0] == zero,
        0 <= m <= items.len(),
    ensures
        val(partial[m]) == sum_of(|k: int| val(items[k]), m),
    decreases m,
{
    if m > 0 {
        lemma_prefix_total(plus, minus, less, zero, val, items, partial, m - 1);
        assert(call_ensures(plus, (partial[m - 1], items[m - 1]), partial[m]));
    }
}

/// A sum of terms that are all `0` is `0`; of terms none negative, not negative.
pub proof fn lemma_sum_nonnegative(f: spec_fn(int) -> int, m: int)
    requires
        forall|x: int| 0 <= x < m ==> #[trigger] f(x) >= 0,
    ensures
        sum_of(f, m) >= 0,
    decreases m,
{
    if m > 0 {
        lemma_sum_nonnegative(f, m - 1);
    }
}

/// The number of rows of `choice` that are given a column.
pub open spec fn chosen_count(choice: Seq<Option<usize>>) -> int {
    sum_of(|r: int| if choice[r] is Some { 1int } else { 0int }, choice.len() as int)
}

/// `choice` gives rows of an `nrows × ncols` matrix distinct columns, as many
/// rows as the smaller side has.
pub open spec fn is_full_choice(choice: Seq<Option<usize>>, nrows: int, ncols: int) -> bool {
    &&& choice.len() == nrows
    &&& forall|r: int| 0 <= r < nrows && (#[trigger] choice[r]) is Some ==> choice[r]->0 < ncols
    &&& forall|a: int, b: int|
        0 <= a < nrows && 0 <= b < nrows && a != b && (#[trigger] choice[a]) is Some
            && (#[trigger] choice[b]) is Some ==> choice[a]->0 != choice[b]->0
    &&& chosen_count(choice) == if nrows <= ncols {
        nrows
    } else {
        ncols
    }
}

/// The cost, read through `val`, of the rows that `choice` gives a column.
pub open spec fn choice_value<T>(val: spec_fn(T) -> int, matrix: Seq<Vec<T>>, choice: Seq<Option<usize>>) -> int {
    sum_of(
        |r: int|
            if choice[r] is Some {
                val(matrix[r]@[choice[r]->0 as int])
            } else {
                0
            },
        choice.len() as int,
    )
}

/// The rows of `tau` without a column.
pub open spec fn open_rows(tau: Seq<Option<usize>>) -> int {
    sum_of(|r: int| if tau[r] is None { 1int } else { 0int }, tau.len() as int)
}

/// A partial assignment of distinct columns of `0..dim` to rows of `0..dim`
/// extends to a permutation; the rows without a column get columns that the
/// partial assignment does not use.
pub proof fn lemma_extend_to_permutation(tau: Seq<Option<usize>>, dim: int) -> (pi: Seq<int>)
    requires
        tau.len() == dim,
        dim <= usize::MAX,
        forall|r: int| 0 <= r < dim && (#[trigger] tau[r]) is Some ==> tau[r]->0 < dim,
        forall|a: int, b: int|
            0 <= a < dim && 0 <= b < dim && a != b && (#[trigger] tau[a]) is Some && (#[trigger] tau[b]) is Some
                ==> tau[a]->0 != tau[b]->0,
    ensures
        is_permutation(pi, dim),
        forall|r: int| 0 <= r < dim && (#[trigger] tau[r]) is Some ==> pi[r] == tau[r]->0,
        forall|r: int, q: int|
            0 <= r < dim && 0 <= q < dim && (#[trigger] tau[r]) is None && (#[trigger] tau[q]) is Some
                ==> pi[r] != tau[q]->0,
    decreases open_rows(tau),
{
    if exists|r: int| 0 <= r < dim && tau[r] is None {
        let r0 = choose|r: int| 0 <= r < dim && tau[r] is None;
        // Some column is not used: the used ones are at most the rows other than `r0`.
        let rows = Set::new(|r: int| 0 <= r < dim && tau[r] is Some);
        let f = |r: int| tau[r]->0 as int;
        let used = rows.map(f);
        lemma_int_range(0, dim);
        assert(rows.subset_of(set_int_range(0, dim).remove(r0)));
        lemma_len_subset(rows, set_int_range(0, dim).remove(r0));
        lemma_map_size_bound(rows, used, f);
        assert(exists|c: int| 0 <= c < dim && !used.contains(c)) by {
            if forall|c: int| 0 <= c < dim ==> used.contains(c) {
                assert(set_int_range(0, dim).subset_of(used));
                lemma_len_subset(set_int_range(0, dim), used);
            }
        }
        let c0 = choose|c: int| 0 <= c < dim && !used.contains(c);
        assert forall|q: int| 0 <= q < dim && tau[q] is Some implies tau[q]->0 != c0 by {
            assert(rows.contains(q));
            assert(used.contains(f(q)));
        }
        let tau2 = tau.update(r0, Some(c0 as usize));
        let ind = |r: int| if tau[r] is None { 1int } else { 0int };
        let ind2 = |r: int| if tau2[r] is None { 1int } else { 0int };
        lemma_sum_change_one(ind, ind2, dim, r0);
        lemma_sum_nonnegative(ind2, dim);
        assert forall|a: int, b: int|
            0 <= a < dim && 0 <= b < dim && a != b && (#[trigger] tau2[a]) is Some && (#[trigger] tau2[b])
                is Some implies tau2[a]->0 != tau2[b]->0 by {
            if a != r0 && b != r0 {
                assert(tau[a] is Some && tau[b] is Some);
            }
        }
        let pi = lemma_extend_to_permutation(tau2, dim);
        assert forall|r: int, q: int|
            0 <= r < dim && 0 <= q < dim && (#[trigger] tau[r]) is None && (#[trigger] tau[q]) is Some
                implies pi[r] != tau[q]->0 by {
            assert(tau2[q] == tau[q]);
            if r == r0 {
                assert(pi[r] == c0);
            } else {
                assert(tau2[r] is None);
            }
        }
        assert forall|r: int| 0 <= r < dim && (#[trigger] tau[r]) is Some implies pi[r] == tau[r]->0 by {
            assert(tau2[r] == tau[r]);
        }
        pi
    } else {
        let pi = Seq::new(dim as nat, |r: int| tau[r]->0 as int);
        assert forall|a: int, b: int| 0 <= a < dim && 0 <= b < dim && a != b implies #[trigger] pi[a]
            != #[trigger] pi[b] by {
            assert(tau[a] is Some && tau[b] is Some);
        }
        assert forall|r: int| 0 <= r < dim implies 0 <= #[trigger] pi[r] < dim by {
            assert(tau[r] is Some);
        }
        pi
    }
}

/// A sum whose terms vanish from `k` on is its sum up to `k`.
pub proof fn lemma_sum_zero_tail(f: spec_fn(int) -> int, k: int, m: int)
    requires
        0 <= k <= m,
        forall|x: int| k <= x < m ==> #[trigger] f(x) == 0,
    ensures
        sum_of(f, m) == sum_of(f, k),
    decreases m - k,
{
    if m > k {
        lemma_sum_zero_tail(f, k, m - 1);
    }
}

/// Counting the `x < m` with `p(x)` by a sum of ones and zeros gives the size of
/// the set of those `x`.
pub proof fn lemma_count_is_set_size(p: spec_fn(int) -> bool, m: int)
    requires
        m >= 0,
    ensures
        Set::new(|x: int| 0 <= x < m && p(x)).finite(),
        sum_of(|x: int| if p(x) { 1int } else { 0int }, m) == Set::new(|x: int| 0 <= x < m && p(x)).len(),
    decreases m,
{
    let s = Set::new(|x: int| 0 <= x < m && p(x));
    lemma_int_range(0, m);
    lemma_len_subset(s, set_int_range(0, m));
    if m > 0 {
        lemma_count_is_set_size(p, m - 1);
        let prev = Set::new(|x: int| 0 <= x < m - 1 && p(x));
        if p(m - 1) {
            assert(s =~= prev.insert(m - 1));
        } else {
            assert(s =~= prev);
        }
    }
}

/// The items of an assignment's costs, read through `val`, sum to the value of
/// the rows that have a column.
pub proof fn lemma_assigned_costs_value<T>(
    val: spec_fn(T) -> int,
    matrix: Seq<Vec<T>>,
    rows: Seq<Option<usize>>,
    k: int,
)
    requires
        0 <= k <= rows.len(),
    ensures
        items_value(val, assigned_costs(matrix, rows, k)) == sum_of(
            |r: int|
                if rows[r] is Some {
                    val(matrix[r]@[rows[r]->0 as int])
                } else {
                    0
                },
            k,
        ),
    decreases k,
{
    if k > 0 {
        lemma_assigned_costs_value(val, matrix, rows, k - 1);
        let prev = assigned_costs(matrix, rows, k - 1);
        let cur = assigned_costs(matrix, rows, k);
        if rows[k - 1] is Some {
            assert(cur == prev.push(matrix[k - 1]@[rows[k - 1]->0 as int]));
            lemma_sum_congruent(|q: int| val(cur[q]), |q: int| val(prev[q]), prev.len() as int);
        }
    }
}

/// A matching of an `nrows × ncols` matrix that gives every row (when rows
/// are no more than columns) or every column (otherwise) a partner gives as
/// many rows a column as the smaller side has.
pub proof fn lemma_matching_is_full_choice(
    rows: Seq<Option<usize>>,
    cols: Seq<Option<usize>>,
    nrows: int,
    ncols: int,
)
    requires
        rows.len() == nrows,
        cols.len() == ncols,
        nrows <= usize::MAX,
        ncols <= usize::MAX,
        is_matching(rows, cols),
        nrows <= ncols ==> all_assigned(rows),
        ncols <= nrows ==> all_assigned(cols),
    ensures
        is_full_choice(rows, nrows, ncols),
{
    assert forall|a: int, b: int|
        0 <= a < nrows && 0 <= b < nrows && a != b && (#[trigger] rows[a]) is Some && (#[trigger] rows[b])
            is Some implies rows[a]->0 != rows[b]->0 by {
        assert(cols[rows[a]->0 as int] == Some(a as usize));
        assert(cols[rows[b]->0 as int] == Some(b as usize));
    }
    let some_rows = |r: int| rows[r] is Some;
    lemma_count_is_set_size(some_rows, nrows);
    lemma_sum_congruent(
        |x: int| if some_rows(x) { 1int } else { 0int },
        |r: int| if rows[r] is Some { 1int } else { 0int },
        nrows,
    );
    let chosen = Set::new(|x: int| 0 <= x < nrows && some_rows(x));
    if nrows <= ncols {
        lemma_int_range(0, nrows);
        assert(chosen =~= set_int_range(0, nrows));
    } else {
        let f = |x: int| rows[x]->0 as int;
        let image = chosen.map(f);
        assert(injective_on(f, chosen)) by {
            assert forall|a: int, b: int| chosen.contains(a) && chosen.contains(b) && #[trigger] f(a) == #[trigger] f(b)
                implies a == b by {
                if a != b {
                    assert(rows[a]->0 != rows[b]->0);
                }
            }
        }
        lemma_map_size(chosen, image, f);
        lemma_int_range(0, ncols);
        assert(image =~= set_int_range(0, ncols)) by {
            assert forall|c: int| set_int_range(0, ncols).contains(c) implies image.contains(c) by {
                assert(cols[c] is Some);
                let r = cols[c]->0 as int;
                assert(rows[r] == Some(c as usize));
                assert(chosen.contains(r));
                assert(f(r) == c);
            }
            assert forall|c: int| image.contains(c) implies set_int_range(0, ncols).contains(c) by {
                let x = choose|x: int| chosen.contains(x) && f(x) == c;
                assert(rows[x] is Some);
            }
        }
    }
}

} // verus!
