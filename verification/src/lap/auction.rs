use vstd::prelude::*;

use std::collections::VecDeque;

use crate::cost::{arithmetic_total, assigned_costs, assignment_cost, is_sum};
use crate::matching::{all_assigned, all_some, is_matching, LapSolution};
use crate::optimality::{
    assignment_value,
    choice_value,
    exact_arithmetic,
    is_full_choice,
    is_permutation,
    lemma_assigned_costs_value,
    lemma_matching_is_full_choice,
    lemma_permutation_onto,
    lemma_sum_constant,
    lemma_sum_add,
    lemma_sum_change_one,
    lemma_sum_congruent,
    lemma_sum_le,
    lemma_sum_permuted,
    lemma_sum_zero_tail,
    lemma_sum_reads_as_total,
    sum_of,
};
use crate::sap::sap_solve;
use crate::utils::{column_count, fits_padding, is_rectangular, solve_padded, square_side};

verus! {

/// The number of bidding rounds after which the auction stops.
pub const MAX_ITERATIONS: usize = 1000000;

/// The rows waiting in `queue` are distinct rows below `n`, and they are
/// exactly the rows without a column.
pub open spec fn waiting_rows(queue: Seq<usize>, rows: Seq<Option<usize>>, n: int) -> bool {
    &&& forall|k: int| 0 <= k < queue.len() ==> #[trigger] queue[k] < n
    &&& forall|a: int, b: int|
        0 <= a < queue.len() && 0 <= b < queue.len() && a != b ==> #[trigger] queue[a]
            != #[trigger] queue[b]
    &&& forall|r: int| 0 <= r < n ==> ((#[trigger] rows[r]) is None <==> queue.contains(r as usize))
}

/// Every row that holds a column pays for it, price included, at most
/// `epsilon` more than for any other column.
pub open spec fn nearly_cheapest<T>(
    val: spec_fn(T) -> int,
    matrix: Seq<Vec<T>>,
    prices: Seq<T>,
    rows: Seq<Option<usize>>,
    epsilon: T,
) -> bool {
    forall|i: int, k: int|
        #![trigger rows[i], matrix[i]@[k]]
        0 <= i < rows.len() && 0 <= k < prices.len() && rows[i] is Some ==> val(
            matrix[i]@[rows[i]->0 as int],
        ) + val(prices[rows[i]->0 as int]) <= val(matrix[i]@[k]) + val(prices[k]) + val(epsilon)
}

/// A complete assignment in which every row pays at most `epsilon` more than
/// for its cheapest column, prices included, costs at most `n * epsilon` more
/// than any other complete assignment: both pay every price once.
proof fn lemma_nearly_cheapest_is_nearly_optimal<T>(
    val: spec_fn(T) -> int,
    matrix: Seq<Vec<T>>,
    prices: Seq<T>,
    rows: Seq<Option<usize>>,
    epsilon: T,
    perm: Seq<int>,
)
    requires
        rows.len() == matrix.len(),
        prices.len() == matrix.len(),
        forall|r: int| 0 <= r < rows.len() ==> (#[trigger] rows[r]) is Some,
        forall|r: int| 0 <= r < rows.len() ==> (#[trigger] rows[r])->0 < rows.len(),
        forall|a: int, b: int|
            0 <= a < rows.len() && 0 <= b < rows.len() && a != b ==> (#[trigger] rows[a])->0 != (
            #[trigger] rows[b])->0,
        nearly_cheapest(val, matrix, prices, rows, epsilon),
        is_permutation(perm, matrix.len() as int),
    ensures
        sum_of(|r: int| val(matrix[r]@[rows[r]->0 as int]), matrix.len() as int) <= assignment_value(
            val,
            matrix,
            perm,
        ) + matrix.len() * val(epsilon),
{
    let n = matrix.len() as int;
    let sigma = Seq::new(n as nat, |r: int| rows[r]->0 as int);
    assert forall|a: int, b: int| 0 <= a < n && 0 <= b < n && a != b implies #[trigger] sigma[a]
        != #[trigger] sigma[b] by {
        assert(rows[a]->0 != rows[b]->0);
    }
    assert forall|r: int| 0 <= r < n implies 0 <= #[trigger] sigma[r] < n by {
        assert(rows[r]->0 < n);
    }
    let price = |c: int| val(prices[c]);
    let mine = |r: int| val(matrix[r]@[sigma[r]]);
    let theirs = |r: int| val(matrix[r]@[perm[r]]);
    let lhs = |r: int| mine(r) + price(sigma[r]);
    let rhs = |r: int| theirs(r) + price(perm[r]) + val(epsilon);
    assert forall|r: int| 0 <= r < n implies #[trigger] lhs(r) <= rhs(r) by {
        assert(rows[r] is Some);
        assert(0 <= perm[r] < n);
        assert(matrix[r]@[perm[r]] == matrix[r]@[perm[r]]);
    }
    lemma_sum_le(lhs, rhs, n);
    lemma_sum_add(mine, |r: int| price(sigma[r]), lhs, n);
    lemma_sum_add(|r: int| theirs(r) + price(perm[r]), |r: int| val(epsilon), rhs, n);
    lemma_sum_add(theirs, |r: int| price(perm[r]), |r: int| theirs(r) + price(perm[r]), n);
    lemma_sum_permuted(price, sigma, n);
    lemma_sum_permuted(price, perm, n);
    lemma_sum_constant(val(epsilon), n);
    lemma_sum_congruent(mine, |r: int| val(matrix[r]@[rows[r]->0 as int]), n);
}

/// A bid keeps every row within `epsilon` of its cheapest column: the bidder
/// pays the second-best price plus `epsilon` for its column, and the other
/// holders see only other prices rise.
proof fn lemma_bid_keeps_nearly_cheapest<T>(
    val: spec_fn(T) -> int,
    matrix: Seq<Vec<T>>,
    prices0: Seq<T>,
    prices1: Seq<T>,
    rows0: Seq<Option<usize>>,
    rows1: Seq<Option<usize>>,
    bidder: usize,
    best: usize,
    best_v: T,
    second: Option<T>,
    gamma: T,
    epsilon: T,
)
    requires
        prices0.len() == matrix.len(),
        prices1.len() == matrix.len(),
        rows0.len() == matrix.len(),
        rows1.len() == matrix.len(),
        0 <= bidder < matrix.len(),
        0 <= best < matrix.len(),
        val(epsilon) >= 0,
        nearly_cheapest(val, matrix, prices0, rows0, epsilon),
        val(best_v) == val(matrix[bidder as int]@[best as int]) + val(prices0[best as int]),
        forall|k: int|
            0 <= k < matrix.len() ==> val(best_v) <= val(#[trigger] matrix[bidder as int]@[k]) + val(prices0[k]),
        forall|k: int|
            0 <= k < matrix.len() && k != best as int ==> second is Some && val(second->0) <= val(
                #[trigger] matrix[bidder as int]@[k],
            ) + val(prices0[k]),
        second is Some ==> val(best_v) <= val(second->0),
        second is None ==> val(gamma) == val(epsilon),
        second is Some ==> val(gamma) == val(second->0) - val(best_v) + val(epsilon),
        val(prices1[best as int]) == val(prices0[best as int]) + val(gamma),
        forall|k: int| 0 <= k < matrix.len() && k != best as int ==> #[trigger] prices1[k] == prices0[k],
        rows1[bidder as int] == Some(best),
        forall|i: int| 0 <= i < matrix.len() && (#[trigger] rows0[i]) is Some ==> rows0[i]->0 < matrix.len(),
        forall|i: int|
            0 <= i < matrix.len() && i != bidder as int && (#[trigger] rows1[i]) is Some ==> rows1[i] == rows0[i]
                && rows1[i]->0 != best,
    ensures
        nearly_cheapest(val, matrix, prices1, rows1, epsilon),
{
    assert forall|i: int, k: int|
        #![trigger rows1[i], matrix[i]@[k]]
        0 <= i < rows1.len() && 0 <= k < prices1.len() && rows1[i] is Some implies val(
        matrix[i]@[rows1[i]->0 as int],
    ) + val(prices1[rows1[i]->0 as int]) <= val(matrix[i]@[k]) + val(prices1[k]) + val(epsilon) by {
        assert(val(prices1[k]) >= val(prices0[k])) by {
            if k == best as int {
                if second is Some {
                    assert(val(second->0) >= val(best_v));
                }
            }
        }
        if i == bidder as int {
            assert(rows1[i]->0 == best);
            assert(val(prices1[best as int]) == val(prices0[best as int]) + val(gamma));
            if k != best as int {
                assert(val(best_v) <= val(matrix[bidder as int]@[k]) + val(prices0[k]));
                if second is Some {
                    assert(val(second->0) <= val(matrix[bidder as int]@[k]) + val(prices0[k]));
                    assert(val(matrix[i]@[best as int]) + val(prices1[best as int]) == val(second->0) + val(epsilon));
                } else {
                    assert(val(matrix[i]@[best as int]) + val(prices1[best as int]) == val(best_v) + val(epsilon));
                }
                assert(val(prices1[k]) >= val(prices0[k]));
            } else {
                assert(val(prices1[k]) >= val(prices0[k]));
            }
        } else {
            let j = rows1[i]->0 as int;
            assert(rows0[i] == rows1[i]);
            assert(j != best as int);
            assert(prices1[j] == prices0[j]);
            assert(val(matrix[i]@[j]) + val(prices0[j]) <= val(matrix[i]@[k]) + val(prices0[k]) + val(
                epsilon,
            ));
        }
    }
}

/// Every entry of the square part of `matrix` (rows and columns below its row
/// count) is worth between `lo` and `hi`.
pub open spec fn entries_within<T>(val: spec_fn(T) -> int, matrix: Seq<Vec<T>>, lo: int, hi: int) -> bool {
    forall|i: int, j: int|
        0 <= i < matrix.len() && 0 <= j < matrix.len() ==> lo <= val(#[trigger] matrix[i]@[j]) <= hi
}

/// No price is worth more than `spread` above another.
pub open spec fn prices_within<T>(val: spec_fn(T) -> int, prices: Seq<T>, spread: int) -> bool {
    forall|j: int, k: int|
        0 <= j < prices.len() && 0 <= k < prices.len() ==> val(#[trigger] prices[j]) <= spread + val(
            #[trigger] prices[k],
        )
}

/// Each column's price is worth at least `epsilon` for every bid it took.
pub open spec fn prices_paid<T>(val: spec_fn(T) -> int, prices: Seq<T>, bids: Seq<int>, epsilon: T) -> bool {
    forall|j: int| 0 <= j < prices.len() ==> val(#[trigger] prices[j]) >= bids[j] * val(epsilon)
}

/// A sum of terms scaled by `e` is the scaled sum.
proof fn lemma_sum_scaled(h: spec_fn(int) -> int, e: int, n: int)
    requires
        n >= 0,
    ensures
        sum_of(|r: int| h(r) * e, n) == sum_of(h, n) * e,
    decreases n,
{
    if n > 0 {
        lemma_sum_scaled(h, e, n - 1);
        let f = |r: int| h(r) * e;
        assert(sum_of(f, n) == sum_of(f, n - 1) + f(n - 1));
        let a = sum_of(h, n - 1);
        let b = h(n - 1);
        assert(a * e + b * e == (a + b) * e) by (nonlinear_arith);
    } else {
        assert(sum_of(h, n) * e == 0) by (nonlinear_arith)
            requires
                sum_of(h, n) == 0,
        ;
    }
}

/// A bid keeps the prices within `hi - lo + epsilon` of each other: the
/// raised price is at most what the bidder would pay for any other column,
/// minus its cheapest entry, plus `epsilon`, and the other prices stay put.
proof fn lemma_bid_keeps_prices_close<T>(
    val: spec_fn(T) -> int,
    matrix: Seq<Vec<T>>,
    prices0: Seq<T>,
    prices1: Seq<T>,
    bidder: usize,
    best: usize,
    best_v: T,
    second: Option<T>,
    gamma: T,
    epsilon: T,
    lo: int,
    hi: int,
)
    requires
        prices0.len() == matrix.len(),
        prices1.len() == matrix.len(),
        0 <= bidder < matrix.len(),
        0 <= best < matrix.len(),
        val(epsilon) > 0,
        entries_within(val, matrix, lo, hi),
        prices_within(val, prices0, hi - lo + val(epsilon)),
        val(best_v) == val(matrix[bidder as int]@[best as int]) + val(prices0[best as int]),
        forall|k: int|
            0 <= k < matrix.len() && k != best as int ==> second is Some && val(second->0) <= val(
                #[trigger] matrix[bidder as int]@[k],
            ) + val(prices0[k]),
        second is Some ==> val(best_v) <= val(second->0),
        second is None ==> val(gamma) == val(epsilon),
        second is Some ==> val(gamma) == val(second->0) - val(best_v) + val(epsilon),
        val(prices1[best as int]) == val(prices0[best as int]) + val(gamma),
        forall|k: int| 0 <= k < matrix.len() && k != best as int ==> #[trigger] prices1[k] == prices0[k],
    ensures
        prices_within(val, prices1, hi - lo + val(epsilon)),
{
    let n = matrix.len() as int;
    let b = best as int;
    assert(lo <= val(matrix[bidder as int]@[b]) <= hi);
    assert(val(gamma) >= val(epsilon));
    assert forall|j: int, k: int| 0 <= j < n && 0 <= k < n implies val(#[trigger] prices1[j]) <= hi - lo
        + val(epsilon) + val(#[trigger] prices1[k]) by {
        if j == b && k != b {
            assert(val(second->0) <= val(matrix[bidder as int]@[k]) + val(prices0[k]));
            assert(lo <= val(matrix[bidder as int]@[k]) <= hi);
            assert(prices1[k] == prices0[k]);
        } else if j != b && k == b {
            assert(prices1[j] == prices0[j]);
            assert(val(prices0[j]) <= hi - lo + val(epsilon) + val(prices0[b]));
        } else if j != b && k != b {
            assert(prices1[j] == prices0[j]);
            assert(prices1[k] == prices0[k]);
            assert(val(prices0[j]) <= hi - lo + val(epsilon) + val(prices0[k]));
        }
    }
}

/// While some column has taken no bid (its price is still worth `0`), the
/// bids taken by all columns are worth at most `(n - 1)` times the spread of
/// the prices.
proof fn lemma_bids_bounded<T>(
    val: spec_fn(T) -> int,
    prices: Seq<T>,
    bids: Seq<int>,
    epsilon: T,
    spread: int,
    free: int,
)
    requires
        bids.len() == prices.len(),
        0 <= free < prices.len(),
        bids[free] == 0,
        val(prices[free]) == 0,
        val(epsilon) > 0,
        prices_paid(val, prices, bids, epsilon),
        prices_within(val, prices, spread),
    ensures
        sum_of(|j: int| bids[j], prices.len() as int) * val(epsilon) <= (prices.len() - 1) * spread,
{
    let n = prices.len() as int;
    let e = val(epsilon);
    let f = |j: int| bids[j] * e;
    let g = |j: int| if j == free { 0 } else { spread };
    assert forall|j: int| 0 <= j < n implies #[trigger] f(j) <= g(j) by {
        assert(val(prices[j]) >= bids[j] * e);
        assert(val(prices[j]) <= spread + val(prices[free]));
        if j == free {
            assert(bids[j] * e == 0) by (nonlinear_arith)
                requires
                    bids[j] == 0,
            ;
        }
    }
    lemma_sum_le(f, g, n);
    lemma_sum_scaled(|j: int| bids[j], e, n);
    lemma_sum_congruent(f, |r: int| (|j: int| bids[j])(r) * e, n);
    lemma_sum_constant(spread, n);
    lemma_sum_change_one(|r: int| spread, g, n, free);
    assert(n * spread - spread == (n - 1) * spread) by (nonlinear_arith);
}

/// In a matching of `n` rows with `n` columns, a row without a column leaves
/// a column without a row.
proof fn lemma_free_column(rows: Seq<Option<usize>>, cols: Seq<Option<usize>>, n: int, r0: int) -> (free: int)
    requires
        n <= usize::MAX,
        rows.len() == n,
        cols.len() == n,
        is_matching(rows, cols),
        0 <= r0 < n,
        rows[r0] is None,
    ensures
        0 <= free < n,
        cols[free] is None,
{
    if forall|c: int| 0 <= c < n ==> (#[trigger] cols[c]) is Some {
        let sigma = Seq::new(n as nat, |c: int| cols[c]->0 as int);
        assert forall|a: int, b: int| 0 <= a < n && 0 <= b < n && a != b implies #[trigger] sigma[a]
            != #[trigger] sigma[b] by {
            assert(cols[a] is Some && cols[b] is Some);
            assert(rows[cols[a]->0 as int] == Some(a as usize));
            assert(rows[cols[b]->0 as int] == Some(b as usize));
        }
        assert forall|c: int| 0 <= c < n implies 0 <= #[trigger] sigma[c] < n by {
            assert(cols[c] is Some);
        }
        lemma_permutation_onto(sigma, n, r0);
        let c = choose|c: int| 0 <= c < n && sigma[c] == r0;
        assert(cols[c] is Some);
        assert(rows[r0] == Some(c as usize));
        assert(false);
        0
    } else {
        choose|c: int| 0 <= c < n && !(cols[c] is Some)
    }
}

/// Runs the rounds of the auction on a square `n × n` matrix (`n >= 1`).
///
/// In each round the first waiting row bids for the column with the lowest
/// `cost + price`, raises that column's price by the gap to the second lowest
/// plus `epsilon` (by `epsilon` alone when there is no second), takes the
/// column and sends its previous holder back to the end of the queue.
/// Stops when no row waits or after [`MAX_ITERATIONS`] rounds.
///
/// Every row gets a column whenever `n · (hi - lo + epsilon)` is at most
/// `MAX_ITERATIONS · epsilon`, for entries worth between `lo` and `hi`: while
/// a column is still free its price is `0`, no price runs more than
/// `hi - lo + epsilon` ahead of another, and each bid raises a price by at
/// least `epsilon`.
fn bid_rounds<T: Copy, A: Fn(T, T) -> T, S: Fn(T, T) -> T, L: Fn(T, T) -> bool>(
    matrix: &[Vec<T>],
    epsilon: T,
    zero: T,
    plus: &A,
    minus: &S,
    less: &L,
) -> (res: (Vec<Option<usize>>, Vec<Option<usize>>))
    requires
        matrix@.len() >= 1,
        forall|i: int| 0 <= i < matrix@.len() ==> #[trigger] matrix@[i]@.len() >= matrix@.len(),
        arithmetic_total(*plus, *minus, *less),
    ensures
        res.0@.len() == matrix@.len(),
        res.1@.len() == matrix@.len(),
        is_matching(res.0@, res.1@),
        all_assigned(res.0@) ==> forall|val: spec_fn(T) -> int, perm: Seq<int>|
            exact_arithmetic(*plus, *minus, *less, zero, val) && val(epsilon) >= 0 && is_permutation(
                perm,
                matrix@.len() as int,
            ) ==> sum_of(|r: int| val(matrix@[r]@[res.0@[r]->0 as int]), matrix@.len() as int)
                <= #[trigger] assignment_value(val, matrix@, perm) + matrix@.len() * val(epsilon),
        forall|val: spec_fn(T) -> int, lo: int, hi: int|
            exact_arithmetic(*plus, *minus, *less, zero, val) && val(epsilon) > 0 && #[trigger] entries_within(
                val,
                matrix@,
                lo,
                hi,
            ) && matrix@.len() * (hi - lo + val(epsilon)) <= MAX_ITERATIONS * val(epsilon) ==> all_assigned(
                res.0@,
            ),
{
    let n = matrix.len();
    let mut prices: Vec<T> = Vec::new();
    let mut row_assign: Vec<Option<usize>> = Vec::new();
    let mut col_assign: Vec<Option<usize>> = Vec::new();
    let mut unassigned: VecDeque<usize> = VecDeque::new();
    let mut k: usize = 0;
    while k < n
        invariant
            k <= n,
            prices@.len() == k,
            row_assign@.len() == k,
            col_assign@.len() == k,
            unassigned@ == Seq::new(k as nat, |r: int| r as usize),
            forall|r: int| 0 <= r < k ==> (#[trigger] row_assign@[r]) is None,
            forall|r: int| 0 <= r < k ==> (#[trigger] col_assign@[r]) is None,
            forall|r: int| 0 <= r < k ==> #[trigger] prices@[r] == zero,
        decreases n - k,
    {
        prices.push(zero);
        row_assign.push(None);
        col_assign.push(None);
        unassigned.push_back(k);
        k += 1;
    }
    proof {
        assert forall|r: int| 0 <= r < n implies ((#[trigger] row_assign@[r]) is None
            <==> unassigned@.contains(r as usize)) by {
            assert(unassigned@[r] == r as usize);
        }
    }
    let ghost mut bids: Seq<int> = Seq::new(n as nat, |j: int| 0int);
    proof {
        lemma_sum_zero_tail(|j: int| bids[j], 0, n as int);
        assert forall|j: int| 0 <= j < n implies (#[trigger] bids[j] == 0 <==> col_assign@[j] is None) by {
            assert(col_assign@[j] is None);
        }
        assert forall|val: spec_fn(T) -> int, lo: int, hi: int|
            exact_arithmetic(*plus, *minus, *less, zero, val) && val(epsilon) > 0
                && #[trigger] entries_within(val, matrix@, lo, hi) implies prices_within(
            val,
            prices@,
            hi - lo + val(epsilon),
        ) by {
            assert(lo <= val(matrix@[0]@[0]) <= hi);
            assert forall|j: int, k: int| 0 <= j < n && 0 <= k < n implies val(#[trigger] prices@[j])
                <= hi - lo + val(epsilon) + val(#[trigger] prices@[k]) by {
                assert(prices@[j] == zero && prices@[k] == zero);
            }
        }
    }
    let mut round: usize = 0;
    while round < MAX_ITERATIONS
        invariant
            n == matrix@.len(),
            n >= 1,
            forall|i: int| 0 <= i < n ==> #[trigger] matrix@[i]@.len() >= n,
            arithmetic_total(*plus, *minus, *less),
            prices@.len() == n,
            row_assign@.len() == n,
            col_assign@.len() == n,
            is_matching(row_assign@, col_assign@),
            waiting_rows(unassigned@, row_assign@, n as int),
            forall|val: spec_fn(T) -> int|
                #[trigger] exact_arithmetic(*plus, *minus, *less, zero, val) && val(epsilon) >= 0
                    ==> nearly_cheapest(val, matrix@, prices@, row_assign@, epsilon),
            round <= MAX_ITERATIONS,
            bids.len() == n,
            forall|j: int| 0 <= j < n ==> #[trigger] bids[j] >= 0,
            forall|j: int| 0 <= j < n ==> (#[trigger] bids[j] == 0 <==> col_assign@[j] is None),
            forall|j: int| 0 <= j < n && #[trigger] bids[j] == 0 ==> prices@[j] == zero,
            sum_of(|j: int| bids[j], n as int) == round,
            forall|val: spec_fn(T) -> int|
                #[trigger] exact_arithmetic(*plus, *minus, *less, zero, val) && val(epsilon) > 0
                    ==> prices_paid(val, prices@, bids, epsilon),
            forall|val: spec_fn(T) -> int, lo: int, hi: int|
                exact_arithmetic(*plus, *minus, *less, zero, val) && val(epsilon) > 0
                    && #[trigger] entries_within(val, matrix@, lo, hi) ==> prices_within(
                    val,
                    prices@,
                    hi - lo + val(epsilon),
                ),
        ensures
            unassigned@.len() == 0 || round == MAX_ITERATIONS,
        decreases MAX_ITERATIONS - round,
    {
        let ghost queue = unassigned@;
        let bidder = match unassigned.pop_front() {
            Some(b) => b,
            None => break,
        };
        assert(queue[0] == bidder);
        assert(row_assign@[bidder as int] is None);
        let mut best_item: Option<usize> = None;
        let mut best_val: Option<T> = None;
        let mut second_val: Option<T> = None;
        let mut item: usize = 0;
        while item < n
            invariant
                item <= n,
                n == matrix@.len(),
                bidder < n,
                forall|i: int| 0 <= i < n ==> #[trigger] matrix@[i]@.len() >= n,
                arithmetic_total(*plus, *minus, *less),
                prices@.len() == n,
                item == 0 ==> best_item is None && best_val is None && second_val is None,
                item > 0 ==> best_item is Some && best_item->0 < item && best_val is Some,
                item > 1 ==> second_val is Some,
                forall|val: spec_fn(T) -> int|
                    #[trigger] exact_arithmetic(*plus, *minus, *less, zero, val) ==> {
                        &&& (best_item is Some ==> val(best_val->0) == val(matrix@[bidder as int]@[best_item->0 as int])
                            + val(prices@[best_item->0 as int]))
                        &&& forall|k: int|
                            0 <= k < item ==> val(best_val->0) <= val(#[trigger] matrix@[bidder as int]@[k])
                                + val(prices@[k])
                        &&& forall|k: int|
                            0 <= k < item && k != best_item->0 ==> second_val is Some && val(second_val->0)
                                <= val(#[trigger] matrix@[bidder as int]@[k]) + val(prices@[k])
                        &&& (second_val is Some ==> val(best_val->0) <= val(second_val->0))
                    },
            decreases n - item,
        {
            let bid = plus(matrix[bidder][item], prices[item]);
            let ghost best_before = best_val;
            let ghost second_before = second_val;
            let ghost item_before = best_item;
            let below_best = match best_val {
                None => true,
                Some(b) => less(bid, b),
            };
            if below_best {
                second_val = best_val;
                best_val = Some(bid);
                best_item = Some(item);
            } else {
                let below_second = match second_val {
                    None => true,
                    Some(s) => less(bid, s),
                };
                if below_second {
                    second_val = Some(bid);
                }
            }
            proof {
                assert forall|val: spec_fn(T) -> int|
                    #[trigger] exact_arithmetic(*plus, *minus, *less, zero, val) implies {
                        &&& (best_item is Some ==> val(best_val->0) == val(matrix@[bidder as int]@[best_item->0 as int])
                            + val(prices@[best_item->0 as int]))
                        &&& forall|k: int|
                            0 <= k < item + 1 ==> val(best_val->0) <= val(#[trigger] matrix@[bidder as int]@[k])
                                + val(prices@[k])
                        &&& forall|k: int|
                            0 <= k < item + 1 && k != best_item->0 ==> second_val is Some && val(second_val->0)
                                <= val(#[trigger] matrix@[bidder as int]@[k]) + val(prices@[k])
                        &&& (second_val is Some ==> val(best_val->0) <= val(second_val->0))
                    } by {
                    let v_item = val(matrix@[bidder as int]@[item as int]) + val(prices@[item as int]);
                    assert(val(bid) == v_item);
                    if below_best {
                        if best_before is Some {
                            assert(call_ensures(*less, (bid, best_before->0), true));
                        }
                    } else {
                        assert(best_before is Some);
                        assert(call_ensures(*less, (bid, best_before->0), false));
                        if second_before is Some {
                            if second_val == second_before {
                                assert(call_ensures(*less, (bid, second_before->0), false));
                            } else {
                                assert(call_ensures(*less, (bid, second_before->0), true));
                            }
                        }
                    }
                }
            }
            item += 1;
        }
        let best = best_item.unwrap();
        let best_v = best_val.unwrap();
        assert(item == n);
        assert(n > 1 ==> second_val is Some);
        let ghost prices_before = prices@;
        assert forall|val: spec_fn(T) -> int, k: int|
            #![trigger exact_arithmetic(*plus, *minus, *less, zero, val), matrix@[bidder as int]@[k]]
            exact_arithmetic(*plus, *minus, *less, zero, val) && 0 <= k < n && k != best as int implies second_val
                is Some && val(second_val->0) <= val(matrix@[bidder as int]@[k]) + val(prices_before[k]) by {
            assert(val(best_val->0) <= val(matrix@[bidder as int]@[k]) + val(prices@[k]));
        }
        let gamma = match second_val {
            None => epsilon,
            Some(s) => plus(minus(s, best_v), epsilon),
        };
        let raised = plus(prices[best], gamma);
        prices.set(best, raised);
        let ghost popped = unassigned@;
        let ghost rows_before = row_assign@;
        let ghost cols_before = col_assign@;
        match col_assign[best] {
            Some(prev) => {
                assert(cols_before[best as int] is Some);
                assert(rows_before[prev as int] == Some(best));
                assert(!popped.contains(prev)) by {
                    if popped.contains(prev) {
                        let w = choose|w: int| 0 <= w < popped.len() && popped[w] == prev;
                        assert(queue[w + 1] == prev);
                    }
                }
                unassigned.push_back(prev);
                row_assign.set(prev, None);
            },
            None => {},
        }
        row_assign.set(bidder, Some(best));
        col_assign.set(best, Some(bidder));
        proof {
            let q = unassigned@;
            assert(!popped.contains(bidder)) by {
                if popped.contains(bidder) {
                    let w = choose|w: int| 0 <= w < popped.len() && popped[w] == bidder;
                    assert(queue[w + 1] == bidder);
                    assert(queue[0] == bidder);
                }
            }
            assert forall|r: int| 0 <= r < n implies ((#[trigger] row_assign@[r]) is None
                <==> q.contains(r as usize)) by {
                if r == bidder as int {
                    assert(!q.contains(bidder)) by {
                        if q.contains(bidder) {
                            let w = choose|w: int| 0 <= w < q.len() && q[w] == bidder;
                            if w < popped.len() {
                                assert(popped[w] == bidder);
                            }
                        }
                    }
                } else if cols_before[best as int] is Some && r == cols_before[best as int]->0 as int {
                    assert(q[q.len() - 1] == r as usize);
                } else {
                    assert(row_assign@[r] == rows_before[r]);
                    if rows_before[r] is None {
                        assert(queue.contains(r as usize));
                        let w = choose|w: int| 0 <= w < queue.len() && queue[w] == r as usize;
                        assert(w != 0);
                        assert(popped[w - 1] == r as usize);
                        assert(q[w - 1] == r as usize);
                    } else {
                        if q.contains(r as usize) {
                            let w = choose|w: int| 0 <= w < q.len() && q[w] == r as usize;
                            if w < popped.len() {
                                assert(queue[w + 1] == r as usize);
                            }
                        }
                    }
                }
            }
            assert forall|a: int, b: int|
                0 <= a < q.len() && 0 <= b < q.len() && a != b implies #[trigger] q[a]
                != #[trigger] q[b] by {
                if a < popped.len() && b < popped.len() {
                    assert(queue[a + 1] != queue[b + 1]);
                }
            }
            assert forall|val: spec_fn(T) -> int|
                #[trigger] exact_arithmetic(*plus, *minus, *less, zero, val) && val(epsilon) >= 0 implies nearly_cheapest(
                val,
                matrix@,
                prices@,
                row_assign@,
                epsilon,
            ) by {
                assert forall|i: int|
                    0 <= i < n && i != bidder as int && (#[trigger] row_assign@[i]) is Some implies row_assign@[i]
                    == rows_before[i] && row_assign@[i]->0 != best by {
                    if cols_before[best as int] is Some && i == cols_before[best as int]->0 as int {
                    } else {
                        assert(row_assign@[i] == rows_before[i]);
                        if row_assign@[i]->0 == best {
                            assert(cols_before[best as int] == Some(i as usize));
                        }
                    }
                }
                assert forall|i: int| 0 <= i < n && (#[trigger] rows_before[i]) is Some implies rows_before[i]->0
                    < n by {
                }
                assert forall|k: int| 0 <= k < n && k != best as int implies second_val is Some && val(second_val->0)
                    <= val(#[trigger] matrix@[bidder as int]@[k]) + val(prices_before[k]) by {
                    assert(exact_arithmetic(*plus, *minus, *less, zero, val));
                }
                lemma_bid_keeps_nearly_cheapest(
                    val,
                    matrix@,
                    prices_before,
                    prices@,
                    rows_before,
                    row_assign@,
                    bidder,
                    best,
                    best_v,
                    second_val,
                    gamma,
                    epsilon,
                );
            }
            assert forall|i: int| 0 <= i < n && (#[trigger] row_assign@[i]) is Some implies {
                &&& row_assign@[i]->0 < col_assign@.len()
                &&& col_assign@[row_assign@[i]->0 as int] == Some(i as usize)
            } by {
                if i != bidder as int {
                    assert(rows_before[i] is Some);
                }
            }
            assert forall|j: int| 0 <= j < n && (#[trigger] col_assign@[j]) is Some implies {
                &&& col_assign@[j]->0 < row_assign@.len()
                &&& row_assign@[col_assign@[j]->0 as int] == Some(j as usize)
            } by {
                if j != best as int {
                    assert(cols_before[j] is Some);
                    let r = cols_before[j]->0 as int;
                    assert(rows_before[r] == Some(j as usize));
                    assert(r != bidder as int);
                }
            }
        }
        proof {
            let old_bids = bids;
            bids = bids.update(best as int, bids[best as int] + 1);
            lemma_sum_change_one(|j: int| old_bids[j], |j: int| bids[j], n as int, best as int);
            assert forall|j: int| 0 <= j < n implies (#[trigger] bids[j] == 0 <==> col_assign@[j] is None) by {
                if j != best as int {
                    assert(col_assign@[j] == cols_before[j]);
                }
            }
            assert forall|j: int| 0 <= j < n && #[trigger] bids[j] == 0 implies prices@[j] == zero by {
                assert(j != best as int);
                assert(prices@[j] == prices_before[j]);
            }
            assert forall|val: spec_fn(T) -> int|
                #[trigger] exact_arithmetic(*plus, *minus, *less, zero, val) && val(epsilon) > 0 implies prices_paid(
                val,
                prices@,
                bids,
                epsilon,
            ) by {
                let e = val(epsilon);
                assert(val(gamma) >= e) by {
                    if second_val is Some {
                        assert(val(best_v) <= val(second_val->0));
                    }
                }
                assert(val(prices@[best as int]) == val(prices_before[best as int]) + val(gamma));
                assert forall|j: int| 0 <= j < n implies val(#[trigger] prices@[j]) >= bids[j] * e by {
                    assert(val(prices_before[j]) >= old_bids[j] * e);
                    if j == best as int {
                        let c = old_bids[j];
                        assert(c * e + e == (c + 1) * e) by (nonlinear_arith);
                    } else {
                        assert(prices@[j] == prices_before[j]);
                    }
                }
            }
            assert forall|val: spec_fn(T) -> int, lo: int, hi: int|
                exact_arithmetic(*plus, *minus, *less, zero, val) && val(epsilon) > 0
                    && #[trigger] entries_within(val, matrix@, lo, hi) implies prices_within(
                val,
                prices@,
                hi - lo + val(epsilon),
            ) by {
                assert forall|k: int| 0 <= k < n && k != best as int implies second_val is Some && val(second_val->0)
                    <= val(#[trigger] matrix@[bidder as int]@[k]) + val(prices_before[k]) by {
                    assert(exact_arithmetic(*plus, *minus, *less, zero, val));
                }
                lemma_bid_keeps_prices_close(
                    val,
                    matrix@,
                    prices_before,
                    prices@,
                    bidder,
                    best,
                    best_v,
                    second_val,
                    gamma,
                    epsilon,
                    lo,
                    hi,
                );
            }
        }
        round += 1;
    }
    proof {
        assert forall|val: spec_fn(T) -> int, lo: int, hi: int|
            exact_arithmetic(*plus, *minus, *less, zero, val) && val(epsilon) > 0 && #[trigger] entries_within(
                val,
                matrix@,
                lo,
                hi,
            ) && n * (hi - lo + val(epsilon)) <= MAX_ITERATIONS * val(epsilon) implies all_assigned(
            row_assign@,
        ) by {
            if !all_assigned(row_assign@) {
                let r0 = choose|r: int| 0 <= r < n && !(row_assign@[r] is Some);
                assert(unassigned@.contains(r0 as usize));
                assert(round == MAX_ITERATIONS);
                // Some column is free as well: a matching of all columns
                // would reach every row.
                let free = lemma_free_column(row_assign@, col_assign@, n as int, r0);
                let e = val(epsilon);
                let spread = hi - lo + e;
                assert(lo <= val(matrix@[0]@[0]) <= hi);
                assert(prices@[free] == zero);
                lemma_bids_bounded(val, prices@, bids, epsilon, spread, free);
                assert(false) by (nonlinear_arith)
                    requires
                        n * spread <= MAX_ITERATIONS * e,
                        MAX_ITERATIONS * e <= (n - 1) * spread,
                        spread > 0,
                ;
            }
        }
        if all_assigned(row_assign@) {
            assert forall|a: int, b: int|
                0 <= a < n && 0 <= b < n && a != b implies (#[trigger] row_assign@[a])->0 != (
                #[trigger] row_assign@[b])->0 by {
                assert(row_assign@[a] is Some && row_assign@[b] is Some);
                assert(col_assign@[row_assign@[a]->0 as int] == Some(a as usize));
                assert(col_assign@[row_assign@[b]->0 as int] == Some(b as usize));
            }
            assert forall|r: int| 0 <= r < n implies (#[trigger] row_assign@[r])->0 < n by {
                assert(row_assign@[r] is Some);
            }
            assert forall|val: spec_fn(T) -> int, perm: Seq<int>|
                exact_arithmetic(*plus, *minus, *less, zero, val) && val(epsilon) >= 0 && is_permutation(
                    perm,
                    n as int,
                ) implies sum_of(|r: int| val(matrix@[r]@[row_assign@[r]->0 as int]), n as int)
                <= #[trigger] assignment_value(val, matrix@, perm) + n * val(epsilon) by {
                lemma_nearly_cheapest_is_nearly_optimal(val, matrix@, prices@, row_assign@, epsilon, perm);
            }
        }
    }
    (row_assign, col_assign)
}

/// Solves the assignment problem with the auction algorithm (Bertsekas) for
/// cost minimisation. A non-square matrix is padded with `fill` and solved by
/// [`solve_padded`] instead. `epsilon` is the minimum price increase of a bid.
///
/// On a square matrix the result is a complete assignment that costs at most
/// `n · epsilon` more than the optimum. When the bidding stops after
/// [`MAX_ITERATIONS`] rounds with a row still waiting, the square problem is
/// solved by [`sap_solve`] instead, whose optimal assignment meets that bound.
pub fn solve<T: Copy, A: Fn(T, T) -> T, S: Fn(T, T) -> T, L: Fn(T, T) -> bool>(
    matrix: &[Vec<T>],
    fill: T,
    epsilon: T,
    zero: T,
    plus: &A,
    minus: &S,
    less: &L,
) -> (sol: LapSolution<T>)
    requires
        fits_padding(matrix@),
        square_side(matrix@) < usize::MAX,
        arithmetic_total(*plus, *minus, *less),
    ensures
        sol.1@.len() == matrix@.len(),
        sol.2@.len() == column_count(matrix@),
        is_matching(sol.1@, sol.2@),
        matrix@.len() <= column_count(matrix@) ==> all_assigned(sol.1@),
        column_count(matrix@) <= matrix@.len() ==> all_assigned(sol.2@),
        is_full_choice(sol.1@, matrix@.len() as int, column_count(matrix@)),
        is_sum(*plus, zero, assigned_costs(matrix@, sol.1@, matrix@.len() as int), sol.0),
        matrix@.len() != column_count(matrix@) && is_rectangular(matrix@) ==> forall|
            val: spec_fn(T) -> int,
            choice: Seq<Option<usize>>,
        |
            exact_arithmetic(*plus, *minus, *less, zero, val) && is_full_choice(
                choice,
                matrix@.len() as int,
                column_count(matrix@),
            ) ==> val(sol.0) <= #[trigger] choice_value(val, matrix@, choice),
        matrix@.len() == column_count(matrix@) ==> forall|val: spec_fn(T) -> int, perm: Seq<int>|
            exact_arithmetic(*plus, *minus, *less, zero, val) && val(epsilon) >= 0 && is_permutation(
                perm,
                matrix@.len() as int,
            ) ==> val(sol.0) <= #[trigger] assignment_value(val, matrix@, perm) + matrix@.len() * val(
                epsilon,
            ),
{
    let n = matrix.len();
    if n == 0 {
        let rows: Vec<Option<usize>> = Vec::new();
        let cols: Vec<Option<usize>> = Vec::new();
        let total = assignment_cost(matrix, &rows, zero, plus);
        proof {
            lemma_matching_is_full_choice(rows@, cols@, 0, 0);
            assert forall|val: spec_fn(T) -> int, perm: Seq<int>|
                exact_arithmetic(*plus, *minus, *less, zero, val) && val(epsilon) >= 0 && is_permutation(
                    perm,
                    0,
                ) implies val(total) <= #[trigger] assignment_value(val, matrix@, perm) + 0 * val(
                epsilon,
            ) by {
                lemma_sum_reads_as_total(*plus, *minus, *less, zero, val, assigned_costs(matrix@, rows@, 0), total);
            }
        }
        return (total, rows, cols);
    }
    let m = matrix[0].len();
    if n != m {
        return solve_padded(matrix, fill, zero, plus, minus, less);
    }
    let (row_assign, col_assign) = bid_rounds(matrix, epsilon, zero, plus, minus, less);
    if !all_some(&row_assign) {
        let sol = sap_solve(matrix, zero, plus, minus, less);
        proof {
            lemma_matching_is_full_choice(sol.1@, sol.2@, n as int, n as int);
            assert forall|val: spec_fn(T) -> int, perm: Seq<int>|
                exact_arithmetic(*plus, *minus, *less, zero, val) && val(epsilon) >= 0 && is_permutation(
                    perm,
                    n as int,
                ) implies val(sol.0) <= #[trigger] assignment_value(val, matrix@, perm) + n * val(
                epsilon,
            ) by {
                let e = val(epsilon);
                assert(n * e >= 0) by (nonlinear_arith)
                    requires
                        e >= 0,
                ;
            }
        }
        return sol;
    }
    let total = assignment_cost(matrix, &row_assign, zero, plus);
    proof {
        let sigma = Seq::new(n as nat, |r: int| row_assign@[r]->0 as int);
        assert(is_permutation(sigma, n as int)) by {
            assert forall|a: int, b: int| 0 <= a < n && 0 <= b < n && a != b implies #[trigger] sigma[a]
                != #[trigger] sigma[b] by {
                assert(row_assign@[a] is Some && row_assign@[b] is Some);
                assert(col_assign@[row_assign@[a]->0 as int] == Some(a as usize));
                assert(col_assign@[row_assign@[b]->0 as int] == Some(b as usize));
            }
            assert forall|r: int| 0 <= r < n implies 0 <= #[trigger] sigma[r] < n by {
                assert(row_assign@[r] is Some);
            }
        }
        assert forall|c: int| 0 <= c < n implies (#[trigger] col_assign@[c]) is Some by {
            lemma_permutation_onto(sigma, n as int, c);
            let r = choose|r: int| 0 <= r < n && sigma[r] == c;
            assert(row_assign@[r] is Some);
        }
        lemma_matching_is_full_choice(row_assign@, col_assign@, n as int, n as int);
        assert forall|val: spec_fn(T) -> int, perm: Seq<int>|
            exact_arithmetic(*plus, *minus, *less, zero, val) && val(epsilon) >= 0 && is_permutation(
                perm,
                n as int,
            ) implies val(total) <= #[trigger] assignment_value(val, matrix@, perm) + n * val(
            epsilon,
        ) by {
            lemma_sum_reads_as_total(
                *plus,
                *minus,
                *less,
                zero,
                val,
                assigned_costs(matrix@, row_assign@, n as int),
                total,
            );
            lemma_assigned_costs_value(val, matrix@, row_assign@, n as int);
            lemma_sum_congruent(
                |r: int|
                    if row_assign@[r] is Some {
                        val(matrix@[r]@[row_assign@[r]->0 as int])
                    } else {
                        0
                    },
                |r: int| val(matrix@[r]@[row_assign@[r]->0 as int]),
                n as int,
            );
        }
    }
    (total, row_assign, col_assign)
}

} // verus!
