use vstd::prelude::*;

use crate::cost::{arithmetic_total, assigned_costs, assignment_cost, is_sum, plus_total};
use crate::matching::{all_assigned, is_matching, LapSolution};
use crate::optimality::{
    assignment_value,
    choice_value,
    chosen_count,
    exact_arithmetic,
    is_full_choice,
    is_permutation,
    items_value,
    lemma_assigned_costs_value,
    lemma_count_is_set_size,
    lemma_extend_to_permutation,
    lemma_matching_is_full_choice,
    lemma_sum_add,
    lemma_sum_congruent,
    lemma_sum_permuted,
    lemma_sum_reads_as_total,
    lemma_sum_zero_tail,
    sum_of,
};
use vstd::relations::injective_on;
use vstd::set_lib::{lemma_int_range, lemma_map_size, lemma_subset_equality, set_int_range};
pub use crate::names::supported_algorithms;
pub use crate::sap::sap_solve;
use crate::results::least_cost_padded;

verus! {

/// The number of columns of a matrix: the length of its first row, `0` when it
/// has no rows.
pub open spec fn column_count<T>(m: Seq<Vec<T>>) -> int {
    if m.len() > 0 {
        m[0]@.len() as int
    } else {
        0
    }
}

/// The side of the square that a matrix is padded to.
pub open spec fn square_side<T>(m: Seq<Vec<T>>) -> int {
    if m.len() >= column_count(m) {
        m.len() as int
    } else {
        column_count(m)
    }
}

/// Every row of the matrix is as long as the first one.
pub open spec fn is_rectangular<T>(m: Seq<Vec<T>>) -> bool {
    forall|i: int| 0 <= i < m.len() ==> (#[trigger] m[i])@.len() == column_count(m)
}

/// The shapes that padding, solving and trimming take: every row is at least
/// as long as the first one, and when the matrix is not square no row reaches
/// past the side of the padded square.
pub open spec fn fits_padding<T>(m: Seq<Vec<T>>) -> bool {
    forall|i: int|
        0 <= i < m.len() ==> column_count(m) <= (#[trigger] m[i])@.len() && (m.len() != column_count(m)
            ==> m[i]@.len() <= square_side(m))
}

/// Whether the matrix has one of the shapes that padding, solving and
/// trimming take.
pub fn fits_padding_matrix<T>(matrix: &[Vec<T>]) -> (ok: bool)
    ensures
        ok == fits_padding(matrix@),
{
    if matrix.len() == 0 {
        return true;
    }
    let nrows = matrix.len();
    let ncols = matrix[0].len();
    let dim = if nrows >= ncols {
        nrows
    } else {
        ncols
    };
    let mut i: usize = 0;
    while i < nrows
        invariant
            0 < nrows,
            nrows == matrix@.len(),
            i <= nrows,
            ncols == column_count(matrix@),
            dim == square_side(matrix@),
            forall|r: int|
                0 <= r < i ==> ncols <= (#[trigger] matrix@[r])@.len() && (nrows != ncols
                    ==> matrix@[r]@.len() <= dim),
        decreases nrows - i,
    {
        let len = matrix[i].len();
        if len < ncols || (nrows != ncols && len > dim) {
            return false;
        }
        i += 1;
    }
    true
}

/// The entry at `(i, j)` of `m` padded to a `dim × dim` square with `fill`.
pub open spec fn padded_entry<T>(m: Seq<Vec<T>>, fill: T, i: int, j: int) -> T {
    if i < m.len() && j < m[i]@.len() {
        m[i]@[j]
    } else {
        fill
    }
}

/// `a` keeps a partner only when it is below `bound`.
pub open spec fn keep_below(a: Option<usize>, bound: int) -> Option<usize> {
    match a {
        Some(x) => if x < bound {
            Some(x)
        } else {
            None
        },
        None => None,
    }
}

/// Pads a (possibly non-square) matrix to a `dim × dim` square, where `dim` is
/// the larger of its row count and its first row's length; added entries are
/// `fill`. A matrix with as many rows as its first row has entries is copied
/// as it is.
pub fn pad_to_square<T: Copy>(matrix: &[Vec<T>], fill: T) -> (padded: Vec<Vec<T>>)
    requires
        matrix@.len() == column_count(matrix@) || forall|i: int|
            0 <= i < matrix@.len() ==> #[trigger] matrix@[i]@.len() <= square_side(matrix@),
    ensures
        matrix@.len() == column_count(matrix@) ==> {
            &&& padded@.len() == matrix@.len()
            &&& forall|i: int| 0 <= i < matrix@.len() ==> #[trigger] padded@[i]@ == matrix@[i]@
        },
        matrix@.len() != column_count(matrix@) ==> {
            &&& padded@.len() == square_side(matrix@)
            &&& forall|i: int|
                0 <= i < square_side(matrix@) ==> (#[trigger] padded@[i])@.len() == square_side(
                    matrix@,
                )
            &&& forall|i: int, j: int|
                0 <= i < square_side(matrix@) && 0 <= j < square_side(matrix@)
                    ==> #[trigger] padded@[i]@[j] == padded_entry(matrix@, fill, i, j)
        },
{
    let nrows = matrix.len();
    let ncols = if nrows > 0 {
        matrix[0].len()
    } else {
        0
    };
    let dim = if nrows >= ncols {
        nrows
    } else {
        ncols
    };
    let mut padded: Vec<Vec<T>> = Vec::new();
    if nrows == ncols {
        let mut i: usize = 0;
        while i < nrows
            invariant
                i <= nrows,
                nrows == matrix@.len(),
                padded@.len() == i,
                forall|r: int| 0 <= r < i ==> #[trigger] padded@[r]@ == matrix@[r]@,
            decreases nrows - i,
        {
            let mut row: Vec<T> = Vec::new();
            let mut j: usize = 0;
            while j < matrix[i].len()
                invariant
                    i < matrix@.len(),
                    j <= matrix@[i as int]@.len(),
                    row@ == matrix@[i as int]@.subrange(0, j as int),
                decreases matrix@[i as int]@.len() - j,
            {
                row.push(matrix[i][j]);
                j += 1;
            }
            assert(row@ == matrix@[i as int]@);
            padded.push(row);
            i += 1;
        }
        return padded;
    }
    let mut i: usize = 0;
    while i < dim
        invariant
            i <= dim,
            nrows == matrix@.len(),
            ncols == column_count(matrix@),
            dim == square_side(matrix@),
            forall|r: int| 0 <= r < nrows ==> #[trigger] matrix@[r]@.len() <= dim,
            padded@.len() == i,
            forall|r: int| 0 <= r < i ==> (#[trigger] padded@[r])@.len() == dim,
            forall|r: int, c: int|
                0 <= r < i && 0 <= c < dim ==> #[trigger] padded@[r]@[c] == padded_entry(
                    matrix@,
                    fill,
                    r,
                    c,
                ),
        decreases dim - i,
    {
        let mut row: Vec<T> = Vec::new();
        let mut j: usize = 0;
        while j < dim
            invariant
                j <= dim,
                i < dim,
                nrows == matrix@.len(),
                row@.len() == j,
                forall|c: int| 0 <= c < j ==> #[trigger] row@[c] == padded_entry(matrix@, fill, i as int, c),
            decreases dim - j,
        {
            if i < nrows && j < matrix[i].len() {
                row.push(matrix[i][j]);
            } else {
                row.push(fill);
            }
            j += 1;
        }
        padded.push(row);
        i += 1;
    }
    padded
}

/// Trims a solution of the padded square problem back to the original
/// `nrows × ncols` matrix: a row's column (or a column's row) that lies in the
/// padding becomes `None`. The total is recomputed from `matrix`, starting
/// from `zero`.
pub fn trim_solution<T: Copy, A: Fn(T, T) -> T>(
    matrix: &[Vec<T>],
    row_assign: Vec<Option<usize>>,
    col_assign: Vec<Option<usize>>,
    zero: T,
    plus: &A,
) -> (sol: LapSolution<T>)
    requires
        row_assign@.len() >= matrix@.len(),
        col_assign@.len() >= column_count(matrix@),
        forall|i: int|
            0 <= i < matrix@.len() && (#[trigger] row_assign@[i]) is Some && row_assign@[i]->0
                < column_count(matrix@) ==> row_assign@[i]->0 < matrix@[i]@.len(),
        plus_total(*plus),
    ensures
        sol.1@.len() == matrix@.len(),
        sol.2@.len() == column_count(matrix@),
        forall|i: int|
            0 <= i < matrix@.len() ==> #[trigger] sol.1@[i] == keep_below(
                row_assign@[i],
                column_count(matrix@),
            ),
        forall|j: int|
            0 <= j < column_count(matrix@) ==> #[trigger] sol.2@[j] == keep_below(
                col_assign@[j],
                matrix@.len() as int,
            ),
        is_matching(row_assign@, col_assign@) ==> is_matching(sol.1@, sol.2@),
        is_sum(*plus, zero, assigned_costs(matrix@, sol.1@, matrix@.len() as int), sol.0),
{
    let nrows = matrix.len();
    let ncols = if nrows > 0 {
        matrix[0].len()
    } else {
        0
    };
    let mut rows: Vec<Option<usize>> = Vec::new();
    let mut i: usize = 0;
    while i < nrows
        invariant
            i <= nrows,
            nrows == matrix@.len(),
            ncols == column_count(matrix@),
            row_assign@.len() >= nrows,
            rows@.len() == i,
            forall|r: int| 0 <= r < i ==> #[trigger] rows@[r] == keep_below(row_assign@[r], ncols as int),
        decreases nrows - i,
    {
        let kept = match row_assign[i] {
            Some(j) => if j < ncols {
                Some(j)
            } else {
                None
            },
            None => None,
        };
        rows.push(kept);
        i += 1;
    }
    let mut cols: Vec<Option<usize>> = Vec::new();
    let mut j: usize = 0;
    while j < ncols
        invariant
            j <= ncols,
            nrows == matrix@.len(),
            ncols == column_count(matrix@),
            col_assign@.len() >= ncols,
            cols@.len() == j,
            forall|c: int| 0 <= c < j ==> #[trigger] cols@[c] == keep_below(col_assign@[c], nrows as int),
        decreases ncols - j,
    {
        let kept = match col_assign[j] {
            Some(r) => if r < nrows {
                Some(r)
            } else {
                None
            },
            None => None,
        };
        cols.push(kept);
        j += 1;
    }
    assert forall|r: int| 0 <= r < rows@.len() && (#[trigger] rows@[r]) is Some implies rows@[r]->0
        < matrix@[r]@.len() by {
        assert(row_assign@[r] is Some);
    }
    let total = assignment_cost(matrix, &rows, zero, plus);
    (total, rows, cols)
}

/// Cutting the padding off a least-cost assignment of the padded square
/// leaves an assignment of the original matrix that costs no more than any
/// other that gives the rows of its smaller side distinct partners: every
/// complete assignment of the square pays `fill` the same number of times.
proof fn lemma_trimmed_optimal<T>(
    val: spec_fn(T) -> int,
    matrix: Seq<Vec<T>>,
    fill: T,
    padded: Seq<Vec<T>>,
    square_rows: Seq<Option<usize>>,
    trimmed: Seq<Option<usize>>,
    choice: Seq<Option<usize>>,
)
    requires
        matrix.len() > 0,
        fits_padding(matrix),
        matrix.len() != column_count(matrix) ==> is_rectangular(matrix),
        square_side(matrix) <= usize::MAX,
        padded.len() == square_side(matrix),
        forall|i: int, j: int|
            0 <= i < square_side(matrix) && 0 <= j < square_side(matrix) ==> #[trigger] padded[i]@[j]
                == padded_entry(matrix, fill, i, j),
        square_rows.len() == square_side(matrix),
        forall|r: int| 0 <= r < square_rows.len() ==> (#[trigger] square_rows[r]) is Some,
        forall|r: int| 0 <= r < square_rows.len() ==> (#[trigger] square_rows[r])->0 < square_rows.len(),
        forall|a: int, b: int|
            0 <= a < square_rows.len() && 0 <= b < square_rows.len() && a != b ==> (#[trigger] square_rows[a])->0
                != (#[trigger] square_rows[b])->0,
        forall|perm: Seq<int>|
            is_permutation(perm, square_side(matrix)) ==> items_value(
                val,
                assigned_costs(padded, square_rows, square_side(matrix)),
            ) <= #[trigger] assignment_value(val, padded, perm),
        trimmed.len() == matrix.len(),
        forall|r: int| 0 <= r < matrix.len() ==> #[trigger] trimmed[r] == keep_below(square_rows[r], column_count(matrix)),
        is_full_choice(choice, matrix.len() as int, column_count(matrix)),
    ensures
        choice_value(val, matrix, trimmed) <= choice_value(val, matrix, choice),
{
    let nr = matrix.len() as int;
    let nc = column_count(matrix);
    let dim = square_side(matrix);
    let fv = val(fill);
    let sigma = Seq::new(dim as nat, |r: int| square_rows[r]->0 as int);
    assert forall|a: int, b: int| 0 <= a < dim && 0 <= b < dim && a != b implies #[trigger] sigma[a]
        != #[trigger] sigma[b] by {
        assert(square_rows[a]->0 != square_rows[b]->0);
    }
    assert forall|r: int| 0 <= r < dim implies 0 <= #[trigger] sigma[r] < dim by {
        assert(square_rows[r]->0 < dim);
    }
    assert(is_permutation(sigma, dim));
    // The least-cost square assignment is worth its value.
    lemma_assigned_costs_value(val, padded, square_rows, dim);
    lemma_sum_congruent(
        |r: int|
            if square_rows[r] is Some {
                val(padded[r]@[square_rows[r]->0 as int])
            } else {
                0
            },
        |r: int| val(padded[r]@[sigma[r]]),
        dim,
    );
    // Extend the competitor to a complete assignment of the square.
    let tau = Seq::new(dim as nat, |r: int| if r < nr { choice[r] } else { None });
    assert forall|a: int, b: int|
        0 <= a < dim && 0 <= b < dim && a != b && (#[trigger] tau[a]) is Some && (#[trigger] tau[b]) is Some
            implies tau[a]->0 != tau[b]->0 by {
        assert(choice[a] is Some && choice[b] is Some);
    }
    assert forall|r: int| 0 <= r < dim && (#[trigger] tau[r]) is Some implies tau[r]->0 < dim by {
        assert(choice[r] is Some);
    }
    let pi = lemma_extend_to_permutation(tau, dim);
    assert(assignment_value(val, padded, sigma) <= assignment_value(val, padded, pi));
    // Rows of the competitor without a column got a padding column.
    let some_rows = |r: int| choice[r] is Some;
    lemma_count_is_set_size(some_rows, nr);
    lemma_sum_congruent(
        |x: int| if some_rows(x) { 1int } else { 0int },
        |r: int| if choice[r] is Some { 1int } else { 0int },
        nr,
    );
    let chosen = Set::new(|x: int| 0 <= x < nr && some_rows(x));
    assert(chosen.len() == chosen_count(choice));
    lemma_int_range(0, nr);
    lemma_int_range(0, nc);
    assert forall|r: int| 0 <= r < nr && (#[trigger] choice[r]) is None implies pi[r] >= nc by {
        if nr <= nc {
            assert(chosen.subset_of(set_int_range(0, nr)));
            lemma_subset_equality(chosen, set_int_range(0, nr));
            assert(chosen.contains(r));
        } else {
            let f = |x: int| choice[x]->0 as int;
            let image = chosen.map(f);
            assert(injective_on(f, chosen)) by {
                assert forall|a: int, b: int| chosen.contains(a) && chosen.contains(b) && #[trigger] f(a)
                    == #[trigger] f(b) implies a == b by {
                    if a != b {
                        assert(choice[a]->0 != choice[b]->0);
                    }
                }
            }
            lemma_map_size(chosen, image, f);
            assert(image.subset_of(set_int_range(0, nc))) by {
                assert forall|c: int| image.contains(c) implies set_int_range(0, nc).contains(c) by {
                    let x = choose|x: int| chosen.contains(x) && f(x) == c;
                }
            }
            lemma_subset_equality(image, set_int_range(0, nc));
            if pi[r] < nc {
                assert(set_int_range(0, nc).contains(pi[r]));
                assert(image.contains(pi[r]));
                let q = choose|q: int| chosen.contains(q) && f(q) == pi[r];
                assert(tau[q] is Some && tau[r] is None);
            }
        }
    }
    // Split every complete assignment of the square into its real part and
    // what it pays for padding.
    let real_sigma = |r: int| if r < nr && sigma[r] < nc { val(matrix[r]@[sigma[r]]) } else { 0 };
    let pad_sigma = |r: int| if r < nr && sigma[r] < nc { 0 } else { fv };
    let real_pi = |r: int| if r < nr && pi[r] < nc { val(matrix[r]@[pi[r]]) } else { 0 };
    let pad_pi = |r: int| if r < nr && pi[r] < nc { 0 } else { fv };
    assert forall|r: int| 0 <= r < dim implies #[trigger] val(padded[r]@[sigma[r]]) == real_sigma(r)
        + pad_sigma(r) by {
        assert(padded[r]@[sigma[r]] == padded_entry(matrix, fill, r, sigma[r]));
        if r < nr {
            assert(matrix[r]@.len() >= nc);
            if nr != nc {
                assert(matrix[r]@.len() == nc);
            }
        }
    }
    assert forall|r: int| 0 <= r < dim implies #[trigger] val(padded[r]@[pi[r]]) == real_pi(r) + pad_pi(r) by {
        assert(padded[r]@[pi[r]] == padded_entry(matrix, fill, r, pi[r]));
        if r < nr {
            assert(matrix[r]@.len() >= nc);
            if nr != nc {
                assert(matrix[r]@.len() == nc);
            }
        }
    }
    lemma_sum_add(real_sigma, pad_sigma, |r: int| val(padded[r]@[sigma[r]]), dim);
    lemma_sum_add(real_pi, pad_pi, |r: int| val(padded[r]@[pi[r]]), dim);
    // Both pay for padding the same number of times.
    if nr <= nc {
        let g = |r: int| if r < nr { 0 } else { fv };
        lemma_sum_congruent(pad_sigma, g, dim);
        lemma_sum_congruent(pad_pi, g, dim);
    } else {
        let g = |c: int| if c < nc { 0 } else { fv };
        lemma_sum_congruent(pad_sigma, |r: int| g(sigma[r]), dim);
        lemma_sum_congruent(pad_pi, |r: int| g(pi[r]), dim);
        lemma_sum_permuted(g, sigma, dim);
        lemma_sum_permuted(g, pi, dim);
    }
    // The real parts are the trimmed assignment and the competitor.
    lemma_sum_zero_tail(real_sigma, nr, dim);
    lemma_sum_zero_tail(real_pi, nr, dim);
    lemma_sum_congruent(
        real_sigma,
        |r: int|
            if trimmed[r] is Some {
                val(matrix[r]@[trimmed[r]->0 as int])
            } else {
                0
            },
        nr,
    );
    assert forall|r: int| 0 <= r < nr implies #[trigger] real_pi(r) == (if choice[r] is Some {
        val(matrix[r]@[choice[r]->0 as int])
    } else {
        0
    }) by {
        if choice[r] is Some {
            assert(tau[r] is Some);
            assert(pi[r] == choice[r]->0);
        }
    }
    lemma_sum_congruent(
        real_pi,
        |r: int|
            if choice[r] is Some {
                val(matrix[r]@[choice[r]->0 as int])
            } else {
                0
            },
        nr,
    );
}

/// Solves a (possibly rectangular) assignment problem: the matrix is padded to
/// a square with `fill`, the square problem is solved with [`sap_solve`], and
/// the solution is trimmed back to the original shape.
///
/// When there are no more rows than columns every row gets a column; when
/// there are no more columns than rows every column gets a row.
pub fn solve_padded<T: Copy, A: Fn(T, T) -> T, S: Fn(T, T) -> T, L: Fn(T, T) -> bool>(
    matrix: &[Vec<T>],
    fill: T,
    zero: T,
    plus: &A,
    minus: &S,
    less: &L,
) -> (sol: LapSolution<T>)
    requires
        fits_padding(matrix@),
        square_side(matrix@) < usize::MAX,
        arithmetic_total(*plus, *minus, *less),
    ensures
        sol.1@.len() == matrix@.len(),
        sol.2@.len() == column_count(matrix@),
        is_matching(sol.1@, sol.2@),
        matrix@.len() <= column_count(matrix@) ==> all_assigned(sol.1@),
        column_count(matrix@) <= matrix@.len() ==> all_assigned(sol.2@),
        is_full_choice(sol.1@, matrix@.len() as int, column_count(matrix@)),
        is_sum(*plus, zero, assigned_costs(matrix@, sol.1@, matrix@.len() as int), sol.0),
        matrix@.len() == column_count(matrix@) || is_rectangular(matrix@) ==> forall|
            val: spec_fn(T) -> int,
            choice: Seq<Option<usize>>,
        |
            exact_arithmetic(*plus, *minus, *less, zero, val) && is_full_choice(
                choice,
                matrix@.len() as int,
                column_count(matrix@),
            ) ==> val(sol.0) <= #[trigger] choice_value(val, matrix@, choice),
        least_cost_padded(*plus, *minus, *less, zero, matrix@, sol),
{
    let nrows = matrix.len();
    if nrows == 0 {
        let rows: Vec<Option<usize>> = Vec::new();
        let total = assignment_cost(matrix, &rows, zero, plus);
        proof {
            assert forall|val: spec_fn(T) -> int, choice: Seq<Option<usize>>|
                exact_arithmetic(*plus, *minus, *less, zero, val) && is_full_choice(
                    choice,
                    matrix@.len() as int,
                    column_count(matrix@),
                ) implies val(total) <= #[trigger] choice_value(val, matrix@, choice) by {
                lemma_sum_reads_as_total(*plus, *minus, *less, zero, val, assigned_costs(matrix@, rows@, 0), total);
            }
        }
        return (total, rows, Vec::new());
    }
    let padded = pad_to_square(matrix, fill);
    let ghost dim = padded@.len();
    assert forall|i: int| 0 <= i < dim implies #[trigger] padded@[i]@.len() >= dim by {
        if nrows == column_count(matrix@) {
            assert(padded@[i]@ == matrix@[i]@);
        }
    }
    let (square_total, row_assign, col_assign) = sap_solve(&padded, zero, plus, minus, less);
    let sol = trim_solution(matrix, row_assign, col_assign, zero, plus);
    proof {
        let nc = column_count(matrix@);
        if nrows <= nc {
            assert forall|i: int| 0 <= i < sol.1@.len() implies (#[trigger] sol.1@[i]) is Some by {
                assert(row_assign@[i] is Some);
            }
        }
        if nc <= nrows {
            assert forall|j: int| 0 <= j < sol.2@.len() implies (#[trigger] sol.2@[j]) is Some by {
                assert(col_assign@[j] is Some);
            }
        }
        let nr = nrows as int;
        lemma_matching_is_full_choice(sol.1@, sol.2@, nr, nc);
        assert forall|i: int, j: int| 0 <= i < dim && 0 <= j < dim implies #[trigger] padded@[i]@[j]
            == padded_entry(matrix@, fill, i, j) by {
            if nr == nc {
                assert(padded@[i]@ == matrix@[i]@);
                assert(matrix@[i]@.len() >= nc);
            }
        }
        assert forall|a: int, b: int|
            0 <= a < row_assign@.len() && 0 <= b < row_assign@.len() && a != b implies (
            #[trigger] row_assign@[a])->0 != (#[trigger] row_assign@[b])->0 by {
            assert(row_assign@[a] is Some && row_assign@[b] is Some);
            assert(col_assign@[row_assign@[a]->0 as int] == Some(a as usize));
            assert(col_assign@[row_assign@[b]->0 as int] == Some(b as usize));
        }
        assert forall|r: int| 0 <= r < row_assign@.len() implies (#[trigger] row_assign@[r])->0
            < row_assign@.len() by {
            assert(row_assign@[r] is Some);
        }
        assert forall|val: spec_fn(T) -> int, choice: Seq<Option<usize>>|
            (nr == nc || is_rectangular(matrix@)) && exact_arithmetic(*plus, *minus, *less, zero, val)
                && is_full_choice(
                choice,
                matrix@.len() as int,
                column_count(matrix@),
            ) implies val(sol.0) <= #[trigger] choice_value(val, matrix@, choice) by {
            lemma_sum_reads_as_total(
                *plus,
                *minus,
                *less,
                zero,
                val,
                assigned_costs(padded@, row_assign@, dim as int),
                square_total,
            );
            lemma_sum_reads_as_total(
                *plus,
                *minus,
                *less,
                zero,
                val,
                assigned_costs(matrix@, sol.1@, nr),
                sol.0,
            );
            lemma_assigned_costs_value(val, matrix@, sol.1@, nr);
            lemma_trimmed_optimal(val, matrix@, fill, padded@, row_assign@, sol.1@, choice);
        }
    }
    sol
}

} // verus!

