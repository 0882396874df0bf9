use vstd::prelude::*;
use vstd::set_lib::*;

use crate::cost::{arithmetic_total, assigned_costs, assignment_cost, is_sum};
use crate::duals::{
    in_tree,
    lemma_shift_duals,
    matched_tight,
    reduced,
    row_feasible,
    rows_feasible,
    slack_bounds,
    tree_tight,
};
use crate::duals::lemma_tight_assignment_is_minimal;
use crate::optimality::{assignment_value, exact_arithmetic, is_permutation, lemma_sum_reads_as_total};
use crate::matching::{all_assigned, is_matching, LapSolution};

use crate::results::least_cost_square;

verus! {

/// The columns `1..=n` that the 1-based column table `p` gives a row.
pub open spec fn matched_columns(p: Seq<usize>, n: int) -> Set<int> {
    Set::new(|j: int| 1 <= j <= n && p[j] != 0)
}

/// Row `r` is given to some column `1..=n` of the table `p`.
pub open spec fn row_placed(p: Seq<usize>, n: int, r: int) -> bool {
    exists|j: int| 1 <= j <= n && #[trigger] p[j] == r
}

/// `p[j]` (1-based, `0` for none) is the row given to column `j`; the rows
/// `1..=k` are each given to exactly one of the columns `1..=n`, and no other
/// row is given to any.
pub open spec fn partial_column_matching(p: Seq<usize>, n: int, k: int) -> bool {
    &&& p.len() == n + 1
    &&& 0 <= k <= n
    &&& forall|j: int| 1 <= j <= n ==> #[trigger] p[j] <= k
    &&& forall|a: int, b: int|
        1 <= a <= n && 1 <= b <= n && a != b && p[a] != 0 ==> #[trigger] p[a] != #[trigger] p[b]
    &&& forall|r: int| 1 <= r <= k ==> #[trigger] row_placed(p, n, r)
    &&& matched_columns(p, n).len() == k
}

/// The search tree of one augmenting-path search: every visited column but
/// column `0` was reached from a column visited earlier (`rank` orders the
/// visits), and every visited column other than `0` already has a row.
pub open spec fn search_tree(
    p: Seq<usize>,
    way: Seq<usize>,
    used: Seq<bool>,
    rank: Seq<int>,
    steps: int,
    n: int,
) -> bool {
    &&& way.len() == n + 1
    &&& used.len() == n + 1
    &&& rank.len() == n + 1
    &&& forall|j: int| 0 <= j <= n ==> #[trigger] way[j] <= n
    &&& forall|j: int|
        1 <= j <= n && #[trigger] used[j] ==> {
            &&& used[way[j] as int]
            &&& rank[way[j] as int] < rank[j]
            &&& p[j] != 0
        }
    &&& forall|j: int| 0 <= j <= n && #[trigger] used[j] ==> 0 <= rank[j] < steps
}

proof fn lemma_matched_finite(p: Seq<usize>, n: int)
    requires
        n >= 0,
    ensures
        matched_columns(p, n).finite(),
        matched_columns(p, n).subset_of(set_int_range(1, n + 1)),
        matched_columns(p, n).len() <= n,
{
    lemma_int_range(1, n + 1);
    lemma_len_subset(matched_columns(p, n), set_int_range(1, n + 1));
}

/// Flips the augmenting path that ends in the free column `jf`: along the
/// path back to column `0`, each column takes the row of the column it was
/// reached from, so that row `p[0]` gets a column.
fn augment<T>(
    p: &mut Vec<usize>,
    way: &Vec<usize>,
    jf: usize,
    n: usize,
    Ghost(used): Ghost<Seq<bool>>,
    Ghost(rank): Ghost<Seq<int>>,
    Ghost(steps): Ghost<int>,
    Ghost(cost): Ghost<Seq<Vec<T>>>,
    Ghost(u): Ghost<Seq<T>>,
    Ghost(v): Ghost<Seq<T>>,
)
    requires
        1 <= old(p)@[0] <= n,
        partial_column_matching(old(p)@, n as int, old(p)@[0] - 1),
        search_tree(old(p)@, way@, used, rank, steps, n as int),
        1 <= jf <= n,
        !used[jf as int],
        old(p)@[jf as int] == 0,
        used[way@[jf as int] as int],
    ensures
        final(p)@[0] == old(p)@[0],
        partial_column_matching(final(p)@, n as int, old(p)@[0] as int),
        forall|val: spec_fn(T) -> int|
            matched_tight(val, cost, u, v, old(p)@, n as int) && tree_tight(
                val,
                cost,
                u,
                v,
                old(p)@,
                way@,
                used,
                n as int,
            ) && reduced(val, cost, u, v, old(p)@[way@[jf as int] as int] as int, jf as int) == 0
                ==> #[trigger] matched_tight(val, cost, u, v, final(p)@, n as int),
{
    let ghost i: int = p@[0] as int;
    let ghost p0 = p@;
    let ghost nn = n as int;
    let mut j0: usize = jf;
    let ghost mut prev: int = -1;
    loop
        invariant_except_break
            1 <= j0 <= nn,
            prev == -1 ==> (j0 == jf && p@ == p0),
            prev != -1 ==> {
                &&& 1 <= prev <= nn
                &&& used[j0 as int]
                &&& prev != j0
                &&& p@[prev] == p@[j0 as int]
                &&& prev == jf || (used[prev] && rank[j0 as int] < rank[prev])
            },
            forall|a: int, b: int|
                1 <= a <= nn && 1 <= b <= nn && a != b && p@[a] != 0 && #[trigger] p@[a]
                    == #[trigger] p@[b] ==> ((a == prev && b == j0) || (a == j0 && b == prev)),
            forall|a: int| 1 <= a <= nn ==> #[trigger] p@[a] < i,
            forall|a: int|
                1 <= a <= nn ==> ((#[trigger] p@[a] != 0) == (p0[a] != 0 || (a == jf && prev
                    != -1))),
            forall|a: int| 1 <= a <= nn && #[trigger] used[a] ==> p@[a] != 0,
            forall|r: int| 1 <= r < i ==> #[trigger] row_placed(p@, nn, r),
            forall|a: int|
                1 <= a <= nn && #[trigger] p@[a] != p0[a] ==> a == jf || (used[a] && prev != -1
                    && rank[a] > rank[j0 as int]),
        invariant
            forall|a: int|
                1 <= a <= nn ==> #[trigger] p@[a] == p0[a] || ((used[a] || a == jf) && p@[a] == p0[way@[
                    a
                ] as int]),
            p@.len() == nn + 1,
            p@[0] == i,
            p0[0] == i,
            1 <= i <= nn,
            search_tree(p0, way@, used, rank, steps, nn),
            1 <= jf <= nn,
            !used[jf as int],
            used[way@[jf as int] as int],
            p0[jf as int] == 0,
            partial_column_matching(p0, nn, i - 1),
        ensures
            partial_column_matching(p@, nn, i),
        decreases
                if used[j0 as int] {
                    rank[j0 as int]
                } else {
                    steps
                },
    {
        let j1 = way[j0];
        let ghost before = p@;
        assert(used[j1 as int]);
        assert(0 <= rank[j1 as int] < steps);
        let row = p[j1];
        p.set(j0, row);
        proof {
            // Every row placed before is still placed: the overwritten value
            // is still held by `prev`.
            assert forall|r: int| 1 <= r < i implies #[trigger] row_placed(p@, nn, r) by {
                assert(row_placed(before, nn, r));
                let w = choose|w: int| 1 <= w <= nn && #[trigger] before[w] == r;
                if w != j0 {
                    assert(p@[w] == r);
                } else {
                    assert(prev != -1);
                    assert(p@[prev] == r);
                }
            }
        }
        if j1 == 0 {
            proof {
                assert(p@[j0 as int] == i);
                assert(row_placed(p@, nn, i));
                assert forall|a: int, b: int|
                    1 <= a <= nn && 1 <= b <= nn && a != b && p@[a] != 0 implies #[trigger] p@[a]
                    != #[trigger] p@[b] by {
                    if a == j0 as int || b == j0 as int {
                    } else if p@[a] == p@[b] {
                        assert(before[a] == before[b]);
                    }
                }
                assert forall|r: int| 1 <= r <= i implies #[trigger] row_placed(p@, nn, r) by {
                    if r < i {
                    }
                }
                assert(matched_columns(p@, nn) =~= matched_columns(p0, nn).insert(jf as int));
                assert(!matched_columns(p0, nn).contains(jf as int));
                lemma_matched_finite(p@, nn);
                assert forall|a: int| 1 <= a <= nn implies #[trigger] p@[a] <= i by {
                    if a != j0 as int {
                        assert(before[a] < i);
                    }
                }
                lemma_matched_finite(p0, nn);
                assert(matched_columns(p0, nn).len() == i - 1);
                assert(matched_columns(p@, nn).len() == i);
                assert(forall|r: int| 1 <= r <= i ==> #[trigger] row_placed(p@, nn, r));
            }
            break;
        }
        proof {
            assert(used[j1 as int] && j1 >= 1);
            assert(before[j1 as int] != 0);
            assert(j1 != j0);
            assert(j1 as int != prev);
            assert forall|a: int, b: int|
                1 <= a <= nn && 1 <= b <= nn && a != b && p@[a] != 0 && #[trigger] p@[a]
                    == #[trigger] p@[b] implies ((a == j0 && b == j1) || (a == j1 && b == j0)) by {
                if a == j0 as int {
                    assert(before[b] == before[j1 as int]);
                } else if b == j0 as int {
                    assert(before[a] == before[j1 as int]);
                } else {
                    assert(before[a] == before[b]);
                }
            }
            prev = j0 as int;
        }
        j0 = j1;
    }
    proof {
        assert forall|val: spec_fn(T) -> int|
            matched_tight(val, cost, u, v, p0, nn) && tree_tight(val, cost, u, v, p0, way@, used, nn)
                && reduced(val, cost, u, v, p0[way@[jf as int] as int] as int, jf as int) == 0 implies
            #[trigger] matched_tight(val, cost, u, v, p@, nn) by {
            assert forall|j: int| 1 <= j <= nn && p@[j] != 0 implies #[trigger] reduced(
                val,
                cost,
                u,
                v,
                p@[j] as int,
                j,
            ) == 0 by {
                if p@[j] == p0[j] {
                    assert(reduced(val, cost, u, v, p0[j] as int, j) == 0);
                } else if j == jf as int {
                } else {
                    assert(used[j]);
                    assert(reduced(val, cost, u, v, p0[way@[j] as int] as int, j) == 0);
                }
            }
        }
    }
}
/// The columns `0..=n` that the search has visited.
pub open spec fn visited_columns(used: Seq<bool>, n: int) -> Set<int> {
    Set::new(|j: int| 0 <= j <= n && used[j])
}

proof fn lemma_visited_finite(used: Seq<bool>, n: int)
    requires
        n >= 0,
    ensures
        visited_columns(used, n).finite(),
        visited_columns(used, n).len() <= n + 1,
{
    lemma_int_range(0, n + 1);
    lemma_len_subset(visited_columns(used, n), set_int_range(0, n + 1));
}

/// The dual facts that hold between two rows of the method, for every exact
/// reading `val`: the rows `1..=k` are feasible and every column holding a row
/// is tight with it.
pub open spec fn duals_hold<T, A: Fn(T, T) -> T, S: Fn(T, T) -> T, L: Fn(T, T) -> bool>(
    plus: A,
    minus: S,
    less: L,
    zero: T,
    cost: Seq<Vec<T>>,
    u: Seq<T>,
    v: Seq<T>,
    p: Seq<usize>,
    k: int,
    n: int,
) -> bool {
    forall|val: spec_fn(T) -> int|
        #[trigger] exact_arithmetic(plus, minus, less, zero, val) ==> rows_feasible(val, cost, u, v, k, n)
            && matched_tight(val, cost, u, v, p, n)
}

/// Grows a shortest-path tree from column `0` (which holds the row `p[0]`
/// that still needs a column) until it reaches a column without a row, and
/// moves the dual values `u`, `v` by the distance found at each step.
/// Returns that free column, with the visited columns and the order of the
/// visits.
fn search_path<T: Copy, A: Fn(T, T) -> T, S: Fn(T, T) -> T, L: Fn(T, T) -> bool>(
    cost: &[Vec<T>],
    p: &Vec<usize>,
    way: &mut Vec<usize>,
    u: &mut Vec<T>,
    v: &mut Vec<T>,
    n: usize,
    plus: &A,
    minus: &S,
    less: &L,
    Ghost(zero): Ghost<T>,
) -> (res: (usize, Ghost<Seq<bool>>, Ghost<Seq<int>>, Ghost<int>))
    requires
        1 <= p@[0] <= n,
        n < usize::MAX,
        partial_column_matching(p@, n as int, p@[0] - 1),
        old(way)@.len() == n + 1,
        forall|j: int| 0 <= j <= n ==> #[trigger] old(way)@[j] <= n,
        old(u)@.len() == n + 1,
        old(v)@.len() == n + 1,
        cost@.len() == n,
        forall|i: int| 0 <= i < n ==> #[trigger] cost@[i]@.len() >= n,
        arithmetic_total(*plus, *minus, *less),
        duals_hold(*plus, *minus, *less, zero, cost@, old(u)@, old(v)@, p@, p@[0] - 1, n as int),
    ensures
        final(u)@.len() == n + 1,
        final(v)@.len() == n + 1,
        search_tree(p@, final(way)@, res.1@, res.2@, res.3@, n as int),
        1 <= res.0 <= n,
        !res.1@[res.0 as int],
        p@[res.0 as int] == 0,
        res.1@[final(way)@[res.0 as int] as int],
        duals_hold(*plus, *minus, *less, zero, cost@, final(u)@, final(v)@, p@, p@[0] as int, n as int),
        forall|val: spec_fn(T) -> int|
            #[trigger] exact_arithmetic(*plus, *minus, *less, zero, val) ==> tree_tight(
                val,
                cost@,
                final(u)@,
                final(v)@,
                p@,
                final(way)@,
                res.1@,
                n as int,
            ) && reduced(
                val,
                cost@,
                final(u)@,
                final(v)@,
                p@[final(way)@[res.0 as int] as int] as int,
                res.0 as int,
            ) == 0,
{
    let ghost nn = n as int;
    let ghost i = p@[0] as int;
    let ghost c = cost@;
    let mut minv: Vec<Option<T>> = Vec::new();
    let mut used: Vec<bool> = Vec::new();
    let mut k: usize = 0;
    while k <= n
        invariant
            k <= n + 1,
            n < usize::MAX,
            minv@.len() == k,
            used@.len() == k,
            forall|j: int| 0 <= j < k ==> !(#[trigger] used@[j]),
            forall|j: int| 0 <= j < k ==> (#[trigger] minv@[j]) is None,
        decreases n + 1 - k,
    {
        minv.push(None);
        used.push(false);
        k += 1;
    }
    let ghost mut rank: Seq<int> = Seq::new((n + 1) as nat, |j: int| 0);
    let ghost mut steps: int = 0;
    let mut j0: usize = 0;
    proof {
        assert(visited_columns(used@, nn) =~= Set::empty());
    }
    loop
        invariant
            nn == n,
            c == cost@,
            minv@.len() == nn + 1,
            used@.len() == nn + 1,
            way@.len() == nn + 1,
            u@.len() == nn + 1,
            v@.len() == nn + 1,
            1 <= i <= nn,
            p@[0] == i,
            n < usize::MAX,
            partial_column_matching(p@, nn, i - 1),
            cost@.len() == n,
            forall|r: int| 0 <= r < n ==> #[trigger] cost@[r]@.len() >= n,
            arithmetic_total(*plus, *minus, *less),
            j0 <= n,
            !used@[j0 as int],
            j0 != 0 ==> used@[way@[j0 as int] as int] && p@[j0 as int] != 0 && minv@[j0 as int] is Some,
            search_tree(p@, way@, used@, rank, steps, nn),
            forall|j: int|
                1 <= j <= nn && !(#[trigger] used@[j]) && minv@[j] is Some ==> used@[way@[j] as int],
            visited_columns(used@, nn).len() == steps,
            0 <= steps,
            steps == 0 ==> j0 == 0 && forall|j: int| 0 <= j <= nn ==> !(#[trigger] used@[j]),
            steps > 0 ==> used@[0],
            steps > 0 ==> forall|j: int| 1 <= j <= nn && !(#[trigger] used@[j]) ==> minv@[j] is Some,
            forall|val: spec_fn(T) -> int|
                #[trigger] exact_arithmetic(*plus, *minus, *less, zero, val) ==> {
                    &&& rows_feasible(val, c, u@, v@, i - 1, nn)
                    &&& matched_tight(val, c, u@, v@, p@, nn)
                    &&& (steps > 0 ==> row_feasible(val, c, u@, v@, i, nn))
                    &&& tree_tight(val, c, u@, v@, p@, way@, used@, nn)
                    &&& slack_bounds(val, c, u@, v@, p@, way@, used@, minv@, nn)
                    &&& (j0 != 0 ==> val(minv@[j0 as int]->0) == 0)
                },
        decreases nn + 1 - steps,
    {
        proof {
            lemma_visited_finite(used@, nn);
            assert(!visited_columns(used@, nn).contains(j0 as int));
        }
        let ghost visited_before = visited_columns(used@, nn);
        let ghost first = steps == 0;
        let ghost used_before = used@;
        used.set(j0, true);
        proof {
            assert(visited_columns(used@, nn) =~= visited_before.insert(j0 as int));
            rank = rank.update(j0 as int, steps);
            steps = steps + 1;
            lemma_visited_finite(used@, nn);
            assert forall|val: spec_fn(T) -> int|
                #[trigger] exact_arithmetic(*plus, *minus, *less, zero, val) implies {
                    &&& tree_tight(val, c, u@, v@, p@, way@, used@, nn)
                    &&& forall|jj: int|
                        1 <= jj <= nn && !used@[jj] && minv@[jj] is Some ==> val(minv@[jj]->0)
                            == #[trigger] reduced(val, c, u@, v@, p@[way@[jj] as int] as int, jj)
                    &&& forall|jj: int, kk: int|
                        1 <= jj <= nn && 0 <= kk <= nn && !used@[jj] && used@[kk] && kk != j0
                            && minv@[jj] is Some ==> val(minv@[jj]->0) <= #[trigger] reduced(
                            val,
                            c,
                            u@,
                            v@,
                            p@[kk] as int,
                            jj,
                        )
                } by {
                assert(slack_bounds(val, c, u@, v@, p@, way@, used_before, minv@, nn));
                assert(tree_tight(val, c, u@, v@, p@, way@, used_before, nn));
                if j0 != 0 {
                    assert(val(minv@[j0 as int]->0) == reduced(
                        val,
                        c,
                        u@,
                        v@,
                        p@[way@[j0 as int] as int] as int,
                        j0 as int,
                    ));
                }
                assert forall|jj: int, kk: int|
                    1 <= jj <= nn && 0 <= kk <= nn && !used@[jj] && used@[kk] && kk != j0
                        && minv@[jj] is Some implies val(minv@[jj]->0) <= #[trigger] reduced(
                    val,
                    c,
                    u@,
                    v@,
                    p@[kk] as int,
                    jj,
                ) by {
                    assert(used_before[kk]);
                }
            }
        }
        let i0 = p[j0];
        assert(1 <= i0 <= n);
        let ghost way_before_scan = way@;
        let mut delta: Option<T> = None;
        let mut j1: usize = 0;
        let mut j: usize = 1;
        while j <= n
            invariant
                nn == n,
                c == cost@,
                1 <= j <= nn + 1,
                minv@.len() == nn + 1,
                used@.len() == nn + 1,
                way@.len() == nn + 1,
                u@.len() == nn + 1,
                v@.len() == nn + 1,
                n < usize::MAX,
                p@.len() == nn + 1,
                i0 == p@[j0 as int],
                1 <= i0 <= n,
                cost@.len() == n,
                forall|r: int| 0 <= r < n ==> #[trigger] cost@[r]@.len() >= n,
                arithmetic_total(*plus, *minus, *less),
                used@[j0 as int],
                j0 <= n,
                search_tree(p@, way@, used@, rank, steps, nn),
                forall|jj: int|
                    1 <= jj <= nn && !(#[trigger] used@[jj]) && minv@[jj] is Some ==> used@[way@[
                        jj
                    ] as int],
                forall|jj: int| 1 <= jj < j && !(#[trigger] used@[jj]) ==> minv@[jj] is Some,
                first ==> forall|kk: int| 0 <= kk <= nn && #[trigger] used@[kk] ==> kk == j0,
                !first ==> forall|jj: int| 1 <= jj <= nn && !(#[trigger] used@[jj]) ==> minv@[jj] is Some,
                forall|jj: int| 0 <= jj <= nn && (#[trigger] used@[jj]) ==> way@[jj] == way_before_scan[jj],
                delta is None ==> forall|jj: int| 1 <= jj < j ==> #[trigger] used@[jj],
                delta is Some ==> {
                    &&& 1 <= j1 < j
                    &&& !used@[j1 as int]
                    &&& minv@[j1 as int] is Some
                },
                forall|val: spec_fn(T) -> int|
                    #[trigger] exact_arithmetic(*plus, *minus, *less, zero, val) ==> {
                        &&& tree_tight(val, c, u@, v@, p@, way@, used@, nn)
                        &&& forall|jj: int|
                            1 <= jj <= nn && !used@[jj] && minv@[jj] is Some ==> val(minv@[jj]->0)
                                == #[trigger] reduced(val, c, u@, v@, p@[way@[jj] as int] as int, jj)
                        &&& forall|jj: int, kk: int|
                            1 <= jj <= nn && 0 <= kk <= nn && !used@[jj] && used@[kk] && (kk != j0 || jj
                                < j) && minv@[jj] is Some ==> val(minv@[jj]->0)
                                <= #[trigger] reduced(val, c, u@, v@, p@[kk] as int, jj)
                        &&& (delta is Some ==> val(delta->0) == val(minv@[j1 as int]->0))
                        &&& (delta is Some ==> forall|jj: int|
                            1 <= jj < j && !(#[trigger] used@[jj]) ==> val(delta->0) <= val(
                                minv@[jj]->0,
                            ))
                    },
            decreases nn + 1 - j,
        {
            if !used[j] {
                let ghost minv_prev = minv@;
                let ghost way_prev = way@;
                let ghost delta_prev = delta;
                let a = minus(cost[i0 - 1][j - 1], u[i0]);
                let cur = minus(a, v[j]);
                let better = match minv[j] {
                    None => true,
                    Some(m) => less(cur, m),
                };
                if better {
                    minv.set(j, Some(cur));
                    way.set(j, j0);
                }
                let m = minv[j].unwrap();
                let take = match delta {
                    None => true,
                    Some(d) => less(m, d),
                };
                if take {
                    delta = Some(m);
                    j1 = j;
                }
                proof {
                    assert forall|val: spec_fn(T) -> int|
                        #[trigger] exact_arithmetic(*plus, *minus, *less, zero, val) implies {
                            &&& tree_tight(val, c, u@, v@, p@, way@, used@, nn)
                            &&& forall|jj: int|
                                1 <= jj <= nn && !used@[jj] && minv@[jj] is Some ==> val(
                                    minv@[jj]->0,
                                ) == #[trigger] reduced(
                                    val,
                                    c,
                                    u@,
                                    v@,
                                    p@[way@[jj] as int] as int,
                                    jj,
                                )
                            &&& forall|jj: int, kk: int|
                                1 <= jj <= nn && 0 <= kk <= nn && !used@[jj] && used@[kk] && (kk
                                    != j0 || jj < j + 1) && minv@[jj] is Some ==> val(minv@[jj]->0)
                                    <= #[trigger] reduced(val, c, u@, v@, p@[kk] as int, jj)
                            &&& (delta is Some ==> val(delta->0) == val(minv@[j1 as int]->0))
                            &&& (delta is Some ==> forall|jj: int|
                                1 <= jj < j + 1 && !(#[trigger] used@[jj]) ==> val(delta->0)
                                    <= val(minv@[jj]->0))
                        } by {
                        let rc = reduced(val, c, u@, v@, i0 as int, j as int);
                        assert(val(cur) == rc);
                        assert forall|jj: int| 1 <= jj <= nn && used@[jj] implies #[trigger] reduced(
                            val,
                            c,
                            u@,
                            v@,
                            p@[way@[jj] as int] as int,
                            jj,
                        ) == 0 by {
                            assert(way@[jj] == way_prev[jj]);
                        }
                        assert forall|jj: int, kk: int|
                            1 <= jj <= nn && 0 <= kk <= nn && !used@[jj] && used@[kk] && (kk != j0
                                || jj < j + 1) && minv@[jj] is Some implies val(minv@[jj]->0)
                            <= #[trigger] reduced(val, c, u@, v@, p@[kk] as int, jj) by {
                            if jj == j as int {
                                if kk == j0 as int {
                                    assert(p@[kk] == i0);
                                    if !better {
                                        assert(minv_prev[jj] is Some);
                                        assert(call_ensures(*less, (cur, minv_prev[jj]->0), false));
                                    }
                                } else {
                                    assert(!first);
                                    assert(minv_prev[jj] is Some);
                                    assert(val(minv_prev[jj]->0) <= reduced(
                                        val,
                                        c,
                                        u@,
                                        v@,
                                        p@[kk] as int,
                                        jj,
                                    ));
                                }
                            }
                        }
                    }
                }
            }
            j += 1;
        }
        if delta.is_none() {
            proof {
                // Every column has been visited, yet only `i - 1 < n` of them hold a row.
                lemma_int_range(1, nn + 1);
                lemma_matched_finite(p@, nn);
                assert forall|cc: int| set_int_range(1, nn + 1).contains(cc) implies matched_columns(
                    p@,
                    nn,
                ).contains(cc) by {
                    assert(used@[cc]);
                }
                lemma_len_subset(set_int_range(1, nn + 1), matched_columns(p@, nn));
            }
        }
        let d = delta.unwrap();
        let ghost minv_before = minv@;
        let ghost u_before = u@;
        let ghost v_before = v@;
        assert(forall|cc: int| 0 <= cc <= nn ==> #[trigger] p@[cc] <= nn);
        proof {
            assert forall|a: int, b: int|
                0 <= a <= nn && 0 <= b <= nn && a != b && used@[a] && used@[b] implies #[trigger] p@[a]
                != #[trigger] p@[b] by {
                if a == 0 {
                    assert(p@[b] <= i - 1);
                } else if b == 0 {
                    assert(p@[a] <= i - 1);
                } else {
                    assert(p@[a] != 0);
                }
            }
        }
        let mut jj: usize = 0;
        while jj <= n
            invariant
                nn == n,
                jj <= nn + 1,
                minv@.len() == nn + 1,
                used@.len() == nn + 1,
                u@.len() == nn + 1,
                v@.len() == nn + 1,
                n < usize::MAX,
                p@.len() == nn + 1,
                forall|cc: int| 0 <= cc <= nn ==> #[trigger] p@[cc] <= nn,
                forall|a: int, b: int|
                    0 <= a <= nn && 0 <= b <= nn && a != b && used@[a] && used@[b] ==> #[trigger] p@[a]
                        != #[trigger] p@[b],
                arithmetic_total(*plus, *minus, *less),
                forall|cc: int| 0 <= cc <= nn ==> (#[trigger] minv@[cc] is Some) == (minv_before[cc] is Some),
                forall|k: int|
                    0 <= k < jj && #[trigger] used@[k] ==> call_ensures(
                        *plus,
                        (u_before[p@[k] as int], d),
                        u@[p@[k] as int],
                    ) && call_ensures(*minus, (v_before[k], d), v@[k]),
                forall|k: int| jj <= k <= nn && #[trigger] used@[k] ==> u@[p@[k] as int] == u_before[p@[k] as int],
                forall|k: int| 0 <= k <= nn && (k >= jj || !used@[k]) ==> #[trigger] v@[k] == v_before[k],
                forall|r: int| 0 <= r <= nn && !in_tree(p@, used@, nn, r) ==> #[trigger] u@[r] == u_before[r],
                forall|k: int|
                    1 <= k <= nn && k < jj && !(#[trigger] used@[k]) && minv_before[k] is Some
                        ==> minv@[k] is Some && call_ensures(*minus, (minv_before[k]->0, d), minv@[k]->0),
                forall|k: int| 0 <= k <= nn && (k >= jj || used@[k]) ==> #[trigger] minv@[k] == minv_before[k],
            decreases nn + 1 - jj,
        {
            if used[jj] {
                let r = p[jj];
                let ghost u_prev = u@;
                let ur = plus(u[r], d);
                u.set(r, ur);
                let vj = minus(v[jj], d);
                v.set(jj, vj);
                proof {
                    assert forall|rr: int| 0 <= rr <= nn && !in_tree(p@, used@, nn, rr) implies #[trigger] u@[rr]
                        == u_before[rr] by {
                        if rr == r as int {
                            assert(in_tree(p@, used@, nn, rr));
                        }
                    }
                    assert forall|k: int| 0 <= k < jj + 1 && #[trigger] used@[k] implies call_ensures(
                        *plus,
                        (u_before[p@[k] as int], d),
                        u@[p@[k] as int],
                    ) && call_ensures(*minus, (v_before[k], d), v@[k]) by {
                        if k != jj as int {
                            assert(p@[k] != p@[jj as int]);
                        }
                    }
                    assert forall|k: int| jj + 1 <= k <= nn && #[trigger] used@[k] implies u@[p@[k] as int]
                        == u_before[p@[k] as int] by {
                        assert(p@[k] != p@[jj as int]);
                    }
                }
            } else {
                match minv[jj] {
                    Some(m) => {
                        let reduced_slack = minus(m, d);
                        minv.set(jj, Some(reduced_slack));
                    },
                    None => {},
                }
            }
            jj += 1;
        }
        proof {
            assert forall|val: spec_fn(T) -> int|
                #[trigger] exact_arithmetic(*plus, *minus, *less, zero, val) implies {
                    &&& rows_feasible(val, c, u@, v@, i, nn)
                    &&& matched_tight(val, c, u@, v@, p@, nn)
                    &&& tree_tight(val, c, u@, v@, p@, way@, used@, nn)
                    &&& slack_bounds(val, c, u@, v@, p@, way@, used@, minv@, nn)
                    &&& val(minv@[j1 as int]->0) == 0
                } by {
                assert(rows_feasible(val, c, u_before, v_before, i - 1, nn));
                assert(slack_bounds(val, c, u_before, v_before, p@, way@, used@, minv_before, nn));
                lemma_shift_duals(
                    *plus,
                    *minus,
                    *less,
                    zero,
                    val,
                    c,
                    u_before,
                    v_before,
                    minv_before,
                    u@,
                    v@,
                    minv@,
                    p@,
                    way@,
                    used@,
                    d,
                    j1 as int,
                    i,
                    nn,
                    first,
                );
            }
            assert forall|val: spec_fn(T) -> int|
                #[trigger] exact_arithmetic(*plus, *minus, *less, zero, val) implies row_feasible(
                val,
                c,
                u@,
                v@,
                i,
                nn,
            ) by {
                assert(rows_feasible(val, c, u@, v@, i, nn));
                assert forall|jj: int| 1 <= jj <= nn implies #[trigger] reduced(val, c, u@, v@, i, jj) >= 0 by {
                    assert(reduced(val, c, u@, v@, i, jj) >= 0);
                }
            }
        }
        j0 = j1;
        if p[j0] == 0 {
            proof {
                assert forall|val: spec_fn(T) -> int|
                    #[trigger] exact_arithmetic(*plus, *minus, *less, zero, val) implies rows_feasible(
                    val,
                    c,
                    u@,
                    v@,
                    i,
                    nn,
                ) && matched_tight(val, c, u@, v@, p@, nn) && tree_tight(val, c, u@, v@, p@, way@, used@, nn)
                    && reduced(val, c, u@, v@, p@[way@[j0 as int] as int] as int, j0 as int) == 0 by {
                    assert(slack_bounds(val, c, u@, v@, p@, way@, used@, minv@, nn));
                }
            }
            return (j0, Ghost(used@), Ghost(rank), Ghost(steps));
        }
    }
}

/// Turns the 1-based column table `p` of a matching of all `n` rows into the
/// 0-based row and column assignment vectors.
fn assignments_from_columns(p: &Vec<usize>, n: usize) -> (res: (Vec<Option<usize>>, Vec<Option<usize>>))
    requires
        n < usize::MAX,
        partial_column_matching(p@, n as int, n as int),
    ensures
        res.0@.len() == n,
        res.1@.len() == n,
        is_matching(res.0@, res.1@),
        all_assigned(res.0@),
        all_assigned(res.1@),
        forall|r: int|
            0 <= r < n ==> (#[trigger] res.0@[r])->0 < n && p@[res.0@[r]->0 + 1] == r + 1,
{
    let ghost nn = n as int;
    let mut rows: Vec<Option<usize>> = Vec::new();
    let mut cols: Vec<Option<usize>> = Vec::new();
    let mut k: usize = 0;
    while k < n
        invariant
            k <= n,
            rows@.len() == k,
            cols@.len() == k,
            forall|c: int| 0 <= c < k ==> (#[trigger] rows@[c]) is None,
            forall|c: int| 0 <= c < k ==> (#[trigger] cols@[c]) is None,
        decreases n - k,
    {
        rows.push(None);
        cols.push(None);
        k += 1;
    }
    let mut j: usize = 1;
    while j <= n
        invariant
            nn == n,
            n < usize::MAX,
            1 <= j <= nn + 1,
            rows@.len() == nn,
            cols@.len() == nn,
            partial_column_matching(p@, nn, nn),
            forall|c: int|
                0 <= c < nn ==> #[trigger] cols@[c] == (if c + 1 < j && p@[c + 1] != 0 {
                    Some((p@[c + 1] - 1) as usize)
                } else {
                    None
                }),
            forall|r: int|
                0 <= r < nn && (#[trigger] rows@[r]) is Some ==> {
                    &&& rows@[r]->0 + 1 < j
                    &&& p@[rows@[r]->0 + 1] == r + 1
                },
            forall|c: int|
                1 <= c < j && p@[c] != 0 ==> rows@[p@[c] - 1] == Some((c - 1) as usize),
        decreases nn + 1 - j,
    {
        let r = p[j];
        if r != 0 {
            assert(p@[j as int] <= nn);
            let ghost before = rows@;
            rows.set(r - 1, Some(j - 1));
            cols.set(j - 1, Some(r - 1));
            proof {
                assert forall|c: int| 1 <= c < j + 1 && p@[c] != 0 implies rows@[p@[c] - 1] == Some(
                    (c - 1) as usize,
                ) by {
                    if c != j as int {
                        assert(p@[c] != p@[j as int]);
                    }
                }
                assert forall|q: int|
                    0 <= q < nn && (#[trigger] rows@[q]) is Some implies rows@[q]->0 + 1 < j + 1
                    && p@[rows@[q]->0 + 1] == q + 1 by {
                    if q != r - 1 {
                        assert(before[q] is Some);
                    }
                }
            }
        }
        j += 1;
    }
    proof {
        // All `n` columns hold a row.
        lemma_int_range(1, nn + 1);
        lemma_matched_finite(p@, nn);
        lemma_subset_equality(matched_columns(p@, nn), set_int_range(1, nn + 1));
        assert forall|c: int| 0 <= c < nn implies (#[trigger] cols@[c]) is Some by {
            assert(set_int_range(1, nn + 1).contains(c + 1));
        }
        assert forall|r: int| 0 <= r < nn implies (#[trigger] rows@[r]) is Some by {
            assert(row_placed(p@, nn, r + 1));
            let w = choose|w: int| 1 <= w <= nn && #[trigger] p@[w] == r + 1;
            assert(rows@[p@[w] - 1] == Some((w - 1) as usize));
        }
        assert forall|q: int| 0 <= q < nn && (#[trigger] rows@[q]) is Some implies {
            &&& rows@[q]->0 < cols@.len()
            &&& cols@[rows@[q]->0 as int] == Some(q as usize)
        } by {
            let c = rows@[q]->0 as int;
            assert(cols@[c] == Some((p@[c + 1] - 1) as usize));
        }
        assert forall|c: int| 0 <= c < nn && (#[trigger] cols@[c]) is Some implies {
            &&& cols@[c]->0 < rows@.len()
            &&& rows@[cols@[c]->0 as int] == Some(c as usize)
        } by {
            assert(p@[c + 1] != 0);
            assert(rows@[p@[c + 1] - 1] == Some(c as usize));
        }
    }
    (rows, cols)
}

/// Solves a square assignment problem with the shortest augmenting path method
/// (Jonker–Volgenant / Hungarian formulation with dual values `u`, `v`).
///
/// `cost` is an `n × n` matrix (longer rows are read up to column `n`).
/// Every row gets a column and every column a row; the total is the sum of
/// the chosen costs in row order, starting from `zero`. The arithmetic on
/// costs is `plus`, `minus` and `less`.
pub fn sap_solve<T: Copy, A: Fn(T, T) -> T, S: Fn(T, T) -> T, L: Fn(T, T) -> bool>(
    cost: &[Vec<T>],
    zero: T,
    plus: &A,
    minus: &S,
    less: &L,
) -> (sol: LapSolution<T>)
    requires
        cost@.len() < usize::MAX,
        forall|i: int| 0 <= i < cost@.len() ==> #[trigger] cost@[i]@.len() >= cost@.len(),
        arithmetic_total(*plus, *minus, *less),
    ensures
        sol.1@.len() == cost@.len(),
        sol.2@.len() == cost@.len(),
        is_matching(sol.1@, sol.2@),
        all_assigned(sol.1@),
        all_assigned(sol.2@),
        is_sum(*plus, zero, assigned_costs(cost@, sol.1@, cost@.len() as int), sol.0),
        forall|val: spec_fn(T) -> int, perm: Seq<int>|
            exact_arithmetic(*plus, *minus, *less, zero, val) && is_permutation(perm, cost@.len() as int)
                ==> val(sol.0) <= #[trigger] assignment_value(val, cost@, perm),        least_cost_square(*plus, *minus, *less, zero, cost@, sol),
{
    let n = cost.len();
    if n == 0 {
        let rows: Vec<Option<usize>> = Vec::new();
        let total = assignment_cost(cost, &rows, zero, plus);
        proof {
            assert forall|val: spec_fn(T) -> int, perm: Seq<int>|
                exact_arithmetic(*plus, *minus, *less, zero, val) && is_permutation(perm, 0) implies val(total)
                <= #[trigger] assignment_value(val, cost@, perm) by {
                lemma_sum_reads_as_total(*plus, *minus, *less, zero, val, assigned_costs(cost@, rows@, 0), total);
            }
        }
        return (total, rows, Vec::new());
    }
    let mut u: Vec<T> = Vec::new();
    let mut v: Vec<T> = Vec::new();
    let mut p: Vec<usize> = Vec::new();
    let mut way: Vec<usize> = Vec::new();
    let mut k: usize = 0;
    while k <= n
        invariant
            k <= n + 1,
            n < usize::MAX,
            u@.len() == k,
            v@.len() == k,
            p@.len() == k,
            way@.len() == k,
            forall|j: int| 0 <= j < k ==> #[trigger] p@[j] == 0,
            forall|j: int| 0 <= j < k ==> #[trigger] way@[j] == 0,
        decreases n + 1 - k,
    {
        u.push(zero);
        v.push(zero);
        p.push(0);
        way.push(0);
        k += 1;
    }
    proof {
        assert(matched_columns(p@, n as int) =~= Set::empty());
    }
    let mut i: usize = 1;
    while i <= n
        invariant
            1 <= i <= n + 1,
            n == cost@.len(),
            n < usize::MAX,
            forall|r: int| 0 <= r < n ==> #[trigger] cost@[r]@.len() >= n,
            arithmetic_total(*plus, *minus, *less),
            partial_column_matching(p@, n as int, i - 1),
            way@.len() == n + 1,
            forall|j: int| 0 <= j <= n ==> #[trigger] way@[j] <= n,
            u@.len() == n + 1,
            v@.len() == n + 1,
            duals_hold(*plus, *minus, *less, zero, cost@, u@, v@, p@, i - 1, n as int),
        decreases n + 1 - i,
    {
        let ghost before = p@;
        p.set(0, i);
        assert(partial_column_matching(p@, n as int, i - 1)) by {
            assert(matched_columns(p@, n as int) =~= matched_columns(before, n as int));
            assert forall|r: int| 1 <= r <= i - 1 implies #[trigger] row_placed(p@, n as int, r) by {
                assert(row_placed(before, n as int, r));
                let w = choose|w: int| 1 <= w <= n && #[trigger] before[w] == r;
                assert(p@[w] == r);
            }
        }
        assert(duals_hold(*plus, *minus, *less, zero, cost@, u@, v@, p@, i - 1, n as int)) by {
            assert forall|val: spec_fn(T) -> int|
                #[trigger] exact_arithmetic(*plus, *minus, *less, zero, val) implies matched_tight(
                val,
                cost@,
                u@,
                v@,
                p@,
                n as int,
            ) by {
                assert(matched_tight(val, cost@, u@, v@, before, n as int));
                assert forall|j: int| 1 <= j <= n && p@[j] != 0 implies #[trigger] reduced(
                    val,
                    cost@,
                    u@,
                    v@,
                    p@[j] as int,
                    j,
                ) == 0 by {
                    assert(p@[j] == before[j]);
                }
            }
        }
        let (jf, Ghost(used), Ghost(rank), Ghost(steps)) = search_path(
            cost,
            &p,
            &mut way,
            &mut u,
            &mut v,
            n,
            plus,
            minus,
            less,
            Ghost(zero),
        );
        let ghost p_mid = p@;
        augment::<T>(&mut p, &way, jf, n, Ghost(used), Ghost(rank), Ghost(steps), Ghost(cost@), Ghost(u@), Ghost(v@));
        proof {
            assert forall|val: spec_fn(T) -> int|
                #[trigger] exact_arithmetic(*plus, *minus, *less, zero, val) implies rows_feasible(
                val,
                cost@,
                u@,
                v@,
                i as int,
                n as int,
            ) && matched_tight(val, cost@, u@, v@, p@, n as int) by {
                assert(matched_tight(val, cost@, u@, v@, p_mid, n as int));
            }
        }
        i += 1;
    }
    let (rows, cols) = assignments_from_columns(&p, n);
    let total = assignment_cost(cost, &rows, zero, plus);
    proof {
        assert forall|val: spec_fn(T) -> int, perm: Seq<int>|
            exact_arithmetic(*plus, *minus, *less, zero, val) && is_permutation(perm, n as int) implies val(total)
            <= #[trigger] assignment_value(val, cost@, perm) by {
            lemma_sum_reads_as_total(*plus, *minus, *less, zero, val, assigned_costs(cost@, rows@, n as int), total);
            assert(rows_feasible(val, cost@, u@, v@, n as int, n as int));
            lemma_tight_assignment_is_minimal(val, cost@, u@, v@, p@, rows@, n as int, perm);
        }
    }
    (total, rows, cols)
}

} // verus!
