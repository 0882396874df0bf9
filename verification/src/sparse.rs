//! Reading a compressed-sparse-row (CSR) matrix as a dense one.

use vstd::prelude::*;

use sprs::CsMat;

verus! {

/// A CSR matrix built by `sprs`, holding positions into a value vector.
#[verifier::external_body]
pub struct CsrIndex {
    inner: CsMat<usize>,
}

/// The stored entries of a CSR matrix: `(row, column)` to the stored value.
pub uninterp spec fn csr_entries(m: CsrIndex) -> Map<(int, int), int>;

/// Position `k` of `indices` holds the entry of row `i`, column `j`: it lies in
/// the part of `indices` that `indptr` gives to row `i` (offsets are taken
/// from `indptr[0]`), and names column `j`.
pub open spec fn stored_at(indptr: Seq<usize>, indices: Seq<usize>, i: int, j: int, k: int) -> bool {
    &&& indptr[i] - indptr[0] <= k < indptr[i + 1] - indptr[0]
    &&& indices[k] == j
}

/// The checks that `sprs` makes of the parts of a CSR matrix with `nrows`
/// rows and `ncols` columns before it accepts them.
pub open spec fn csr_structure_ok(
    nrows: int,
    ncols: int,
    indptr: Seq<usize>,
    indices: Seq<usize>,
    data_len: int,
) -> bool {
    &&& data_len == indices.len()
    &&& indptr.len() == nrows + 1
    &&& forall|a: int, b: int| 0 <= a <= b < indptr.len() ==> #[trigger] indptr[a] <= #[trigger] indptr[b]
    &&& indptr[nrows] <= usize::MAX / 2
    &&& indptr[nrows] - indptr[0] == indices.len()
    &&& forall|i: int, k1: int, k2: int|
        #![trigger indptr[i], indices[k1], indices[k2]]
        0 <= i < nrows && indptr[i] - indptr[0] <= k1 < k2 < indptr[i + 1] - indptr[0]
            ==> indices[k1] < indices[k2]
    &&& forall|k: int| 0 <= k < indices.len() ==> #[trigger] indices[k] < ncols
}

/// Builds a CSR matrix with `sprs::CsMatBase::try_new` (`CsMat::try_new`).
///
/// `sprs` accepts the parts exactly when they pass the checks written out in
/// [`csr_structure_ok`]; the matrix then stores, for each position `k`, the
/// value `values[k]` at row `i`, column `indices[k]`, where `k` lies in row
/// `i`'s part of `indices`, and nothing else.
#[verifier::external_body]
fn csr_try_new(
    nrows: usize,
    ncols: usize,
    indptr: Vec<usize>,
    indices: Vec<usize>,
    values: Vec<usize>,
) -> (res: Option<CsrIndex>)
    requires
        nrows < usize::MAX,
    ensures
        res is Some <==> csr_structure_ok(
            nrows as int,
            ncols as int,
            indptr@,
            indices@,
            values@.len() as int,
        ),
        res matches Some(m) ==> forall|i: int, j: int|
            0 <= i < nrows ==> (#[trigger] csr_entries(m).contains_key((i, j)) <==> exists|k: int|
                #[trigger] stored_at(indptr@, indices@, i, j, k)),
        res matches Some(m) ==> forall|i: int, j: int, k: int|
            0 <= i < nrows && #[trigger] stored_at(indptr@, indices@, i, j, k) ==> csr_entries(m)[(
                i,
                j,
            )] == values@[k],
        res matches Some(m) ==> forall|i: int, j: int|
            #[trigger] csr_entries(m).contains_key((i, j)) ==> 0 <= i < nrows,
{
    CsMat::try_new((nrows, ncols), indptr, indices, values).ok().map(|inner| CsrIndex { inner })
}

/// Looks up the entry at row `i`, column `j` with `sprs::CsMatBase::get`:
/// the stored value there, or `None` where nothing is stored.
#[verifier::external_body]
fn csr_get(m: &CsrIndex, i: usize, j: usize) -> (res: Option<usize>)
    ensures
        res == (if csr_entries(*m).contains_key((i as int, j as int)) {
            Some(csr_entries(*m)[(i as int, j as int)] as usize)
        } else {
            None::<usize>
        }),
{
    m.inner.get(i, j).copied()
}

/// The entry at row `i`, column `j` of the dense form of a CSR matrix, with
/// `missing` where nothing is stored.
pub open spec fn dense_entry<T>(
    indptr: Seq<usize>,
    indices: Seq<usize>,
    data: Seq<T>,
    missing: T,
    i: int,
    j: int,
) -> T {
    if exists|k: int| stored_at(indptr, indices, i, j, k) {
        data[choose|k: int| stored_at(indptr, indices, i, j, k)]
    } else {
        missing
    }
}

/// Converts a CSR matrix of shape `nrows × ncols` (row offsets `indptr`,
/// column indices `indices`, values `data`) to a dense matrix; the entries it
/// does not store are `missing`. Returns `None` when `sprs` refuses the parts.
pub fn sparse_to_dense<T: Copy>(
    nrows: usize,
    ncols: usize,
    indptr: Vec<usize>,
    indices: Vec<usize>,
    data: &Vec<T>,
    missing: T,
) -> (res: Option<Vec<Vec<T>>>)
    requires
        nrows < usize::MAX,
    ensures
        res is Some <==> csr_structure_ok(nrows as int, ncols as int, indptr@, indices@, data@.len() as int),
        res matches Some(d) ==> {
            &&& d@.len() == nrows
            &&& forall|i: int| 0 <= i < nrows ==> (#[trigger] d@[i])@.len() == ncols
            &&& forall|i: int, j: int|
                0 <= i < nrows && 0 <= j < ncols ==> #[trigger] d@[i]@[j] == dense_entry(
                    indptr@,
                    indices@,
                    data@,
                    missing,
                    i,
                    j,
                )
            &&& forall|i: int, j: int, k: int|
                #![trigger d@[i]@[j], indices@[k]]
                0 <= i < nrows && 0 <= j < ncols && indptr@[i] - indptr@[0] <= k < indptr@[i + 1]
                    - indptr@[0] && indices@[k] == j ==> d@[i]@[j] == data@[k]
            &&& forall|i: int, j: int|
                0 <= i < nrows && 0 <= j < ncols && (forall|k: int|
                    indptr@[i] - indptr@[0] <= k < indptr@[i + 1] - indptr@[0] ==> indices@[k] != j)
                    ==> #[trigger] d@[i]@[j] == missing
        },
{
    let ghost ip = indptr@;
    let ghost ix = indices@;
    let mut positions: Vec<usize> = Vec::new();
    let mut k: usize = 0;
    while k < data.len()
        invariant
            k <= data@.len(),
            positions@.len() == k,
            forall|q: int| 0 <= q < k ==> #[trigger] positions@[q] == q,
        decreases data@.len() - k,
    {
        positions.push(k);
        k += 1;
    }
    let m = match csr_try_new(nrows, ncols, indptr, indices, positions) {
        Some(m) => m,
        None => return None,
    };
    let mut dense: Vec<Vec<T>> = Vec::new();
    let mut i: usize = 0;
    while i < nrows
        invariant
            i <= nrows,
            dense@.len() == i,
            csr_structure_ok(nrows as int, ncols as int, ip, ix, data@.len() as int),
            positions@.len() == data@.len(),
            forall|q: int| 0 <= q < data@.len() ==> #[trigger] positions@[q] == q,
            forall|a: int, b: int|
                0 <= a < nrows ==> (#[trigger] csr_entries(m).contains_key((a, b)) <==> exists|k: int|
                    #[trigger] stored_at(ip, ix, a, b, k)),
            forall|a: int, b: int, k: int|
                0 <= a < nrows && #[trigger] stored_at(ip, ix, a, b, k) ==> csr_entries(m)[(a, b)]
                    == positions@[k],
            forall|r: int| 0 <= r < i ==> (#[trigger] dense@[r])@.len() == ncols,
            forall|r: int, c: int|
                0 <= r < i && 0 <= c < ncols ==> #[trigger] dense@[r]@[c] == dense_entry(
                    ip,
                    ix,
                    data@,
                    missing,
                    r,
                    c,
                ),
        decreases nrows - i,
    {
        let mut row: Vec<T> = Vec::new();
        let mut j: usize = 0;
        while j < ncols
            invariant
                i < nrows,
                j <= ncols,
                row@.len() == j,
                csr_structure_ok(nrows as int, ncols as int, ip, ix, data@.len() as int),
                positions@.len() == data@.len(),
                forall|q: int| 0 <= q < data@.len() ==> #[trigger] positions@[q] == q,
                forall|a: int, b: int|
                    0 <= a < nrows ==> (#[trigger] csr_entries(m).contains_key((a, b))
                        <==> exists|k: int| #[trigger] stored_at(ip, ix, a, b, k)),
                forall|a: int, b: int, k: int|
                    0 <= a < nrows && #[trigger] stored_at(ip, ix, a, b, k) ==> csr_entries(m)[(
                        a,
                        b,
                    )] == positions@[k],
                forall|c: int|
                    0 <= c < j ==> #[trigger] row@[c] == dense_entry(ip, ix, data@, missing, i as int, c),
            decreases ncols - j,
        {
            let value = match csr_get(&m, i, j) {
                Some(pos) => {
                    proof {
                        let k0 = choose|k: int| stored_at(ip, ix, i as int, j as int, k);
                        assert(stored_at(ip, ix, i as int, j as int, k0));
                        assert(0 <= k0 < ix.len());
                        assert(pos == k0);
                    }
                    data[pos]
                },
                None => missing,
            };
            row.push(value);
            j += 1;
        }
        dense.push(row);
        i += 1;
    }
    proof {
        assert forall|i: int, j: int, k: int|
            #![trigger dense@[i]@[j], ix[k]]
            0 <= i < nrows && 0 <= j < ncols && ip[i] - ip[0] <= k < ip[i + 1] - ip[0] && ix[k] == j
                implies dense@[i]@[j] == data@[k] by {
            assert(stored_at(ip, ix, i, j, k));
            let k0 = choose|k: int| stored_at(ip, ix, i, j, k);
            assert(stored_at(ip, ix, i, j, k0));
            if k0 < k {
                assert(ix[k0] < ix[k]);
            } else if k < k0 {
                assert(ix[k] < ix[k0]);
            }
        }
        assert forall|i: int, j: int|
            0 <= i < nrows && 0 <= j < ncols && (forall|k: int|
                ip[i] - ip[0] <= k < ip[i + 1] - ip[0] ==> ix[k] != j) implies #[trigger] dense@[i]@[j]
            == missing by {
            if exists|k: int| stored_at(ip, ix, i, j, k) {
                let k0 = choose|k: int| stored_at(ip, ix, i, j, k);
                assert(ix[k0] != j);
            }
        }
    }
    Some(dense)
}

} // verus!
