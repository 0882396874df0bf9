//! Checks on an input cost matrix.
//!
//! The checks look at each entry only through its [`EntryKind`]: whether it is
//! a finite number, not a number, or infinite.

use vstd::prelude::*;
use vstd::string::StringExecFns;

use crate::text::{decimal, push_decimal};

verus! {

/// What the validation needs to know of one matrix entry.
#[derive(Clone, Copy, Debug, PartialEq, Eq, Structural)]
pub enum EntryKind {
    Finite,
    NaN,
    Infinite,
}

/// Why a matrix was refused.
#[derive(Clone, Copy, Debug, PartialEq, Eq, Structural)]
pub enum MatrixError {
    /// The matrix has no rows.
    Empty,
    /// The first row has no entries.
    EmptyRows,
    /// Row `row` has `found` entries where the first row has `expected`.
    NotRectangular { expected: usize, row: usize, found: usize },
    /// The entry at (`row`, `col`) is not a number.
    NaN { row: usize, col: usize },
    /// The entry at (`row`, `col`) is infinite.
    Infinite { row: usize, col: usize },
}

/// The first entry of `row`, from position `j` on, that is not finite.
pub open spec fn first_bad_entry(row: Seq<EntryKind>, i: int, j: int) -> Option<MatrixError>
    decreases row.len() - j,
{
    if j < 0 || j >= row.len() {
        None
    } else if row[j] == EntryKind::NaN {
        Some(MatrixError::NaN { row: i as usize, col: j as usize })
    } else if row[j] == EntryKind::Infinite {
        Some(MatrixError::Infinite { row: i as usize, col: j as usize })
    } else {
        first_bad_entry(row, i, j + 1)
    }
}

/// The first problem of the rows from `i` on, in row-major order: a row of
/// the wrong length is reported before its entries are looked at.
pub open spec fn first_problem(kinds: Seq<Vec<EntryKind>>, ncols: int, i: int) -> Option<MatrixError>
    decreases kinds.len() - i,
{
    if i < 0 || i >= kinds.len() {
        None
    } else if kinds[i]@.len() != ncols {
        Some(MatrixError::NotRectangular {
            expected: ncols as usize,
            row: i as usize,
            found: kinds[i]@.len() as usize,
        })
    } else {
        match first_bad_entry(kinds[i]@, i, 0) {
            Some(e) => Some(e),
            None => first_problem(kinds, ncols, i + 1),
        }
    }
}

/// What validating a matrix whose entries have the kinds `kinds` gives.
pub open spec fn validation(kinds: Seq<Vec<EntryKind>>) -> Result<(), MatrixError> {
    if kinds.len() == 0 {
        Err(MatrixError::Empty)
    } else if kinds[0]@.len() == 0 {
        Err(MatrixError::EmptyRows)
    } else {
        match first_problem(kinds, kinds[0]@.len() as int, 0) {
            Some(e) => Err(e),
            None => Ok(()),
        }
    }
}

/// A matrix is acceptable: it has a row, its first row has an entry, all its
/// rows are as long as the first, and all its entries are finite.
pub open spec fn acceptable(kinds: Seq<Vec<EntryKind>>) -> bool {
    &&& kinds.len() > 0
    &&& kinds[0]@.len() > 0
    &&& forall|i: int| 0 <= i < kinds.len() ==> (#[trigger] kinds[i])@.len() == kinds[0]@.len()
    &&& forall|i: int, j: int|
        0 <= i < kinds.len() && 0 <= j < kinds[i]@.len() ==> #[trigger] kinds[i]@[j]
            == EntryKind::Finite
}

proof fn lemma_first_bad_entry(row: Seq<EntryKind>, i: int, j: int)
    requires
        0 <= j <= row.len(),
    ensures
        first_bad_entry(row, i, j) is None <==> forall|q: int|
            j <= q < row.len() ==> #[trigger] row[q] == EntryKind::Finite,
    decreases row.len() - j,
{
    if j < row.len() {
        lemma_first_bad_entry(row, i, j + 1);
    }
}

proof fn lemma_first_problem(kinds: Seq<Vec<EntryKind>>, ncols: int, i: int)
    requires
        0 <= i <= kinds.len(),
    ensures
        first_problem(kinds, ncols, i) is None <==> (forall|r: int|
            i <= r < kinds.len() ==> (#[trigger] kinds[r])@.len() == ncols) && (forall|r: int, q: int|
            i <= r < kinds.len() && 0 <= q < kinds[r]@.len() ==> #[trigger] kinds[r]@[q]
                == EntryKind::Finite),
    decreases kinds.len() - i,
{
    if i < kinds.len() {
        lemma_first_problem(kinds, ncols, i + 1);
        lemma_first_bad_entry(kinds[i]@, i, 0);
        if first_problem(kinds, ncols, i) is None {
            assert forall|r: int, q: int|
                i <= r < kinds.len() && 0 <= q < kinds[r]@.len() implies #[trigger] kinds[r]@[q]
                == EntryKind::Finite by {
                if r == i {
                    assert(kinds[i]@[q] == EntryKind::Finite);
                }
            }
        }
    }
}

/// Checks that a matrix is non-empty, rectangular and finite, reporting the
/// first problem found in row-major order.
pub fn validate_matrix(kinds: &Vec<Vec<EntryKind>>) -> (res: Result<(), MatrixError>)
    ensures
        res == validation(kinds@),
        res is Ok <==> acceptable(kinds@),
{
    if kinds.len() == 0 {
        return Err(MatrixError::Empty);
    }
    let ncols = kinds[0].len();
    if ncols == 0 {
        return Err(MatrixError::EmptyRows);
    }
    let mut i: usize = 0;
    while i < kinds.len()
        invariant
            i <= kinds@.len(),
            ncols == kinds@[0]@.len(),
            ncols > 0,
            first_problem(kinds@, ncols as int, 0) == first_problem(kinds@, ncols as int, i as int),
        decreases kinds@.len() - i,
    {
        let row = &kinds[i];
        if row.len() != ncols {
            return Err(MatrixError::NotRectangular { expected: ncols, row: i, found: row.len() });
        }
        let mut j: usize = 0;
        while j < row.len()
            invariant
                i < kinds@.len(),
                *row == kinds@[i as int],
                ncols == kinds@[0]@.len(),
                ncols > 0,
                row@.len() == ncols,
                first_problem(kinds@, ncols as int, 0) == first_problem(kinds@, ncols as int, i as int),
                j <= row@.len(),
                first_bad_entry(row@, i as int, 0) == first_bad_entry(row@, i as int, j as int),
            decreases row@.len() - j,
        {
            match row[j] {
                EntryKind::NaN => {
                    return Err(MatrixError::NaN { row: i, col: j });
                },
                EntryKind::Infinite => {
                    return Err(MatrixError::Infinite { row: i, col: j });
                },
                EntryKind::Finite => {},
            }
            j += 1;
        }
        assert(first_bad_entry(row@, i as int, 0) is None);
        i += 1;
    }
    proof {
        lemma_first_problem(kinds@, ncols as int, 0);
    }
    Ok(())
}

/// The text that reports a matrix error to users.
pub open spec fn error_text(e: MatrixError) -> Seq<char> {
    match e {
        MatrixError::Empty => "Matrix must not be empty"@,
        MatrixError::EmptyRows => "Matrix rows must not be empty"@,
        MatrixError::NotRectangular { expected, row, found } => "Matrix must be rectangular: row 0 has "@
            + decimal(expected as nat) + " columns but row "@ + decimal(row as nat) + " has "@
            + decimal(found as nat),
        MatrixError::NaN { row, col } => "Matrix contains NaN at position ["@ + decimal(row as nat)
            + ", "@ + decimal(col as nat) + "]"@,
        MatrixError::Infinite { row, col } => "Matrix contains infinite value at position ["@
            + decimal(row as nat) + ", "@ + decimal(col as nat) + "]"@,
    }
}

impl MatrixError {
    /// The text that reports this error to users.
    pub fn message(&self) -> (text: String)
        ensures
            text@ == error_text(*self),
    {
        match *self {
            MatrixError::Empty => String::from_str("Matrix must not be empty"),
            MatrixError::EmptyRows => String::from_str("Matrix rows must not be empty"),
            MatrixError::NotRectangular { expected, row, found } => {
                let mut s = String::from_str("Matrix must be rectangular: row 0 has ");
                push_decimal(&mut s, expected);
                s.append(" columns but row ");
                push_decimal(&mut s, row);
                s.append(" has ");
                push_decimal(&mut s, found);
                s
            },
            MatrixError::NaN { row, col } => {
                let mut s = String::from_str("Matrix contains NaN at position [");
                push_decimal(&mut s, row);
                s.append(", ");
                push_decimal(&mut s, col);
                s.append("]");
                s
            },
            MatrixError::Infinite { row, col } => {
                let mut s = String::from_str("Matrix contains infinite value at position [");
                push_decimal(&mut s, row);
                s.append(", ");
                push_decimal(&mut s, col);
                s.append("]");
                s
            },
        }
    }
}

} // verus!
