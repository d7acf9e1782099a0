//! Integer matrices, stored in nalgebra's `DMatrix<i32>`, as used for the
//! boundary matrices of a simplicial complex.

use vstd::prelude::*;
use nalgebra::DMatrix;

verus! {

/// A dense integer matrix held in an nalgebra `DMatrix<i32>`.
#[verifier::external_body]
pub struct IntMatrix {
    inner: DMatrix<i32>,
}

/// The entries of the matrix, row by row.
pub uninterp spec fn entries(m: IntMatrix) -> Seq<Seq<i32>>;

/// The number of columns the matrix was made with.
pub uninterp spec fn column_count(m: IntMatrix) -> nat;

/// The matrix has `rows` rows of `cols` entries each.
pub open spec fn has_shape(m: IntMatrix, rows: nat, cols: nat) -> bool {
    &&& entries(m).len() == rows
    &&& column_count(m) == cols
    &&& forall|i: int| 0 <= i < rows ==> (#[trigger] entries(m)[i]).len() == cols
}

impl IntMatrix {
    /// `DMatrix::<i32>::zeros`: an `nrows` × `ncols` matrix of zeros. It
    /// multiplies the two counts to size its storage, so their product must
    /// fit in `usize`.
    #[verifier::external_body]
    pub(crate) fn zeros(nrows: usize, ncols: usize) -> (m: IntMatrix)
        requires
            nrows * ncols <= usize::MAX,
        ensures
            has_shape(m, nrows as nat, ncols as nat),
            forall|i: int, j: int|
                0 <= i < nrows && 0 <= j < ncols ==> #[trigger] entries(m)[i][j] == 0,
    {
        IntMatrix { inner: DMatrix::<i32>::zeros(nrows, ncols) }
    }

    /// `DMatrix::nrows`: the number of rows.
    #[verifier::external_body]
    pub fn nrows(&self) -> (n: usize)
        ensures
            n == entries(*self).len(),
    {
        self.inner.nrows()
    }

    /// `DMatrix::ncols`: the number of columns.
    #[verifier::external_body]
    pub fn ncols(&self) -> (n: usize)
        ensures
            n == column_count(*self),
    {
        self.inner.ncols()
    }

    /// Indexing `m[(i, j)]`: the entry in row `i`, column `j`.
    #[verifier::external_body]
    pub(crate) fn get(&self, i: usize, j: usize) -> (v: i32)
        requires
            i < entries(*self).len(),
            j < column_count(*self),
        ensures
            v == entries(*self)[i as int][j as int],
    {
        self.inner[(i, j)]
    }

    /// Indexed assignment `m[(i, j)] = v`.
    #[verifier::external_body]
    pub(crate) fn set(&mut self, i: usize, j: usize, v: i32)
        requires
            i < entries(*old(self)).len(),
            j < column_count(*old(self)),
        ensures
            column_count(*final(self)) == column_count(*old(self)),
            entries(*final(self)) == entries(*old(self)).update(
                i as int,
                entries(*old(self))[i as int].update(j as int, v),
            ),
    {
        self.inner[(i, j)] = v;
    }

    /// The entries as plain rows.
    pub fn to_rows(&self) -> (rows: Vec<Vec<i32>>)
        ensures
            rows@.len() == entries(*self).len(),
            forall|i: int| 0 <= i < rows@.len() ==> (#[trigger] rows@[i])@.len() == column_count(*self),
            forall|i: int, j: int|
                0 <= i < rows@.len() && 0 <= j < column_count(*self) ==> #[trigger] rows@[i]@[j]
                    == entries(*self)[i][j],
    {
        let nrows = self.nrows();
        let ncols = self.ncols();
        let mut rows: Vec<Vec<i32>> = Vec::new();
        let mut i: usize = 0;
        while i < nrows
            invariant
                i <= nrows,
                nrows == entries(*self).len(),
                ncols == column_count(*self),
                rows@.len() == i,
                forall|a: int| 0 <= a < i ==> (#[trigger] rows@[a])@.len() == ncols,
                forall|a: int, b: int|
                    0 <= a < i && 0 <= b < ncols ==> #[trigger] rows@[a]@[b] == entries(*self)[a][b],
            decreases nrows - i,
        {
            let mut row: Vec<i32> = Vec::new();
            let mut j: usize = 0;
            while j < ncols
                invariant
                    j <= ncols,
                    i < nrows,
                    nrows == entries(*self).len(),
                    ncols == column_count(*self),
                    row@.len() == j,
                    forall|b: int| 0 <= b < j ==> #[trigger] row@[b] == entries(*self)[i as int][b],
                decreases ncols - j,
            {
                row.push(self.get(i, j));
                j = j + 1;
            }
            rows.push(row);
            i = i + 1;
        }
        rows
    }
}

} // verus!
