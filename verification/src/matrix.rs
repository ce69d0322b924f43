//! Pairwise distance keys held in nalgebra's dense matrix.

use vstd::prelude::*;
use crate::persistence::{key_matrix, is_square};

verus! {

/// A square matrix of distance keys, stored as an `nalgebra::DMatrix<u64>`.
#[verifier::external_body]
pub struct DistanceMatrix {
    keys: nalgebra::DMatrix<u64>,
}

/// The entries of a distance matrix, row by row: one sequence per row, each
/// as long as the matrix has columns.
pub uninterp spec fn matrix_entries(m: DistanceMatrix) -> Seq<Seq<u64>>;

impl DistanceMatrix {
    /// `nalgebra::DMatrix::from_row_slice`: the `n` by `n` matrix whose rows
    /// are the consecutive runs of `n` keys of `keys`. nalgebra asserts that
    /// the slice holds exactly `n * n` elements, hence the `requires`.
    #[verifier::external_body]
    fn from_row_slice(n: usize, keys: &Vec<u64>) -> (m: DistanceMatrix)
        requires
            keys.len() == n * n,
        ensures
            matrix_entries(m).len() == n,
            forall|i: int| 0 <= i < n ==> (#[trigger] matrix_entries(m)[i]).len() == n,
            forall|i: int, j: int| 0 <= i < n && 0 <= j < n ==> #[trigger] matrix_entries(m)[i][j] == keys[i * n + j],
    {
        DistanceMatrix { keys: nalgebra::DMatrix::from_row_slice(n, n, keys.as_slice()) }
    }

    /// `nalgebra::Matrix::nrows`: the number of rows.
    #[verifier::external_body]
    fn nrows(&self) -> (rows: usize)
        ensures
            rows == matrix_entries(*self).len(),
    {
        self.keys.nrows()
    }

    /// Indexing by `(i, j)`: the entry in row `i`, column `j`. nalgebra
    /// asserts that both are in range, hence the `requires`.
    #[verifier::external_body]
    fn entry(&self, i: usize, j: usize) -> (key: u64)
        requires
            i < matrix_entries(*self).len(),
            j < matrix_entries(*self)[i as int].len(),
        ensures
            key == matrix_entries(*self)[i as int][j as int],
    {
        self.keys[(i, j)]
    }

    /// The matrix whose rows are `rows` (an `n` by `n` matrix).
    pub fn from_rows(rows: &Vec<Vec<u64>>) -> (m: DistanceMatrix)
        requires
            is_square(key_matrix(rows@), rows.len() as int),
        ensures
            matrix_entries(m) == key_matrix(rows@),
    {
        let n = rows.len();
        let ghost d = key_matrix(rows@);
        let mut flat: Vec<u64> = Vec::new();
        let mut i: usize = 0;
        while i < n
            invariant
                n == rows.len(),
                d == key_matrix(rows@),
                is_square(d, n as int),
                i <= n,
                flat.len() == i * n,
                forall|x: int, y: int| 0 <= x < i && 0 <= y < n ==> #[trigger] flat@[x * n + y] == d[x][y],
            decreases n - i,
        {
            assert(d[i as int].len() == n);
            let mut j: usize = 0;
            while j < n
                invariant
                    n == rows.len(),
                    d == key_matrix(rows@),
                    is_square(d, n as int),
                    i < n,
                    j <= n,
                    d[i as int].len() == n,
                    flat.len() == i * n + j,
                    forall|x: int, y: int| 0 <= x < i && 0 <= y < n ==> #[trigger] flat@[x * n + y] == d[x][y],
                    forall|y: int| 0 <= y < j ==> #[trigger] flat@[i * n + y] == d[i as int][y],
                decreases n - j,
            {
                flat.push(rows[i][j]);
                proof {
                    assert(flat@[i * n + j] == d[i as int][j as int]);
                    assert forall|x: int, y: int| 0 <= x < i && 0 <= y < n implies #[trigger] flat@[x * n + y] == d[x][y] by {
                        assert(x * n + y < i * n) by (nonlinear_arith)
                            requires
                                0 <= x < i,
                                0 <= y < n,
                        ;
                    }
                }
                j = j + 1;
            }
            proof {
                assert((i + 1) * n == i * n + n) by (nonlinear_arith);
                assert forall|x: int, y: int| 0 <= x < i + 1 && 0 <= y < n implies #[trigger] flat@[x * n + y] == d[x][y] by {
                    if x == i {
                    }
                }
            }
            i = i + 1;
        }
        let m = DistanceMatrix::from_row_slice(n, &flat);
        proof {
            assert forall|x: int| 0 <= x < n implies #[trigger] matrix_entries(m)[x] == d[x] by {
                assert forall|y: int| 0 <= y < n implies #[trigger] matrix_entries(m)[x][y] == d[x][y] by {
                    assert(flat@[x * n + y] == d[x][y]);
                }
                assert(matrix_entries(m)[x] =~= d[x]);
            }
            assert(matrix_entries(m) =~= d);
        }
        m
    }

    /// The rows of the matrix (an `n` by `n` matrix).
    pub fn to_rows(&self) -> (rows: Vec<Vec<u64>>)
        requires
            is_square(matrix_entries(*self), matrix_entries(*self).len() as int),
        ensures
            key_matrix(rows@) == matrix_entries(*self),
            rows.len() == matrix_entries(*self).len(),
    {
        let n = self.nrows();
        let ghost d = matrix_entries(*self);
        let mut rows: Vec<Vec<u64>> = Vec::new();
        let mut i: usize = 0;
        while i < n
            invariant
                n == d.len(),
                d == matrix_entries(*self),
                is_square(d, n as int),
                i <= n,
                key_matrix(rows@) == d.subrange(0, i as int),
            decreases n - i,
        {
            let mut row: Vec<u64> = Vec::new();
            let mut j: usize = 0;
            while j < n
                invariant
                    n == d.len(),
                    d == matrix_entries(*self),
                    is_square(d, n as int),
                    i < n,
                    j <= n,
                    row@ == d[i as int].subrange(0, j as int),
                decreases n - j,
            {
                row.push(self.entry(i, j));
                assert(row@ =~= d[i as int].subrange(0, j + 1));
                j = j + 1;
            }
            let ghost before = rows@;
            assert(row@ =~= d[i as int]);
            rows.push(row);
            proof {
                assert(key_matrix(rows@) =~= key_matrix(before).push(d[i as int]));
                assert(key_matrix(rows@) =~= d.subrange(0, i + 1));
            }
            i = i + 1;
        }
        assert(key_matrix(rows@) =~= d);
        rows
    }
}

} // verus!
