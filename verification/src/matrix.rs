//! Dense row-major matrices of fixed-point values.
//!
//! All algebraic operations return new matrices; nothing mutates in place
//! except the scratch state inside the Gauss-Jordan inversion.  Shapes and
//! entries are pinned by the contracts; the arithmetic is the saturating
//! fixed-point arithmetic of `fixnum`.

use vstd::prelude::*;
use crate::fixnum::{fadd, fmul, fdiv, fsub, fsqrt, fadd_s, fmul_s, fdiv_s, fsub_s, sqrt_fix, SCALE};

verus! {

/// A dense matrix.
pub struct Matrix {
    pub data: Vec<i64>,
    pub rows: usize,
    pub cols: usize,
}

impl Matrix {
    /// Dimensional consistency of the storage.
    pub open spec fn wf(&self) -> bool {
        self.data@.len() == self.rows * self.cols
    }

    pub open spec fn ent(&self, i: int, j: int) -> i64 {
        self.data@[i * self.cols + j]
    }
}

pub proof fn lemma_grid_bounds(i: int, j: int, rows: int, cols: int)
    requires
        0 <= i < rows,
        0 <= j < cols,
    ensures
        0 <= i * cols + j < rows * cols,
        i * cols + j < rows * cols,
{
    assert(0 <= i * cols + j && i * cols + j < rows * cols) by (nonlinear_arith)
        requires
            0 <= i < rows,
            0 <= j < cols,
    ;
}

pub proof fn lemma_grid_injective(i1: int, j1: int, i2: int, j2: int, cols: int)
    requires
        0 <= j1 < cols,
        0 <= j2 < cols,
        0 <= i1,
        0 <= i2,
        i1 * cols + j1 == i2 * cols + j2,
    ensures
        i1 == i2 && j1 == j2,
{
    assert(i1 == i2 && j1 == j2) by (nonlinear_arith)
        requires
            0 <= j1 < cols,
            0 <= j2 < cols,
            0 <= i1,
            0 <= i2,
            i1 * cols + j1 == i2 * cols + j2,
    ;
}

/// Reads the entry at (row, col) of a flat row-major matrix with `cols`
/// columns.
pub fn get_item(matrix: &Vec<i64>, cols: usize, row: usize, col: usize) -> (r: i64)
    requires
        cols * row + col < matrix@.len(),
        cols * row + col <= usize::MAX,
    ensures
        r == matrix@[cols as int * row as int + col as int],
{
    let idx: usize = cols * row + col;
    matrix[idx]
}

/// Copies the `rows` by `cols` block starting at (start_row, start_col) out
/// of a flat matrix with `m` columns.
#[verifier::loop_isolation(false)]
pub fn sub_matrix(
    matrix: &Vec<i64>,
    m: usize,
    start_row: usize,
    start_col: usize,
    rows: usize,
    cols: usize,
) -> (r: Vec<i64>)
    requires
        rows * cols <= usize::MAX,
        start_row + rows <= usize::MAX,
        start_col + cols <= usize::MAX,
        rows > 0 && cols > 0 ==> m * (start_row + rows - 1) + start_col + cols - 1
            < matrix@.len(),
    ensures
        r@.len() == rows * cols,
        forall|i: int, j: int|
            0 <= i < rows && 0 <= j < cols ==> #[trigger] r@[i * cols + j] == matrix@[m * (
            start_row + i) + start_col + j],
{
    let mut subm: Vec<i64> = Vec::new();
    let mut i: usize = 0;
    while i < rows
        invariant
            i <= rows,
            subm@.len() == i * cols,
            forall|i2: int, j2: int|
                0 <= i2 < i && 0 <= j2 < cols ==> #[trigger] subm@[i2 * cols + j2] == matrix@[m * (start_row
                    + i2) + start_col + j2],
        decreases rows - i,
    {
        let mut j: usize = 0;
        while j < cols
            invariant
                i < rows,
                j <= cols,
                subm@.len() == i * cols + j,
                forall|i2: int, j2: int|
                    0 <= i2 < i && 0 <= j2 < cols ==> #[trigger] subm@[i2 * cols + j2] == matrix@[m * (
                    start_row + i2) + start_col + j2],
                forall|j2: int|
                    0 <= j2 < j ==> #[trigger] subm@[i * cols + j2] == matrix@[m * (start_row + i as int)
                        + start_col + j2],
            decreases cols - j,
        {
            proof {
                assert(m * (start_row + i as int) <= m * (start_row + rows - 1) && m * (start_row
                    + i as int) + start_col + j <= m * (start_row + rows - 1) + start_col + cols
                    - 1) by (nonlinear_arith)
                    requires
                        0 <= i < rows,
                        0 <= j < cols,
                        m >= 0,
                        start_row >= 0,
                        start_col >= 0,
                ;
                assert(matrix.len() == matrix@.len());
                assert(i * cols + j < rows * cols) by (nonlinear_arith)
                    requires
                        0 <= i < rows,
                        0 <= j < cols,
                ;
            }
            let idx: usize = m * (start_row + i) + (start_col + j);
            subm.push(matrix[idx]);
            proof {
                assert forall|i2: int, j2: int|
                    0 <= i2 < i && 0 <= j2 < cols implies #[trigger] subm@[i2 * cols + j2]
                    == matrix@[m * (start_row + i2) + start_col + j2] by {
                    assert(i2 * cols + j2 < i * cols + j) by (nonlinear_arith)
                        requires
                            0 <= i2 < i,
                            0 <= j2 < cols,
                            0 <= j,
                    ;
                }
            }
            j += 1;
        }
        proof {
            assert(i * cols + cols == (i + 1) * cols) by (nonlinear_arith);
        }
        i += 1;
    }
    subm
}

/// The `n` by `n` identity in flat form: `SCALE` on the diagonal, zero
/// elsewhere.
#[verifier::loop_isolation(false)]
pub fn identity(n: usize) -> (r: Vec<i64>)
    requires
        n * n <= usize::MAX,
    ensures
        r@.len() == n * n,
        forall|i: int, j: int|
            0 <= i < n && 0 <= j < n ==> #[trigger] r@[i * n + j] == (if i == j {
                SCALE
            } else {
                0i64
            }),
{
    let total: usize = n * n;
    let mut matrix: Vec<i64> = vec![0i64; total];
    proof {
        assert forall|i2: int, j2: int| 0 <= i2 < n && 0 <= j2 < n implies #[trigger] matrix@[i2
            * n + j2] == 0i64 by {
            lemma_grid_bounds(i2, j2, n as int, n as int);
        }
    }
    let mut i: usize = 0;
    while i < n
        invariant
            i <= n,
            matrix@.len() == n * n,
            forall|i2: int, j2: int|
                0 <= i2 < n && 0 <= j2 < n ==> #[trigger] matrix@[i2 * n + j2] == (if i2 == j2 && i2 < i {
                    SCALE
                } else {
                    0i64
                }),
        decreases n - i,
    {
        proof {
            lemma_grid_bounds(i as int, i as int, n as int, n as int);
        }
        let idx: usize = i * n + i;
        matrix[idx] = SCALE;
        proof {
            assert forall|i2: int, j2: int|
                0 <= i2 < n && 0 <= j2 < n implies #[trigger] matrix@[i2 * n + j2] == (if i2 == j2 && i2 < i
                + 1 {
                SCALE
            } else {
                0i64
            }) by {
                lemma_grid_bounds(i2, j2, n as int, n as int);
                if i2 * n + j2 == i * n + i {
                    lemma_grid_injective(i2, j2, i as int, i as int, n as int);
                }
            }
        }
        i += 1;
    }
    matrix
}

/// The identity matrix.
pub fn identity_matrix(n: usize) -> (r: Matrix)
    requires
        n * n <= usize::MAX,
    ensures
        r.wf(),
        r.rows == n,
        r.cols == n,
        forall|i: int, j: int|
            0 <= i < n && 0 <= j < n ==> #[trigger] r.ent(i, j) == (if i == j {
                SCALE
            } else {
                0i64
            }),
{
    let data = identity(n);
    Matrix { data, rows: n, cols: n }
}

/// Joins two flat matrices with `n` rows side by side.
#[verifier::loop_isolation(false)]
pub fn horizontal_add(matrix1: &Vec<i64>, matrix2: &Vec<i64>, n: usize) -> (r: Vec<i64>)
    requires
        n > 0,
        matrix1@.len() as int == n * (matrix1@.len() as int / n as int),
        matrix2@.len() as int == n * (matrix2@.len() as int / n as int),
        matrix1@.len() + matrix2@.len() <= usize::MAX,
    ensures
        r@.len() == matrix1@.len() + matrix2@.len(),
        ({
            let m1 = matrix1@.len() as int / n as int;
            let m2 = matrix2@.len() as int / n as int;
            &&& forall|i: int, j: int|
                0 <= i < n && 0 <= j < m1 ==> #[trigger] r@[i * (m1 + m2) + j] == matrix1@[i * m1 + j]
            &&& forall|i: int, j: int|
                0 <= i < n && 0 <= j < m2 ==> #[trigger] r@[i * (m1 + m2) + m1 + j] == matrix2@[i * m2 + j]
        }),
{
    let len1: usize = matrix1.len();
    let len2: usize = matrix2.len();
    let total: usize = len1 + len2;
    let mut added: Vec<i64> = vec![0i64; total];
    let m1: usize = len1 / n;
    let m2: usize = len2 / n;
    let ghost m1i: int = matrix1@.len() as int / n as int;
    let ghost m2i: int = matrix2@.len() as int / n as int;
    proof {
        assert(m1 == m1i && m2 == m2i);
        assert(n * m1i + n * m2i == len1 + len2);
        assert(n as int * (m1i + m2i) == n * m1i + n * m2i) by (nonlinear_arith);
    }
    let mut i: usize = 0;
    while i < n
        invariant
            i <= n,
            m1 == m1i,
            m2 == m2i,
            matrix1@.len() == n * m1i,
            matrix2@.len() == n * m2i,
            added@.len() == matrix1@.len() + matrix2@.len(),
            added@.len() == n * (m1i + m2i),
            forall|i2: int, j2: int|
                0 <= i2 < i && 0 <= j2 < m1i ==> #[trigger] added@[i2 * (m1i + m2i) + j2] == matrix1@[i2 * m1i
                    + j2],
            forall|i2: int, j2: int|
                0 <= i2 < i && 0 <= j2 < m2i ==> #[trigger] added@[i2 * (m1i + m2i) + m1i + j2]
                    == matrix2@[i2 * m2i + j2],
        decreases n - i,
    {
        let mut j: usize = 0;
        while j < m1
            invariant
                i < n,
                j <= m1,
                m1 == m1i,
                m2 == m2i,
                matrix1@.len() == n * m1i,
                matrix2@.len() == n * m2i,
                added@.len() == n * (m1i + m2i),
                forall|i2: int, j2: int|
                    0 <= i2 < i && 0 <= j2 < m1i ==> #[trigger] added@[i2 * (m1i + m2i) + j2] == matrix1@[i2
                        * m1i + j2],
                forall|i2: int, j2: int|
                    0 <= i2 < i && 0 <= j2 < m2i ==> #[trigger] added@[i2 * (m1i + m2i) + m1i + j2]
                        == matrix2@[i2 * m2i + j2],
                forall|j2: int|
                    0 <= j2 < j ==> #[trigger] added@[i as int * (m1i + m2i) + j2] == matrix1@[i as int * m1i
                        + j2],
            decreases m1 - j,
        {
            proof {
                lemma_grid_bounds(i as int, j as int, n as int, m1i);
                lemma_grid_bounds(i as int, j as int, n as int, m1i + m2i);
                assert(i as int * (m1i + m2i) + j + 1 <= n as int * (m1i + m2i)) by (nonlinear_arith)
                    requires
                        0 <= i < n,
                        0 <= j < m1i + m2i,
                ;
            }
            let src: usize = i * m1 + j;
            let dst: usize = i * (m1 + m2) + j;
            added[dst] = matrix1[src];
            proof {
                assert forall|i2: int, j2: int|
                    0 <= i2 < i && 0 <= j2 < m1i implies #[trigger] added@[i2 * (m1i + m2i) + j2]
                    == matrix1@[i2 * m1i + j2] by {
                    lemma_grid_bounds(i2, j2, i as int, m1i + m2i);
                    if i2 * (m1i + m2i) + j2 == dst {
                        lemma_grid_injective(i2, j2, i as int, j as int, m1i + m2i);
                    }
                }
                assert forall|i2: int, j2: int|
                    0 <= i2 < i && 0 <= j2 < m2i implies #[trigger] added@[i2 * (m1i + m2i) + m1i + j2]
                    == matrix2@[i2 * m2i + j2] by {
                    lemma_grid_bounds(i2, m1i + j2, n as int, m1i + m2i);
                    if i2 * (m1i + m2i) + m1i + j2 == dst {
                        lemma_grid_injective(i2, m1i + j2, i as int, j as int, m1i + m2i);
                    }
                }
            }
            j += 1;
        }
        let mut j: usize = 0;
        while j < m2
            invariant
                i < n,
                j <= m2,
                m1 == m1i,
                m2 == m2i,
                matrix1@.len() == n * m1i,
                matrix2@.len() == n * m2i,
                added@.len() == n * (m1i + m2i),
                forall|i2: int, j2: int|
                    0 <= i2 < i && 0 <= j2 < m1i ==> #[trigger] added@[i2 * (m1i + m2i) + j2] == matrix1@[i2
                        * m1i + j2],
                forall|i2: int, j2: int|
                    0 <= i2 < i && 0 <= j2 < m2i ==> #[trigger] added@[i2 * (m1i + m2i) + m1i + j2]
                        == matrix2@[i2 * m2i + j2],
                forall|j2: int|
                    0 <= j2 < m1i ==> #[trigger] added@[i as int * (m1i + m2i) + j2] == matrix1@[i as int * m1i
                        + j2],
                forall|j2: int|
                    0 <= j2 < j ==> #[trigger] added@[i as int * (m1i + m2i) + m1i + j2] == matrix2@[i as int
                        * m2i + j2],
            decreases m2 - j,
        {
            proof {
                lemma_grid_bounds(i as int, j as int, n as int, m2i);
                lemma_grid_bounds(i as int, (m1i + j) as int, n as int, m1i + m2i);
            }
            let src: usize = i * m2 + j;
            let dst: usize = i * (m1 + m2) + m1 + j;
            added[dst] = matrix2[src];
            proof {
                assert forall|i2: int, j2: int|
                    0 <= i2 < i && 0 <= j2 < m1i implies #[trigger] added@[i2 * (m1i + m2i) + j2]
                    == matrix1@[i2 * m1i + j2] by {
                    lemma_grid_bounds(i2, j2, n as int, m1i + m2i);
                    if i2 * (m1i + m2i) + j2 == dst {
                        lemma_grid_injective(i2, j2, i as int, m1i + j as int, m1i + m2i);
                    }
                }
                assert forall|i2: int, j2: int|
                    0 <= i2 < i && 0 <= j2 < m2i implies #[trigger] added@[i2 * (m1i + m2i) + m1i + j2]
                    == matrix2@[i2 * m2i + j2] by {
                    lemma_grid_bounds(i2, m1i + j2, n as int, m1i + m2i);
                    if i2 * (m1i + m2i) + m1i + j2 == dst {
                        lemma_grid_injective(i2, m1i + j2, i as int, m1i + j as int, m1i + m2i);
                    }
                }
                assert forall|j2: int|
                    0 <= j2 < m1i implies #[trigger] added@[i as int * (m1i + m2i) + j2] == matrix1@[i as int
                    * m1i + j2] by {
                    lemma_grid_bounds(i as int, j2, n as int, m1i + m2i);
                    if i as int * (m1i + m2i) + j2 == dst {
                        lemma_grid_injective(i as int, j2, i as int, m1i + j as int, m1i + m2i);
                    }
                }
            }
            j += 1;
        }
        i += 1;
    }
    added
}

/// Stacks two flat matrices with the same column count on top of each
/// other: plain concatenation of the storage.
#[verifier::loop_isolation(false)]
pub fn vertical_add(matrix1: &Vec<i64>, matrix2: &Vec<i64>) -> (r: Vec<i64>)
    requires
        matrix1@.len() + matrix2@.len() <= usize::MAX,
    ensures
        r@ == matrix1@ + matrix2@,
{
    let mut added: Vec<i64> = Vec::new();
    let mut i: usize = 0;
    while i < matrix1.len()
        invariant
            i <= matrix1@.len(),
            added@ == matrix1@.subrange(0, i as int),
        decreases matrix1@.len() - i,
    {
        added.push(matrix1[i]);
        proof {
            assert(added@ == matrix1@.subrange(0, i + 1 as int));
        }
        i += 1;
    }
    proof {
        assert(added@ == matrix1@);
    }
    let mut i: usize = 0;
    while i < matrix2.len()
        invariant
            i <= matrix2@.len(),
            added@ == matrix1@ + matrix2@.subrange(0, i as int),
        decreases matrix2@.len() - i,
    {
        added.push(matrix2[i]);
        proof {
            assert(added@ == matrix1@ + matrix2@.subrange(0, i + 1 as int));
        }
        i += 1;
    }
    proof {
        assert(matrix2@.subrange(0, matrix2@.len() as int) == matrix2@);
    }
    added
}

/// Transposes a flat matrix with `n` rows and `m` columns.
#[verifier::loop_isolation(false)]
pub fn transpose(matrix: &Vec<i64>, n: usize, m: usize) -> (r: Vec<i64>)
    requires
        matrix@.len() == n * m,
    ensures
        r@.len() == n * m,
        forall|i: int, j: int|
            0 <= i < n && 0 <= j < m ==> #[trigger] r@[j * n + i] == matrix@[i * m + j],
        r@ == transpose_spec(matrix@, n as int, m as int),
{
    let total: usize = matrix.len();
    let mut result: Vec<i64> = vec![0i64; total];
    proof {
        assert(n as int * m == m as int * n) by (nonlinear_arith);
    }
    let mut i: usize = 0;
    while i < n
        invariant
            i <= n,
            matrix@.len() == n * m,
            result@.len() == n * m,
            n as int * m == m as int * n,
            forall|i2: int, j2: int|
                0 <= i2 < i && 0 <= j2 < m ==> #[trigger] result@[j2 * n + i2] == matrix@[i2 * m + j2],
        decreases n - i,
    {
        let mut j: usize = 0;
        while j < m
            invariant
                i < n,
                j <= m,
                matrix@.len() == n * m,
                result@.len() == n * m,
                n as int * m == m as int * n,
                forall|i2: int, j2: int|
                    0 <= i2 < i && 0 <= j2 < m ==> #[trigger] result@[j2 * n + i2] == matrix@[i2 * m + j2],
                forall|j2: int|
                    0 <= j2 < j ==> #[trigger] result@[j2 * n + i as int] == matrix@[i as int * m + j2],
            decreases m - j,
        {
            proof {
                lemma_grid_bounds(i as int, j as int, n as int, m as int);
                lemma_grid_bounds(j as int, i as int, m as int, n as int);
            }
            let src: usize = i * m + j;
            let dst: usize = j * n + i;
            result[dst] = matrix[src];
            proof {
                assert forall|i2: int, j2: int|
                    0 <= i2 < i && 0 <= j2 < m implies #[trigger] result@[j2 * n + i2] == matrix@[i2 * m
                    + j2] by {
                    lemma_grid_bounds(j2, i2, m as int, n as int);
                    if j2 * n + i2 == dst {
                        lemma_grid_injective(j2, i2, j as int, i as int, n as int);
                    }
                }
                assert forall|j2: int|
                    0 <= j2 < j implies #[trigger] result@[j2 * n + i as int] == matrix@[i as int * m
                    + j2] by {
                    lemma_grid_bounds(j2, i as int, m as int, n as int);
                    if j2 * n + i as int == dst {
                        lemma_grid_injective(j2, i as int, j as int, i as int, n as int);
                    }
                }
            }
            j += 1;
        }
        i += 1;
    }
    proof {
        assert forall|idx: int|
            0 <= idx < n as int * m implies result@[idx] == transpose_spec(
            matrix@,
            n as int,
            m as int,
        )[idx] by {
            lemma_flat_decompose(idx, m as int, n as int);
            let r0 = idx / (n as int);
            let j0 = idx % (n as int);
            assert(result@[r0 * n + j0] == matrix@[j0 * m + r0]);
        }
        assert(result@ =~= transpose_spec(matrix@, n as int, m as int));
    }
    result
}

/// The transpose of a flat matrix with `n` rows and `m` columns, as a
/// sequence.
pub open spec fn transpose_spec(a: Seq<i64>, n: int, m: int) -> Seq<i64> {
    Seq::new(
        (n * m) as nat,
        |idx: int|
            {
                let j = idx / n;
                let i = idx % n;
                a[i * m + j]
            },
    )
}

/// The product of two flat matrices, as a sequence of saturating dot
/// products.
pub open spec fn multiply_spec(a: Seq<i64>, b: Seq<i64>, n_a: int, m_a: int, m_b: int) -> Seq<i64> {
    Seq::new(
        (n_a * m_b) as nat,
        |idx: int|
            {
                let i = idx / m_b;
                let j = idx % m_b;
                mat_dot(a, b, i, j, m_a, m_b, m_a) as i64
            },
    )
}

/// The dot product of row `i` of `a` and column `j` of `b` over the first
/// `k` inner indices, accumulated left to right with the saturating
/// fixed-point operations.
pub open spec fn mat_dot(a: Seq<i64>, b: Seq<i64>, i: int, j: int, m_a: int, m_b: int, k: int) -> int
    decreases k,
{
    if k <= 0 {
        0
    } else {
        fadd_s(mat_dot(a, b, i, j, m_a, m_b, k - 1), fmul_s(a[i * m_a + (k - 1)] as int, b[(k - 1) * m_b + j] as int))
    }
}

/// Multiplies two flat matrices; the inner dimensions must agree.
#[verifier::loop_isolation(false)]
pub fn multiply(
    matrix_a: &Vec<i64>,
    n_a: usize,
    m_a: usize,
    matrix_b: &Vec<i64>,
    n_b: usize,
    m_b: usize,
) -> (r: Vec<i64>)
    requires
        m_a == n_b,
        matrix_a@.len() == n_a * m_a,
        matrix_b@.len() == n_b * m_b,
        n_a * m_b <= usize::MAX,
    ensures
        r@.len() == n_a * m_b,
        forall|i: int, j: int|
            0 <= i < n_a && 0 <= j < m_b ==> (#[trigger] r@[i * m_b + j]) as int == mat_dot(
                matrix_a@,
                matrix_b@,
                i,
                j,
                m_a as int,
                m_b as int,
                m_a as int,
            ),
        r@ == multiply_spec(matrix_a@, matrix_b@, n_a as int, m_a as int, m_b as int),
{
    let total: usize = n_a * m_b;
    let mut result: Vec<i64> = vec![0i64; total];
    proof {
        assert forall|i2: int, j2: int|
            0 <= i2 < n_a && 0 <= j2 < m_b implies #[trigger] result@[i2 * m_b + j2] == 0i64 by {
            lemma_grid_bounds(i2, j2, n_a as int, m_b as int);
        }
    }
    let ghost av = matrix_a@;
    let ghost bv = matrix_b@;
    let mut i: usize = 0;
    while i < n_a
        invariant
            i <= n_a,
            m_a == n_b,
            av == matrix_a@,
            bv == matrix_b@,
            matrix_a@.len() == n_a * m_a,
            matrix_b@.len() == n_b * m_b,
            result@.len() == n_a * m_b,
            forall|i2: int, j2: int|
                0 <= i2 < i && 0 <= j2 < m_b ==> (#[trigger] result@[i2 * m_b + j2]) as int == mat_dot(
                    av,
                    bv,
                    i2,
                    j2,
                    m_a as int,
                    m_b as int,
                    m_a as int,
                ),
            forall|i2: int, j2: int|
                i <= i2 < n_a && 0 <= j2 < m_b ==> #[trigger] result@[i2 * m_b + j2] == 0i64,
        decreases n_a - i,
    {
        let mut j: usize = 0;
        while j < m_b
            invariant
                i < n_a,
                j <= m_b,
                m_a == n_b,
                av == matrix_a@,
                bv == matrix_b@,
                matrix_a@.len() == n_a * m_a,
                matrix_b@.len() == n_b * m_b,
                result@.len() == n_a * m_b,
                forall|i2: int, j2: int|
                    0 <= i2 < i && 0 <= j2 < m_b ==> (#[trigger] result@[i2 * m_b + j2]) as int == mat_dot(
                        av,
                        bv,
                        i2,
                        j2,
                        m_a as int,
                        m_b as int,
                        m_a as int,
                    ),
                forall|j2: int|
                    0 <= j2 < j ==> (#[trigger] result@[i as int * m_b + j2]) as int == mat_dot(
                        av,
                        bv,
                        i as int,
                        j2,
                        m_a as int,
                        m_b as int,
                        m_a as int,
                    ),
                forall|j2: int|
                    j <= j2 < m_b ==> #[trigger] result@[i as int * m_b + j2] == 0i64,
                forall|i2: int, j2: int|
                    i < i2 < n_a && 0 <= j2 < m_b ==> #[trigger] result@[i2 * m_b + j2] == 0i64,
            decreases m_b - j,
        {
            let mut k: usize = 0;
            proof {
                lemma_grid_bounds(i as int, j as int, n_a as int, m_b as int);
            }
            let dst: usize = i * m_b + j;
            while k < m_a
                invariant
                    i < n_a,
                    j < m_b,
                    k <= m_a,
                    m_a == n_b,
                    av == matrix_a@,
                    bv == matrix_b@,
                    matrix_a@.len() == n_a * m_a,
                    matrix_b@.len() == n_b * m_b,
                    result@.len() == n_a * m_b,
                    dst == i as int * m_b + j,
                    dst < n_a * m_b,
                    forall|i2: int, j2: int|
                        0 <= i2 < i && 0 <= j2 < m_b ==> (#[trigger] result@[i2 * m_b + j2]) as int == mat_dot(
                            av,
                            bv,
                            i2,
                            j2,
                            m_a as int,
                            m_b as int,
                            m_a as int,
                        ),
                    forall|j2: int|
                        0 <= j2 < j ==> (#[trigger] result@[i as int * m_b + j2]) as int == mat_dot(
                            av,
                            bv,
                            i as int,
                            j2,
                            m_a as int,
                            m_b as int,
                            m_a as int,
                        ),
                    forall|j2: int|
                        j < j2 < m_b ==> #[trigger] result@[i as int * m_b + j2] == 0i64,
                    forall|i2: int, j2: int|
                        i < i2 < n_a && 0 <= j2 < m_b ==> #[trigger] result@[i2 * m_b + j2] == 0i64,
                    result@[dst as int] as int == mat_dot(
                        av,
                        bv,
                        i as int,
                        j as int,
                        m_a as int,
                        m_b as int,
                        k as int,
                    ),
                decreases m_a - k,
            {
                proof {
                    lemma_grid_bounds(i as int, k as int, n_a as int, m_a as int);
                    lemma_grid_bounds(k as int, j as int, n_b as int, m_b as int);
                    assert(matrix_a.len() == matrix_a@.len());
                    assert(matrix_b.len() == matrix_b@.len());
                }
                let a_idx: usize = i * m_a + k;
                let b_idx: usize = k * m_b + j;
                let prod = fmul(matrix_a[a_idx], matrix_b[b_idx]);
                let cur = result[dst];
                result[dst] = fadd(cur, prod);
                proof {
                    assert forall|i2: int, j2: int|
                        0 <= i2 < i && 0 <= j2 < m_b implies (#[trigger] result@[i2 * m_b + j2]) as int
                        == mat_dot(av, bv, i2, j2, m_a as int, m_b as int, m_a as int) by {
                        lemma_grid_bounds(i2, j2, n_a as int, m_b as int);
                        if i2 * m_b + j2 == dst {
                            lemma_grid_injective(i2, j2, i as int, j as int, m_b as int);
                        }
                    }
                    assert forall|j2: int|
                        0 <= j2 < j implies (#[trigger] result@[i as int * m_b + j2]) as int == mat_dot(
                        av,
                        bv,
                        i as int,
                        j2,
                        m_a as int,
                        m_b as int,
                        m_a as int,
                    ) by {
                        lemma_grid_bounds(i as int, j2, n_a as int, m_b as int);
                        if i as int * m_b + j2 == dst {
                            lemma_grid_injective(i as int, j2, i as int, j as int, m_b as int);
                        }
                    }
                    assert forall|j2: int| j < j2 < m_b implies #[trigger] result@[i as int * m_b + j2]
                        == 0i64 by {
                        lemma_grid_bounds(i as int, j2, n_a as int, m_b as int);
                        if i as int * m_b + j2 == dst {
                            lemma_grid_injective(i as int, j2, i as int, j as int, m_b as int);
                        }
                    }
                    assert forall|i2: int, j2: int|
                        i < i2 < n_a && 0 <= j2 < m_b implies #[trigger] result@[i2 * m_b + j2] == 0i64 by {
                        lemma_grid_bounds(i2, j2, n_a as int, m_b as int);
                        if i2 * m_b + j2 == dst {
                            lemma_grid_injective(i2, j2, i as int, j as int, m_b as int);
                        }
                    }
                }
                k += 1;
            }
            j += 1;
        }
        i += 1;
    }
    proof {
        assert forall|idx: int|
            0 <= idx < n_a as int * m_b implies result@[idx] == multiply_spec(
            av,
            bv,
            n_a as int,
            m_a as int,
            m_b as int,
        )[idx] by {
            lemma_flat_decompose(idx, n_a as int, m_b as int);
            let r0 = idx / (m_b as int);
            let j0 = idx % (m_b as int);
            assert(result@[r0 * m_b + j0] as int == mat_dot(
                av,
                bv,
                r0,
                j0,
                m_a as int,
                m_b as int,
                m_a as int,
            ));
        }
        assert(result@ =~= multiply_spec(av, bv, n_a as int, m_a as int, m_b as int));
    }
    result
}

/// The side length of a square flat matrix: the integer square root of the
/// storage length.
pub open spec fn mat_side(len: nat) -> int {
    choose|r: int| #[trigger] crate::fixnum::is_isqrt(len as int, r)
}

/// Integer square root of a `usize`.
#[verifier::loop_isolation(false)]
fn isqrt_usize(x: usize) -> (r: usize)
    ensures
        crate::fixnum::is_isqrt(x as int, r as int),
        r as int == mat_side(x as nat),
{
    let n: u64 = x as u64;
    let mut lo: u64 = 0;
    let mut hi: u64 = 4294967296;  // 2^32
    proof {
        assert((x as int) < 4294967296 * 4294967296) by (nonlinear_arith)
            requires
                x <= 0xffff_ffff_ffff_ffffu64,
        ;
    }
    while hi - lo > 1
        invariant
            lo * lo <= x < hi * hi,
            lo < hi <= 4294967296,
        decreases hi - lo,
    {
        let mid: u64 = lo + (hi - lo) / 2;
        proof {
            assert(mid < 4294967296);
            assert(mid * mid <= 0xffff_fffe_0000_0001u64) by (nonlinear_arith)
                requires
                    mid <= 0xffff_ffffu64,
            ;
        }
        if mid * mid <= n {
            lo = mid;
        } else {
            hi = mid;
        }
    }
    proof {
        assert(crate::fixnum::is_isqrt(x as int, lo as int));
        crate::fixnum::lemma_isqrt_exists(x as int);
        let c = choose|r: int| #[trigger] crate::fixnum::is_isqrt(x as int, r);
        crate::fixnum::lemma_isqrt_unique(x as int, lo as int, c);
        assert(lo <= x) by (nonlinear_arith)
            requires
                lo * lo <= x,
                0 <= lo,
        ;
    }
    lo as usize
}

/// The running sum `L[i][0] L[j][0] + ... + L[i][k-1] L[j][k-1]` of the
/// Cholesky recurrence, accumulated with the saturating operations.
pub open spec fn chol_dot(a: Seq<i64>, n: int, i: int, j: int, k: int) -> int
    decreases i + j, 0int, k,
    when 0 <= k <= j && j <= i
{
    if k <= 0 {
        0
    } else {
        fadd_s(
            chol_dot(a, n, i, j, k - 1),
            fmul_s(chol_entry(a, n, i, k - 1), chol_entry(a, n, j, k - 1)),
        )
    }
}

/// The entry `L[i][j]` of the Cholesky factor of `a`:
/// `sqrt(a[i][i] - sum)` on the diagonal, `(1 / L[j][j]) (a[i][j] - sum)`
/// below it, in the operation order of the implementation.
pub open spec fn chol_entry(a: Seq<i64>, n: int, i: int, j: int) -> int
    decreases i + j, 1int, 0int,
    when 0 <= j <= i
{
    if i == j {
        sqrt_fix(fsub_s(a[i * n + i] as int, chol_dot(a, n, i, i, i)))
    } else {
        fmul_s(
            fdiv_s(SCALE as int, chol_entry(a, n, j, j)),
            fsub_s(a[i * n + j] as int, chol_dot(a, n, i, j, j)),
        )
    }
}

/// The full Cholesky factor of a flat `n` by `n` matrix as a sequence:
/// the recurrence below the diagonal, zero above it.
pub open spec fn chol_matrix_spec(a: Seq<i64>, n: int) -> Seq<i64> {
    Seq::new(
        (n * n) as nat,
        |idx: int|
            {
                let r = idx / n;
                let j = idx % n;
                if j <= r {
                    chol_entry(a, n, r, j) as i64
                } else {
                    0i64
                }
            },
    )
}

/// Cholesky factorization of a flat square matrix: the lower-triangular
/// factor by the textbook recurrence, the upper triangle left zero.  A
/// non-positive-definite input silently yields entries of no use: a
/// negative diagonal argument has no real square root and is taken as 0.
#[verifier::loop_isolation(false)]
pub fn cholesky(matrix: &Vec<i64>) -> (r: Vec<i64>)
    ensures
        r@.len() == matrix@.len(),
        ({
            let n = mat_side(matrix@.len());
            &&& forall|i: int, j: int|
                0 <= j <= i < n ==> (#[trigger] r@[i * n + j]) as int == chol_entry(
                    matrix@,
                    n,
                    i,
                    j,
                )
            &&& forall|i: int, j: int|
                0 <= i < j < n ==> #[trigger] r@[i * n + j] == 0i64
            &&& matrix@.len() == n * n ==> r@ == chol_matrix_spec(matrix@, n)
        }),
{
    let n: usize = isqrt_usize(matrix.len());
    let ghost ni = n as int;
    let ghost av = matrix@;
    let total: usize = matrix.len();
    let mut result: Vec<i64> = vec![0i64; total];
    proof {
        assert(matrix.len() == matrix@.len());
        assert(ni * ni <= matrix@.len()) by (nonlinear_arith)
            requires
                crate::fixnum::is_isqrt(matrix@.len() as int, ni),
        ;
        assert forall|i2: int, j2: int| 0 <= i2 < ni && 0 <= j2 < ni implies #[trigger] result@[i2
            * ni + j2] == 0i64 by {
            lemma_grid_bounds(i2, j2, ni, ni);
        }
    }
    let mut i: usize = 0;
    while i < n
        invariant
            i <= n,
            result@.len() == matrix@.len(),
            ni * ni <= matrix@.len(),
            forall|i2: int, j2: int|
                0 <= j2 <= i2 < i ==> (#[trigger] result@[i2 * ni + j2]) as int == chol_entry(
                    av,
                    ni,
                    i2,
                    j2,
                ),
            forall|i2: int, j2: int|
                0 <= i2 < ni && 0 <= j2 < ni && !(j2 <= i2 && i2 < i) ==> #[trigger] result@[i2
                    * ni + j2] == 0i64,
        decreases n - i,
    {
        let mut j: usize = 0;
        while j < i + 1
            invariant
                j <= i + 1,
                i < n,
                result@.len() == matrix@.len(),
                forall|i2: int, j2: int|
                    0 <= j2 <= i2 < i ==> (#[trigger] result@[i2 * ni + j2]) as int == chol_entry(
                        av,
                        ni,
                        i2,
                        j2,
                    ),
                forall|j2: int|
                    0 <= j2 < j ==> (#[trigger] result@[i as int * ni + j2]) as int == chol_entry(
                        av,
                        ni,
                        i as int,
                        j2,
                    ),
                forall|i2: int, j2: int|
                    0 <= i2 < ni && 0 <= j2 < ni && !(j2 <= i2 && i2 < i) && !(i2 == i && j2 < j)
                        ==> #[trigger] result@[i2 * ni + j2] == 0i64,
            decreases i + 1 - j,
        {
            let mut sum: i64 = 0;
            let mut k: usize = 0;
            while k < j
                invariant
                    k <= j,
                    j <= i,
                    i < n,
                    result@.len() == matrix@.len(),
                    forall|i2: int, j2: int|
                        0 <= j2 <= i2 < i ==> (#[trigger] result@[i2 * ni + j2]) as int
                            == chol_entry(av, ni, i2, j2),
                    forall|j2: int|
                        0 <= j2 < j ==> (#[trigger] result@[i as int * ni + j2]) as int
                            == chol_entry(av, ni, i as int, j2),
                    sum as int == chol_dot(av, ni, i as int, j as int, k as int),
                decreases j - k,
            {
                proof {
                    lemma_grid_bounds(i as int, k as int, ni, ni);
                    lemma_grid_bounds(j as int, k as int, ni, ni);
                }
                let ik: usize = i * n + k;
                let jk: usize = j * n + k;
                sum = fadd(sum, fmul(result[ik], result[jk]));
                k += 1;
            }
            proof {
                lemma_grid_bounds(i as int, j as int, ni, ni);
            }
            let dst: usize = i * n + j;
            let v: i64;
            if i == j {
                proof {
                    lemma_grid_bounds(i as int, i as int, ni, ni);
                }
                let ii: usize = i * n + i;
                v = fsqrt(fsub(matrix[ii], sum));
            } else {
                proof {
                    lemma_grid_bounds(j as int, j as int, ni, ni);
                }
                let jj: usize = j * n + j;
                let inv = fdiv(SCALE, result[jj]);
                let ij: usize = i * n + j;
                v = fmul(inv, fsub(matrix[ij], sum));
            }
            result[dst] = v;
            proof {
                assert(v as int == chol_entry(av, ni, i as int, j as int));
                assert forall|i2: int, j2: int|
                    0 <= j2 <= i2 < i implies (#[trigger] result@[i2 * ni + j2]) as int
                    == chol_entry(av, ni, i2, j2) by {
                    lemma_grid_bounds(i2, j2, ni, ni);
                    if i2 * ni + j2 == dst {
                        lemma_grid_injective(i2, j2, i as int, j as int, ni);
                    }
                }
                assert forall|j2: int|
                    0 <= j2 < j + 1 implies (#[trigger] result@[i as int * ni + j2]) as int
                    == chol_entry(av, ni, i as int, j2) by {
                    lemma_grid_bounds(i as int, j2, ni, ni);
                    if j2 < j {
                        if i as int * ni + j2 == dst {
                            lemma_grid_injective(i as int, j2, i as int, j as int, ni);
                        }
                    }
                }
                assert forall|i2: int, j2: int|
                    0 <= i2 < ni && 0 <= j2 < ni && !(j2 <= i2 && i2 < i) && !(i2 == i && j2 < j
                        + 1) implies #[trigger] result@[i2 * ni + j2] == 0i64 by {
                    lemma_grid_bounds(i2, j2, ni, ni);
                    if i2 * ni + j2 == dst {
                        lemma_grid_injective(i2, j2, i as int, j as int, ni);
                    }
                }
            }
            j += 1;
        }
        i += 1;
    }
    proof {
        let n0 = mat_side(matrix@.len());
        if matrix@.len() == n0 * n0 {
            assert forall|idx: int|
                0 <= idx < n0 * n0 implies result@[idx] == chol_matrix_spec(av, n0)[idx] by {
                lemma_flat_decompose(idx, n0, n0);
                let r0 = idx / n0;
                let j0 = idx % n0;
                if j0 <= r0 {
                    assert(result@[r0 * n0 + j0] as int == chol_entry(av, n0, r0, j0));
                } else {
                    assert(result@[r0 * n0 + j0] == 0i64);
                }
            }
            assert(result@ =~= chol_matrix_spec(av, n0));
        }
    }
    result
}

impl Matrix {
    /// A matrix filled with one value.
    pub fn new(rows: usize, cols: usize, value: i64) -> (r: Matrix)
        requires
            rows * cols <= usize::MAX,
        ensures
            r.wf(),
            r.rows == rows,
            r.cols == cols,
            forall|idx: int| 0 <= idx < rows * cols ==> r.data@[idx] == value,
    {
        let n: usize = rows * cols;
        let data: Vec<i64> = vec![value; n];
        Matrix { data, rows, cols }
    }

    fn set_item(&mut self, row: usize, col: usize, value: i64)
        requires
            old(self).wf(),
            row < old(self).rows,
            col < old(self).cols,
        ensures
            final(self).wf(),
            final(self).rows == old(self).rows,
            final(self).cols == old(self).cols,
            final(self).data@ == old(self).data@.update(
                old(self).cols as int * row + col,
                value,
            ),
    {
        proof {
            lemma_grid_bounds(row as int, col as int, self.rows as int, self.cols as int);
            assert(self.data.len() == self.data@.len());
        }
        let idx: usize = self.cols * row + col;
        self.data[idx] = value;
    }

    fn get_item(&self, row: usize, col: usize) -> (r: i64)
        requires
            self.wf(),
            row < self.rows,
            col < self.cols,
        ensures
            r == self.ent(row as int, col as int),
    {
        proof {
            lemma_grid_bounds(row as int, col as int, self.rows as int, self.cols as int);
            assert(self.data.len() == self.data@.len());
        }
        get_item(&self.data, self.cols, row, col)
    }

    /// Copies a rectangular block into a new matrix.
    pub fn sub_matrix(&self, start_row: usize, start_col: usize, rows: usize, cols: usize) -> (r:
        Matrix)
        requires
            self.wf(),
            start_row + rows <= self.rows,
            start_col + cols <= self.cols,
            rows * cols <= usize::MAX,
        ensures
            r.wf(),
            r.rows == rows,
            r.cols == cols,
            forall|i: int, j: int|
                0 <= i < rows && 0 <= j < cols ==> #[trigger] r.ent(i, j) == self.ent(
                    start_row + i,
                    start_col + j,
                ),
    {
        proof {
            assert(self.data.len() == self.data@.len());
            let m = self.cols as int;
            assert(rows > 0 && cols > 0 ==> m * (start_row + rows - 1) + start_col + cols - 1
                < self.rows * self.cols) by (nonlinear_arith)
                requires
                    start_row + rows <= self.rows,
                    start_col + cols <= self.cols,
                    m == self.cols,
                    rows >= 0,
                    cols >= 0,
                    start_row >= 0,
                    start_col >= 0,
            ;
        }
        let data = sub_matrix(&self.data, self.cols, start_row, start_col, rows, cols);
        Matrix { data, rows, cols }
    }

    /// Joins two matrices with the same row count side by side.
    pub fn horizontal_add(&self, matrix: &Matrix) -> (r: Matrix)
        requires
            self.wf(),
            matrix.wf(),
            matrix.rows == self.rows,
            self.rows > 0,
            self.cols + matrix.cols <= usize::MAX,
            self.data@.len() + matrix.data@.len() <= usize::MAX,
        ensures
            r.wf(),
            r.rows == self.rows,
            r.cols == self.cols + matrix.cols,
            forall|i: int, j: int|
                0 <= i < r.rows && 0 <= j < self.cols ==> #[trigger] r.ent(i, j) == self.ent(i, j),
            forall|i: int, j: int|
                0 <= i < r.rows && 0 <= j < matrix.cols ==> #[trigger] r.ent(i, self.cols + j)
                    == matrix.ent(i, j),
    {
        proof {
            let n = self.rows as int;
            let c1 = self.cols as int;
            let c2 = matrix.cols as int;
            lemma_div_exact(n, c1);
            lemma_div_exact(n, c2);
            assert(self.data@.len() == n * c1);
            assert(matrix.data@.len() == n * c2);
            assert(self.data@.len() as int / n == c1);
            assert(matrix.data@.len() as int / n == c2);
        }
        let data = horizontal_add(&self.data, &matrix.data, self.rows);
        let r = Matrix { data, rows: self.rows, cols: self.cols + matrix.cols };
        proof {
            let n = self.rows as int;
            let c1 = self.cols as int;
            let c2 = matrix.cols as int;
            assert(n * c1 + n * c2 == n * (c1 + c2)) by (nonlinear_arith);
            assert forall|i: int, j: int|
                0 <= i < r.rows && 0 <= j < c2 implies #[trigger] r.ent(i, c1 + j) == matrix.ent(
                i,
                j,
            ) by {
                assert(r.data@[i * (c1 + c2) + c1 + j] == matrix.data@[i * c2 + j]);
            }
        }
        r
    }

    /// Stacks two matrices with the same column count.
    pub fn vertical_add(&self, matrix: &Matrix) -> (r: Matrix)
        requires
            self.wf(),
            matrix.wf(),
            matrix.cols == self.cols,
            self.data@.len() + matrix.data@.len() <= usize::MAX,
            self.rows + matrix.rows <= usize::MAX,
        ensures
            r.wf(),
            r.rows == self.rows + matrix.rows,
            r.cols == self.cols,
            r.data@ == self.data@ + matrix.data@,
    {
        let data = vertical_add(&self.data, &matrix.data);
        let r = Matrix { data, rows: self.rows + matrix.rows, cols: self.cols };
        proof {
            let n1 = self.rows as int;
            let n2 = matrix.rows as int;
            let c = self.cols as int;
            assert(n1 * c + n2 * c == (n1 + n2) * c) by (nonlinear_arith);
        }
        r
    }

    /// Matrix product; the inner dimensions must agree.
    pub fn multiply(&self, matrix: &Matrix) -> (r: Matrix)
        requires
            self.wf(),
            matrix.wf(),
            self.cols == matrix.rows,
            self.rows * matrix.cols <= usize::MAX,
        ensures
            r.wf(),
            r.rows == self.rows,
            r.cols == matrix.cols,
            forall|i: int, j: int|
                0 <= i < r.rows && 0 <= j < r.cols ==> (#[trigger] r.ent(i, j)) as int == mat_dot(
                    self.data@,
                    matrix.data@,
                    i,
                    j,
                    self.cols as int,
                    matrix.cols as int,
                    self.cols as int,
                ),
            r.data@ == multiply_spec(
                self.data@,
                matrix.data@,
                self.rows as int,
                self.cols as int,
                matrix.cols as int,
            ),
    {
        let data = multiply(&self.data, self.rows, self.cols, &matrix.data, matrix.rows, matrix.cols);
        Matrix { data, rows: self.rows, cols: matrix.cols }
    }

    /// The transposed matrix.
    pub fn transpose(&self) -> (r: Matrix)
        requires
            self.wf(),
        ensures
            r.wf(),
            r.rows == self.cols,
            r.cols == self.rows,
            forall|i: int, j: int|
                0 <= i < self.rows && 0 <= j < self.cols ==> #[trigger] r.ent(j, i) == self.ent(
                    i,
                    j,
                ),
            r.data@ == transpose_spec(self.data@, self.rows as int, self.cols as int),
    {
        let data = transpose(&self.data, self.rows, self.cols);
        let r = Matrix { data, rows: self.cols, cols: self.rows };
        proof {
            assert(self.rows as int * self.cols == self.cols as int * self.rows)
                by (nonlinear_arith);
        }
        r
    }

    /// Cholesky factorization.
    pub fn cholesky(&self) -> (r: Matrix)
        requires
            self.wf(),
            self.rows == self.cols,
        ensures
            r.wf(),
            r.rows == self.rows,
            r.cols == self.cols,
            forall|i: int, j: int|
                0 <= j <= i < self.rows ==> (#[trigger] r.ent(i, j)) as int == chol_entry(
                    self.data@,
                    self.rows as int,
                    i,
                    j,
                ),
            forall|i: int, j: int|
                0 <= i < j < self.rows ==> #[trigger] r.ent(i, j) == 0i64,
    {
        proof {
            assert(crate::fixnum::is_isqrt(
                (self.rows * self.cols) as int,
                self.rows as int,
            )) by (nonlinear_arith)
                requires
                    self.rows == self.cols,
                    self.rows >= 0,
            ;
            crate::fixnum::lemma_isqrt_exists(self.data@.len() as int);
            assert(crate::fixnum::is_isqrt(
                self.data@.len() as int,
                mat_side(self.data@.len()),
            ));
            crate::fixnum::lemma_isqrt_unique(
                self.data@.len() as int,
                self.rows as int,
                mat_side(self.data@.len()),
            );
        }
        let data = cholesky(&self.data);
        Matrix { data, rows: self.rows, cols: self.cols }
    }
}

/// `n * c / n == c` for positive `n`.
proof fn lemma_div_exact(n: int, c: int)
    requires
        n > 0,
        c >= 0,
    ensures
        (n * c) as int / n == c,
{
    assert((n * c) as int / n == c) by (nonlinear_arith)
        requires
            n > 0,
            c >= 0,
    ;
}


/// Row `i` of a flat matrix with `cols` columns holds only zeroes.
pub open spec fn row_all_zero(m: Seq<i64>, cols: int, i: int) -> bool {
    forall|j: int| 0 <= j < cols ==> #[trigger] m[i * cols + j] == 0i64
}

/// The matrix with row `src` moved to the bottom and the rows below it
/// shifted up by one.
pub open spec fn row_to_bottom(m: Seq<i64>, rows: int, cols: int, src: int) -> Seq<i64> {
    Seq::new(
        m.len(),
        |idx: int|
            if idx < src * cols {
                m[idx]
            } else if idx < (rows - 1) * cols {
                m[idx + cols]
            } else if idx < rows * cols {
                m[src * cols + (idx - (rows - 1) * cols)]
            } else {
                m[idx]
            },
    )
}

/// The relocation pass of the inversion: each all-zero row sinks to the
/// bottom, and the working matrix shrinks by one row for it.
pub open spec fn relocate_zero_rows(m: Seq<i64>, rows: int, cols: int, i: int, top: int) -> Seq<i64>
    decreases top - i,
    when i <= top
{
    if i >= top {
        m
    } else if row_all_zero(m, cols, i) {
        relocate_zero_rows(row_to_bottom(m, rows, cols, i), rows, cols, i, top - 1)
    } else {
        relocate_zero_rows(m, rows, cols, i + 1, top)
    }
}

/// Column `j` holds a nonzero entry in some row at or after `k`.
pub open spec fn col_has_pivot(m: Seq<i64>, rows: int, cols: int, k: int, j: int) -> bool {
    exists|i: int| k <= i < rows && #[trigger] m[i * cols + j] != 0i64
}

/// (`pi`, `pj`) is the pivot for step `k`: the first nonzero entry, taking
/// columns left to right and within a column the rows from `k` down.
pub open spec fn is_pivot(m: Seq<i64>, rows: int, cols: int, k: int, pi: int, pj: int) -> bool {
    &&& 0 <= pj < cols
    &&& k <= pi < rows
    &&& m[pi * cols + pj] != 0i64
    &&& forall|j: int| 0 <= j < pj ==> !col_has_pivot(m, rows, cols, k, j)
    &&& forall|i: int| k <= i < pi ==> #[trigger] m[i * cols + pj] == 0i64
}

pub open spec fn has_pivot(m: Seq<i64>, rows: int, cols: int, k: int) -> bool {
    exists|pi: int, pj: int| is_pivot(m, rows, cols, k, pi, pj)
}

pub open spec fn pivot_of(m: Seq<i64>, rows: int, cols: int, k: int) -> (int, int) {
    choose|pi: int, pj: int| is_pivot(m, rows, cols, k, pi, pj)
}

pub proof fn lemma_pivot_unique(m: Seq<i64>, rows: int, cols: int, k: int, pi: int, pj: int)
    requires
        is_pivot(m, rows, cols, k, pi, pj),
    ensures
        has_pivot(m, rows, cols, k),
        pivot_of(m, rows, cols, k) == (pi, pj),
{
    assert(has_pivot(m, rows, cols, k));
    let (qi, qj) = pivot_of(m, rows, cols, k);
    assert(is_pivot(m, rows, cols, k, qi, qj));
    if pj < qj {
        assert(col_has_pivot(m, rows, cols, k, pj));
    }
    if qj < pj {
        assert(col_has_pivot(m, rows, cols, k, qj));
    }
    if pi < qi {
        assert(m[pi * cols + pj] == 0i64);
    }
    if qi < pi {
        assert(m[qi * cols + qj] == 0i64);
    }
}

/// Row `i` divided entry by entry by the pivot value `a`.
pub open spec fn scale_row(m: Seq<i64>, cols: int, i: int, a: i64) -> Seq<i64> {
    Seq::new(
        m.len(),
        |idx: int|
            if i * cols <= idx < (i + 1) * cols {
                fdiv_s(m[idx] as int, a as int) as i64
            } else {
                m[idx]
            },
    )
}

/// Row `src` moved up to position `dst`, the rows between shifted down.
pub open spec fn row_up_to(m: Seq<i64>, cols: int, dst: int, src: int) -> Seq<i64> {
    Seq::new(
        m.len(),
        |idx: int|
            if idx < dst * cols {
                m[idx]
            } else if idx < (dst + 1) * cols {
                m[src * cols + (idx - dst * cols)]
            } else if idx < (src + 1) * cols {
                m[idx - cols]
            } else {
                m[idx]
            },
    )
}

/// The elimination of one row against pivot row `k` in column `pj`: the
/// pivot-column entry is forced to zero and the later entries reduced by
/// the pivot row scaled with it; the pivot row itself, and rows already
/// clear in the pivot column, are untouched.
pub open spec fn eliminate_row(m: Seq<i64>, cols: int, k: int, pj: int, i: int) -> Seq<i64> {
    let lead = m[i * cols + pj];
    if i == k || lead == 0i64 {
        m
    } else {
        Seq::new(
            m.len(),
            |idx: int|
                if i * cols <= idx < (i + 1) * cols {
                    let j = idx - i * cols;
                    if j == pj {
                        0i64
                    } else if j > pj {
                        fsub_s(m[idx] as int, fmul_s(lead as int, m[k * cols + j] as int)) as i64
                    } else {
                        m[idx]
                    }
                } else {
                    m[idx]
                },
        )
    }
}

/// The elimination applied to the rows `0 .. i` in turn.
pub open spec fn eliminate_rows(m: Seq<i64>, cols: int, k: int, pj: int, i: int) -> Seq<i64>
    decreases i,
{
    if i <= 0 {
        m
    } else {
        eliminate_row(eliminate_rows(m, cols, k, pj, i - 1), cols, k, pj, i - 1)
    }
}

/// One round of the reduction: find the pivot for step `k`, normalize its
/// row, move that row up to position `k`, and clear the pivot column from
/// every other row.  A step without any pivot leaves the matrix unchanged.
pub open spec fn gj_round(m: Seq<i64>, rows: int, cols: int, k: int) -> Seq<i64> {
    if has_pivot(m, rows, cols, k) {
        let p = pivot_of(m, rows, cols, k);
        let scaled = scale_row(m, cols, p.0, m[p.0 * cols + p.1]);
        let moved = row_up_to(scaled, cols, k, p.0);
        eliminate_rows(moved, cols, k, p.1, rows)
    } else {
        m
    }
}

/// The reduction after the rounds `0 .. k`.
pub open spec fn gj_rounds(m: Seq<i64>, rows: int, cols: int, k: int) -> Seq<i64>
    decreases k,
{
    if k <= 0 {
        m
    } else {
        gj_round(gj_rounds(m, rows, cols, k - 1), rows, cols, k - 1)
    }
}

/// The flat augmented matrix `[A | I]` of a flat `n` by `n` matrix.
pub open spec fn augmented(a: Seq<i64>, n: int) -> Seq<i64> {
    Seq::new(
        (n * (2 * n)) as nat,
        |idx: int|
            {
                let r = idx / (2 * n);
                let j = idx % (2 * n);
                if j < n {
                    a[r * n + j]
                } else if j == n + r {
                    SCALE
                } else {
                    0i64
                }
            },
    )
}

/// The right half of a reduced flat augmented matrix.
pub open spec fn right_half(m: Seq<i64>, n: int) -> Seq<i64> {
    Seq::new(
        (n * n) as nat,
        |idx: int|
            {
                let r = idx / n;
                let j = idx % n;
                m[r * (2 * n) + n + j]
            },
    )
}

/// The Gauss-Jordan inverse of a flat `n` by `n` matrix: the right half of
/// the full reduction of `[A | I]`, after the all-zero rows of the
/// augmented matrix have been moved to the bottom.
pub open spec fn gj_inverse(a: Seq<i64>, n: int) -> Seq<i64> {
    right_half(
        gj_rounds(relocate_zero_rows(augmented(a, n), n, 2 * n, 0, n), n, 2 * n, n),
        n,
    )
}

/// A flat index split into its row and column.
pub proof fn lemma_flat_decompose(idx: int, rows: int, cols: int)
    requires
        0 <= idx < rows * cols,
        cols > 0,
    ensures
        0 <= idx / cols < rows,
        0 <= idx % cols < cols,
        idx == (idx / cols) * cols + idx % cols,
{
    assert(0 <= idx / cols < rows && 0 <= idx % cols < cols && idx == (idx / cols) * cols + idx
        % cols) by (nonlinear_arith)
        requires
            0 <= idx < rows * cols,
            cols > 0,
    ;
}

/// Copies one row of a flat matrix.
#[verifier::loop_isolation(false)]
fn copy_row(data: &Vec<i64>, cols: usize, row: usize) -> (r: Vec<i64>)
    requires
        row * cols + cols <= data@.len(),
    ensures
        r@.len() == cols,
        forall|j: int| 0 <= j < cols ==> #[trigger] r@[j] == data@[row as int * cols + j],
{
    let mut out: Vec<i64> = Vec::new();
    let mut j: usize = 0;
    while j < cols
        invariant
            j <= cols,
            out@.len() == j,
            forall|j2: int| 0 <= j2 < j ==> #[trigger] out@[j2] == data@[row as int * cols + j2],
        decreases cols - j,
    {
        proof {
            assert(data.len() == data@.len());
        }
        out.push(data[row * cols + j]);
        j += 1;
    }
    out
}

impl Matrix {
    /// Gauss-Jordan inversion on the augmented matrix `[A | I]`: all-zero
    /// rows are first moved to the bottom of the working matrix; then for
    /// each step the first column with a nonzero entry at or below the
    /// step's row gives the pivot, whose row is normalized and moved up,
    /// and that column is cleared from every other row; the right half of
    /// the reduction is returned.  There is no singularity detection: a
    /// singular input silently yields an inaccurate result.
    #[verifier::loop_isolation(false)]
    #[verifier::rlimit(100)]
    pub fn inverse(&self) -> (r: Matrix)
        requires
            self.wf(),
            self.rows == self.cols,
            self.rows >= 1,
            self.rows * (2 * self.rows) <= usize::MAX,
        ensures
            r.wf(),
            r.rows == self.rows,
            r.cols == self.cols,
            r.data@ == gj_inverse(self.data@, self.rows as int),
    {
        let n: usize = self.rows;
        proof {
            assert(n * n + n * n == n * (2 * n)) by (nonlinear_arith);
            assert(n * n <= n * (2 * n) && n + n <= n * (2 * n) && 2 * n <= n * (2 * n))
                by (nonlinear_arith)
                requires
                    n >= 1,
            ;
        }
        let cols2: usize = 2 * n;
        let id = identity_matrix(n);
        let m2 = self.horizontal_add(&id);
        let mut data: Vec<i64> = m2.data;
        let ghost av = self.data@;
        proof {
            assert(data@.len() == n * cols2);
            assert forall|idx: int| 0 <= idx < n as int * cols2 implies data@[idx] == augmented(
                av,
                n as int,
            )[idx] by {
                lemma_flat_decompose(idx, n as int, cols2 as int);
                let r0 = idx / (cols2 as int);
                let j0 = idx % (cols2 as int);
                assert(m2.ent(r0, j0) == data@[idx]);
                if j0 < n {
                    assert(m2.ent(r0, j0) == self.ent(r0, j0));
                    lemma_grid_bounds(r0, j0, n as int, n as int);
                } else {
                    assert(m2.ent(r0, n as int + (j0 - n)) == id.ent(r0, j0 - n));
                    assert(m2.ent(r0, j0) == id.ent(r0, j0 - n));
                }
            }
            assert(data@ =~= augmented(av, n as int));
        }
        let ghost aug0 = data@;

        // move the all-zero rows to the bottom of the working matrix
        let mut top_row: usize = n;
        let mut i: usize = 0;
        while i < top_row
            invariant
                i <= top_row <= n,
                data@.len() == n * cols2,
                relocate_zero_rows(data@, n as int, cols2 as int, i as int, top_row as int)
                    == relocate_zero_rows(aug0, n as int, cols2 as int, 0, n as int),
            decreases top_row - i,
        {
            let mut zero_row: bool = true;
            let mut j: usize = 0;
            while j < cols2
                invariant
                    j <= cols2,
                    i < n,
                    data@.len() == n * cols2,
                    zero_row == (forall|j2: int|
                        0 <= j2 < j ==> #[trigger] data@[i as int * cols2 + j2] == 0i64),
                decreases cols2 - j,
            {
                proof {
                    lemma_grid_bounds(i as int, j as int, n as int, cols2 as int);
                    assert(data.len() == data@.len());
                }
                if data[i * cols2 + j] != 0 {
                    zero_row = false;
                }
                j += 1;
            }
            if zero_row {
                proof {
                    lemma_grid_bounds(i as int, 0, n as int, cols2 as int);
                    assert(i as int * cols2 + cols2 <= n as int * cols2 && i as int * cols2
                        <= (n - 1) as int * cols2 && (n - 1) as int * cols2 + cols2 == n as int
                        * cols2) by (nonlinear_arith)
                        requires
                            i < n,
                            n >= 1,
                    ;
                    assert(data.len() == data@.len());
                }
                let buf = copy_row(&data, cols2, i);
                let ghost snap = data@;
                // shift the rows below up by one
                let mut idx: usize = i * cols2;
                let stop: usize = (n - 1) * cols2;
                while idx < stop
                    invariant
                        i * cols2 <= idx <= stop,
                        stop == (n - 1) * cols2,
                        stop + cols2 == n * cols2,
                        data@.len() == n * cols2,
                        forall|x: int|
                            i as int * cols2 <= x < idx ==> #[trigger] data@[x] == snap[x + cols2],
                        forall|x: int| 0 <= x < i as int * cols2 ==> #[trigger] data@[x] == snap[x],
                        forall|x: int|
                            idx <= x < data@.len() ==> #[trigger] data@[x] == snap[x],
                    decreases stop - idx,
                {
                    proof {
                        assert(data.len() == data@.len());
                    }
                    let v = data[idx + cols2];
                    data[idx] = v;
                    idx += 1;
                }
                // write the saved row at the bottom
                let ghost snap2 = data@;
                let mut j2: usize = 0;
                while j2 < cols2
                    invariant
                        j2 <= cols2,
                        data@.len() == n * cols2,
                        stop == (n - 1) * cols2,
                        stop + cols2 == n * cols2,
                        forall|x: int|
                            stop <= x < stop + j2 ==> #[trigger] data@[x] == buf@[x - stop],
                        forall|x: int| 0 <= x < stop ==> #[trigger] data@[x] == snap2[x],
                        forall|x: int|
                            stop + j2 <= x < data@.len() ==> #[trigger] data@[x] == snap2[x],
                    decreases cols2 - j2,
                {
                    proof {
                        assert(data.len() == data@.len());
                    }
                    data[stop + j2] = buf[j2];
                    j2 += 1;
                }
                proof {
                    assert forall|x: int|
                        0 <= x < data@.len() implies data@[x] == row_to_bottom(
                        snap,
                        n as int,
                        cols2 as int,
                        i as int,
                    )[x] by {
                        assert(i as int * cols2 <= (n - 1) as int * cols2) by (nonlinear_arith)
                            requires
                                i < n,
                        ;
                    }
                    assert(data@ =~= row_to_bottom(snap, n as int, cols2 as int, i as int));
                    assert(row_all_zero(snap, cols2 as int, i as int));
                    assert(relocate_zero_rows(snap, n as int, cols2 as int, i as int, top_row as int)
                        == relocate_zero_rows(data@, n as int, cols2 as int, i as int, (top_row
                        - 1) as int));
                }
                top_row -= 1;
            } else {
                proof {
                    assert(!row_all_zero(data@, cols2 as int, i as int));
                    assert(relocate_zero_rows(data@, n as int, cols2 as int, i as int, top_row as int)
                        == relocate_zero_rows(data@, n as int, cols2 as int, (i + 1) as int, top_row as int));
                }
                i += 1;
            }
        }
        proof {
            assert(relocate_zero_rows(data@, n as int, cols2 as int, i as int, top_row as int)
                == data@);
        }
        let ghost phase2_start = data@;

        // eliminate step by step
        let mut k: usize = 0;
        while k < n
            invariant
                k <= n,
                data@.len() == n * cols2,
                data@ == gj_rounds(phase2_start, n as int, cols2 as int, k as int),
            decreases n - k,
        {
            let ghost mk = data@;
            let mut found: bool = false;
            let mut pi: usize = 0;
            let mut pj: usize = 0;
            let mut j: usize = 0;
            while j < cols2
                invariant
                    j <= cols2,
                    k < n,
                    data@ == mk,
                    data@.len() == n * cols2,
                    found ==> is_pivot(mk, n as int, cols2 as int, k as int, pi as int, pj as int),
                    !found ==> forall|j2: int|
                        0 <= j2 < j ==> !col_has_pivot(mk, n as int, cols2 as int, k as int, j2),
                decreases cols2 - j,
            {
                if !found {
                    let mut i2: usize = k;
                    while i2 < n
                        invariant
                            k <= i2 <= n,
                            j < cols2,
                            data@ == mk,
                            data@.len() == n * cols2,
                            found ==> is_pivot(
                                mk,
                                n as int,
                                cols2 as int,
                                k as int,
                                pi as int,
                                pj as int,
                            ),
                            !found ==> forall|j2: int|
                                0 <= j2 < j ==> !col_has_pivot(
                                    mk,
                                    n as int,
                                    cols2 as int,
                                    k as int,
                                    j2,
                                ),
                            !found ==> forall|i3: int|
                                k <= i3 < i2 ==> #[trigger] mk[i3 * cols2 + j] == 0i64,
                        decreases n - i2,
                    {
                        proof {
                            lemma_grid_bounds(i2 as int, j as int, n as int, cols2 as int);
                            assert(data.len() == data@.len());
                        }
                        if !found && data[i2 * cols2 + j] != 0 {
                            found = true;
                            pi = i2;
                            pj = j;
                            proof {
                                assert(is_pivot(
                                    mk,
                                    n as int,
                                    cols2 as int,
                                    k as int,
                                    pi as int,
                                    pj as int,
                                ));
                            }
                        }
                        i2 += 1;
                    }
                }
                j += 1;
            }
            if found {
                proof {
                    lemma_pivot_unique(
                        mk,
                        n as int,
                        cols2 as int,
                        k as int,
                        pi as int,
                        pj as int,
                    );
                    lemma_grid_bounds(pi as int, pj as int, n as int, cols2 as int);
                    assert(data.len() == data@.len());
                }
                let a: i64 = data[pi * cols2 + pj];
                // normalize the pivot row
                let ghost before_scale = data@;
                let mut z: usize = 0;
                proof {
                    assert(pi as int * cols2 + cols2 == (pi + 1) as int * cols2 && (pi + 1) as int
                        * cols2 <= n as int * cols2) by (nonlinear_arith)
                        requires
                            pi < n,
                    ;
                }
                while z < cols2
                    invariant
                        z <= cols2,
                        pi < n,
                        data@.len() == n * cols2,
                        pi as int * cols2 + cols2 <= data@.len(),
                        forall|x: int|
                            pi as int * cols2 <= x < pi as int * cols2 + z
                                ==> (#[trigger] data@[x]) as int == fdiv_s(
                                before_scale[x] as int,
                                a as int,
                            ),
                        forall|x: int|
                            0 <= x < pi as int * cols2 ==> #[trigger] data@[x] == before_scale[x],
                        forall|x: int|
                            pi as int * cols2 + z <= x < data@.len() ==> #[trigger] data@[x]
                                == before_scale[x],
                    decreases cols2 - z,
                {
                    proof {
                        assert(data.len() == data@.len());
                    }
                    let v = data[pi * cols2 + z];
                    data[pi * cols2 + z] = fdiv(v, a);
                    z += 1;
                }
                proof {
                    assert(data@ =~= scale_row(before_scale, cols2 as int, pi as int, a));
                }
                // move the pivot row up to position k
                proof {
                    assert((pi + 1) as int * cols2 <= n as int * cols2 && pi as int * cols2 + cols2
                        == (pi + 1) as int * cols2 && (k + 1) as int * cols2 <= (pi + 1) as int
                        * cols2 && k as int * cols2 + cols2 == (k + 1) as int * cols2)
                        by (nonlinear_arith)
                        requires
                            k <= pi < n,
                    ;
                }
                let buf = copy_row(&data, cols2, pi);
                let ghost before_move = data@;
                let mut idx: usize = (pi + 1) * cols2;
                let bottom: usize = (k + 1) * cols2;
                while idx > bottom
                    invariant
                        bottom <= idx <= (pi + 1) * cols2,
                        bottom == (k + 1) * cols2,
                        (pi + 1) * cols2 <= data@.len(),
                        data@.len() == n * cols2,
                        forall|x: int|
                            idx <= x < (pi + 1) as int * cols2 ==> #[trigger] data@[x]
                                == before_move[x - cols2],
                        forall|x: int| 0 <= x < idx ==> #[trigger] data@[x] == before_move[x],
                        forall|x: int|
                            (pi + 1) as int * cols2 <= x < data@.len() ==> #[trigger] data@[x]
                                == before_move[x],
                    decreases idx,
                {
                    proof {
                        assert(data.len() == data@.len());
                        assert(k as int * cols2 <= idx - 1 - cols2 + cols2);
                    }
                    idx -= 1;
                    let v = data[idx - cols2];
                    data[idx] = v;
                }
                let ghost after_shift = data@;
                let mut j2: usize = 0;
                while j2 < cols2
                    invariant
                        j2 <= cols2,
                        data@.len() == n * cols2,
                        bottom == (k + 1) * cols2,
                        k as int * cols2 + cols2 == bottom,
                        bottom <= data@.len(),
                        forall|x: int|
                            k as int * cols2 <= x < k as int * cols2 + j2 ==> #[trigger] data@[x]
                                == buf@[x - k as int * cols2],
                        forall|x: int|
                            0 <= x < k as int * cols2 ==> #[trigger] data@[x] == after_shift[x],
                        forall|x: int|
                            k as int * cols2 + j2 <= x < data@.len() ==> #[trigger] data@[x]
                                == after_shift[x],
                    decreases cols2 - j2,
                {
                    proof {
                        assert(data.len() == data@.len());
                    }
                    data[k * cols2 + j2] = buf[j2];
                    j2 += 1;
                }
                proof {
                    assert forall|x: int|
                        0 <= x < data@.len() implies data@[x] == row_up_to(
                        before_move,
                        cols2 as int,
                        k as int,
                        pi as int,
                    )[x] by {}
                    assert(data@ =~= row_up_to(before_move, cols2 as int, k as int, pi as int));
                }
                // clear the pivot column from every other row
                let ghost before_elim = data@;
                let mut i2: usize = 0;
                while i2 < n
                    invariant
                        i2 <= n,
                        k < n,
                        pj < cols2,
                        data@.len() == n * cols2,
                        data@ == eliminate_rows(
                            before_elim,
                            cols2 as int,
                            k as int,
                            pj as int,
                            i2 as int,
                        ),
                    decreases n - i2,
                {
                    let ghost cur = data@;
                    proof {
                        lemma_grid_bounds(i2 as int, pj as int, n as int, cols2 as int);
                        assert(data.len() == data@.len());
                        assert(i2 as int * cols2 + cols2 == (i2 + 1) as int * cols2 && (i2
                            + 1) as int * cols2 <= n as int * cols2) by (nonlinear_arith)
                            requires
                                i2 < n,
                        ;
                    }
                    if i2 != k {
                        let lead: i64 = data[i2 * cols2 + pj];
                        if lead != 0 {
                            data[i2 * cols2 + pj] = 0;
                            let mut y: usize = pj + 1;
                            while y < cols2
                                invariant
                                    pj < y <= cols2,
                                    i2 < n,
                                    i2 != k,
                                    k < n,
                                    data@.len() == n * cols2,
                                    i2 as int * cols2 + cols2 <= data@.len(),
                                    lead == cur[i2 as int * cols2 + pj],
                                    lead != 0i64,
                                    data@[i2 as int * cols2 + pj] == 0i64,
                                    forall|x: int|
                                        i2 as int * cols2 + pj < x < i2 as int * cols2 + y
                                            ==> (#[trigger] data@[x]) as int == fsub_s(
                                            cur[x] as int,
                                            fmul_s(
                                                lead as int,
                                                cur[k as int * cols2 + (x - i2 as int * cols2)] as int,
                                            ),
                                        ),
                                    forall|x: int|
                                        0 <= x < i2 as int * cols2 + pj ==> #[trigger] data@[x]
                                            == cur[x],
                                    forall|x: int|
                                        i2 as int * cols2 + y <= x < data@.len()
                                            ==> #[trigger] data@[x] == cur[x],
                                decreases cols2 - y,
                            {
                                proof {
                                    assert(data.len() == data@.len());
                                    lemma_grid_bounds(k as int, y as int, n as int, cols2 as int);
                                    assert(k as int * cols2 + y != i2 as int * cols2 + pj && !(
                                    i2 as int * cols2 + pj < k as int * cols2 + y < i2 as int
                                        * cols2 + y)) by (nonlinear_arith)
                                        requires
                                            i2 != k,
                                            i2 < n,
                                            k < n,
                                            pj < y,
                                            y < cols2,
                                            cols2 > 0,
                                    ;
                                }
                                let val = data[i2 * cols2 + y];
                                let rv = data[k * cols2 + y];
                                data[i2 * cols2 + y] = fsub(val, fmul(lead, rv));
                                y += 1;
                            }
                            proof {
                                assert forall|x: int|
                                    0 <= x < data@.len() implies data@[x] == eliminate_row(
                                    cur,
                                    cols2 as int,
                                    k as int,
                                    pj as int,
                                    i2 as int,
                                )[x] by {}
                                assert(data@ =~= eliminate_row(
                                    cur,
                                    cols2 as int,
                                    k as int,
                                    pj as int,
                                    i2 as int,
                                ));
                            }
                        } else {
                            proof {
                                assert(data@ == eliminate_row(
                                    cur,
                                    cols2 as int,
                                    k as int,
                                    pj as int,
                                    i2 as int,
                                ));
                            }
                        }
                    } else {
                        proof {
                            assert(data@ == eliminate_row(
                                cur,
                                cols2 as int,
                                k as int,
                                pj as int,
                                i2 as int,
                            ));
                        }
                    }
                    i2 += 1;
                }
                proof {
                    let ni = n as int;
                    let c2 = cols2 as int;
                    let ki = k as int;
                    assert(mk[pi as int * c2 + pj as int] == a);
                    assert(pivot_of(mk, ni, c2, ki) == (pi as int, pj as int));
                    assert(before_scale == mk);
                    assert(before_move == scale_row(mk, c2, pi as int, a));
                    assert(before_elim == row_up_to(before_move, c2, ki, pi as int));
                    assert(data@ == gj_round(mk, ni, c2, ki));
                    assert(data@ == gj_rounds(phase2_start, ni, c2, ki + 1));
                }
            } else {
                proof {
                    let ni = n as int;
                    let c2 = cols2 as int;
                    let ki = k as int;
                    assert(!has_pivot(mk, ni, c2, ki)) by {
                        if has_pivot(mk, ni, c2, ki) {
                            let (qi, qj) = pivot_of(mk, ni, c2, ki);
                            assert(is_pivot(mk, ni, c2, ki, qi, qj));
                            assert(col_has_pivot(mk, ni, c2, ki, qj));
                        }
                    }
                    assert(data@ == gj_round(mk, ni, c2, ki));
                    assert(data@ == gj_rounds(phase2_start, ni, c2, ki + 1));
                }
            }
            k += 1;
        }

        // the right half of the reduction is the inverse
        proof {
            assert(n * n <= usize::MAX);
            assert((n > 0 && n > 0) ==> cols2 as int * (0 + n - 1) + n + n - 1 < data@.len())
                by (nonlinear_arith)
                requires
                    n >= 1,
                    cols2 == 2 * n,
                    data@.len() == n * cols2,
            ;
        }
        let inv_data = sub_matrix(&data, cols2, 0, n, n, n);
        proof {
            assert forall|idx: int| 0 <= idx < n as int * n implies inv_data@[idx] == right_half(
                data@,
                n as int,
            )[idx] by {
                lemma_flat_decompose(idx, n as int, n as int);
                let r0 = idx / (n as int);
                let j0 = idx % (n as int);
                assert(inv_data@[r0 * n + j0] == data@[cols2 as int * (0 + r0) + n + j0]);
                assert(cols2 as int * (0 + r0) == r0 * (2 * n as int)) by (nonlinear_arith)
                    requires
                        cols2 == 2 * n,
                ;
            }
            assert(inv_data@ =~= right_half(data@, n as int));
        }
        Matrix { data: inv_data, rows: n, cols: n }
    }
}

} // verus!
