use vstd::arithmetic::div_mod::{
    lemma_div_pos_is_pos, lemma_fundamental_div_mod_converse, lemma_mod_bound,
    lemma_multiply_divide_lt,
};
use vstd::prelude::*;

verus! {

/// A square matrix of order 2, 3 or 4, stored row by row.
///
/// Entries are of any copyable type; transforms use 4 by 4 matrices of
/// numbers.
#[derive(Clone, Debug, PartialEq)]
pub struct Matrix<T> {
    size: usize,
    elems: Vec<T>,
}

/// `(i, j)` lies in an `n` by `n` matrix.
pub open spec fn in_square(n: int, i: int, j: int) -> bool {
    0 <= i < n && 0 <= j < n
}

/// Row-major position `k` of an `n` by `n` matrix is `(k / n, k % n)`, and
/// position `(i, j)` is `i * n + j`.
proof fn lemma_row_major(n: int, k: int)
    requires
        0 < n,
        0 <= k < n * n,
    ensures
        in_square(n, k / n, k % n),
        k == (k / n) * n + k % n,
{
    lemma_div_pos_is_pos(k, n);
    lemma_multiply_divide_lt(k, n, n);
    lemma_mod_bound(k, n);
    vstd::arithmetic::div_mod::lemma_fundamental_div_mod(k, n);
    assert(k == (k / n) * n + k % n) by (nonlinear_arith)
        requires
            k == n * (k / n) + k % n,
    ;
}

proof fn lemma_row_major_inverse(n: int, i: int, j: int)
    requires
        in_square(n, i, j),
    ensures
        0 <= i * n + j < n * n,
        (i * n + j) / n == i,
        (i * n + j) % n == j,
{
    lemma_fundamental_div_mod_converse(i * n + j, n, i, j);
    assert(0 <= i * n + j < n * n) by (nonlinear_arith)
        requires
            in_square(n, i, j),
    ;
}

impl<T> Matrix<T> {
    /// The order is 2, 3 or 4 and there is one entry per position.
    pub closed spec fn wf(&self) -> bool {
        2 <= self.size <= 4 && self.elems@.len() == self.size * self.size
    }

    /// Number of rows, and of columns.
    pub closed spec fn dim(&self) -> int {
        self.size as int
    }

    /// The entry at row `i`, column `j`.
    pub closed spec fn entry(&self, i: int, j: int) -> T {
        self.elems@[i * self.size + j]
    }

    /// Number of rows, and of columns.
    pub fn size(&self) -> (r: usize)
        ensures
            r == self.dim(),
    {
        self.size
    }
}

impl<T: Copy> Matrix<T> {
    /// The 2 by 2 matrix with rows `row1`, `row2`.
    pub fn new2x2(row1: [T; 2], row2: [T; 2]) -> (r: Matrix<T>)
        ensures
            r.wf(),
            r.dim() == 2,
            forall|j: int| 0 <= j < 2 ==> r.entry(0, j) == row1@[j],
            forall|j: int| 0 <= j < 2 ==> r.entry(1, j) == row2@[j],
    {
        let mut elems: Vec<T> = Vec::new();
        elems.push(row1[0]);
        elems.push(row1[1]);
        elems.push(row2[0]);
        elems.push(row2[1]);
        Matrix { size: 2, elems }
    }

    /// The 3 by 3 matrix with rows `row1` to `row3`.
    pub fn new3x3(row1: [T; 3], row2: [T; 3], row3: [T; 3]) -> (r: Matrix<T>)
        ensures
            r.wf(),
            r.dim() == 3,
            forall|j: int| 0 <= j < 3 ==> r.entry(0, j) == row1@[j],
            forall|j: int| 0 <= j < 3 ==> r.entry(1, j) == row2@[j],
            forall|j: int| 0 <= j < 3 ==> r.entry(2, j) == row3@[j],
    {
        let mut elems: Vec<T> = Vec::new();
        elems.push(row1[0]);
        elems.push(row1[1]);
        elems.push(row1[2]);
        elems.push(row2[0]);
        elems.push(row2[1]);
        elems.push(row2[2]);
        elems.push(row3[0]);
        elems.push(row3[1]);
        elems.push(row3[2]);
        Matrix { size: 3, elems }
    }

    /// The 4 by 4 matrix with rows `row1` to `row4`.
    pub fn new4x4(row1: [T; 4], row2: [T; 4], row3: [T; 4], row4: [T; 4]) -> (r: Matrix<T>)
        ensures
            r.wf(),
            r.dim() == 4,
            forall|j: int| 0 <= j < 4 ==> r.entry(0, j) == row1@[j],
            forall|j: int| 0 <= j < 4 ==> r.entry(1, j) == row2@[j],
            forall|j: int| 0 <= j < 4 ==> r.entry(2, j) == row3@[j],
            forall|j: int| 0 <= j < 4 ==> r.entry(3, j) == row4@[j],
    {
        let mut elems: Vec<T> = Vec::new();
        elems.push(row1[0]);
        elems.push(row1[1]);
        elems.push(row1[2]);
        elems.push(row1[3]);
        elems.push(row2[0]);
        elems.push(row2[1]);
        elems.push(row2[2]);
        elems.push(row2[3]);
        elems.push(row3[0]);
        elems.push(row3[1]);
        elems.push(row3[2]);
        elems.push(row3[3]);
        elems.push(row4[0]);
        elems.push(row4[1]);
        elems.push(row4[2]);
        elems.push(row4[3]);
        Matrix { size: 4, elems }
    }

    /// The 4 by 4 matrix with `one` on the diagonal and `zero` elsewhere.
    pub fn identity4x4(zero: T, one: T) -> (r: Matrix<T>)
        ensures
            r.wf(),
            r.dim() == 4,
            forall|i: int, j: int|
                in_square(4, i, j) ==> r.entry(i, j) == if i == j {
                    one
                } else {
                    zero
                },
    {
        let r = Matrix::new4x4(
            [one, zero, zero, zero],
            [zero, one, zero, zero],
            [zero, zero, one, zero],
            [zero, zero, zero, one],
        );
        assert forall|i: int, j: int| in_square(4, i, j) implies r.entry(i, j) == if i == j {
            one
        } else {
            zero
        } by {
            if i == 0 {
            } else if i == 1 {
            } else if i == 2 {
            } else {
            }
        }
        r
    }

    /// The entry at `row`, `col`.
    pub fn at(&self, row: usize, col: usize) -> (r: T)
        requires
            self.wf(),
            in_square(self.dim(), row as int, col as int),
        ensures
            r == self.entry(row as int, col as int),
    {
        proof {
            lemma_row_major_inverse(self.size as int, row as int, col as int);
            assert(row * self.size <= 16) by (nonlinear_arith)
                requires
                    row < self.size <= 4,
            ;
        }
        self.elems[row * self.size + col]
    }
}

/// The matrix with rows and columns exchanged.
pub fn transpose<T: Copy>(a: Matrix<T>) -> (r: Matrix<T>)
    requires
        a.wf(),
    ensures
        r.wf(),
        r.dim() == a.dim(),
        forall|i: int, j: int| in_square(r.dim(), i, j) ==> r.entry(i, j) == a.entry(j, i),
{
    let n = a.size;
    proof {
        assert(n * n <= 16) by (nonlinear_arith)
            requires
                n <= 4,
        ;
    }
    let mut elems: Vec<T> = Vec::new();
    let mut k: usize = 0;
    while k < n * n
        invariant
            a.wf(),
            n == a.size,
            n * n <= 16,
            k <= n * n,
            elems@.len() == k,
            forall|p: int| 0 <= p < k ==> #[trigger] elems@[p] == a.entry(p % n as int, p / n as int),
        decreases n * n - k,
    {
        proof {
            lemma_row_major(n as int, k as int);
        }
        let v = a.at(k % n, k / n);
        elems.push(v);
        k = k + 1;
    }
    let r = Matrix { size: n, elems };
    assert forall|i: int, j: int| in_square(r.dim(), i, j) implies r.entry(i, j) == a.entry(j, i) by {
        lemma_row_major_inverse(n as int, i, j);
    }
    r
}

/// Index into the matrix that lacks row or column `skip`: `i` below
/// `skip` stays, the others move one on.
pub open spec fn skip_index(i: int, skip: int) -> int {
    if i < skip {
        i
    } else {
        i + 1
    }
}

/// The matrix without row `row` and column `col`.
pub fn submatrix<T: Copy>(a: Matrix<T>, row: usize, col: usize) -> (r: Matrix<T>)
    requires
        a.wf(),
        3 <= a.dim(),
        in_square(a.dim(), row as int, col as int),
    ensures
        r.wf(),
        r.dim() == a.dim() - 1,
        forall|i: int, j: int|
            in_square(r.dim(), i, j) ==> r.entry(i, j) == a.entry(
                skip_index(i, row as int),
                skip_index(j, col as int),
            ),
{
    let m = a.size - 1;
    proof {
        assert(m * m <= 16) by (nonlinear_arith)
            requires
                m <= 4,
        ;
    }
    let mut elems: Vec<T> = Vec::new();
    let mut k: usize = 0;
    while k < m * m
        invariant
            a.wf(),
            m == a.size - 1,
            2 <= m,
            m * m <= 16,
            in_square(a.dim(), row as int, col as int),
            k <= m * m,
            elems@.len() == k,
            forall|p: int|
                0 <= p < k ==> #[trigger] elems@[p] == a.entry(
                    skip_index(p / m as int, row as int),
                    skip_index(p % m as int, col as int),
                ),
        decreases m * m - k,
    {
        proof {
            lemma_row_major(m as int, k as int);
        }
        let i = k / m;
        let j = k % m;
        let si = if i < row {
            i
        } else {
            i + 1
        };
        let sj = if j < col {
            j
        } else {
            j + 1
        };
        let v = a.at(si, sj);
        elems.push(v);
        k = k + 1;
    }
    let r = Matrix { size: m, elems };
    assert forall|i: int, j: int| in_square(r.dim(), i, j) implies r.entry(i, j) == a.entry(
        skip_index(i, row as int),
        skip_index(j, col as int),
    ) by {
        lemma_row_major_inverse(m as int, i, j);
    }
    r
}

} // verus!
