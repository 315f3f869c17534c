use vstd::prelude::*;

use crate::vector::{dot, dot_fits, Vector};

verus! {

/// A dense matrix of integers stored row-major: entry `(i, j)` sits at
/// `data[i * col + j]`.
pub struct Matrix {
    pub data: Vec<i64>,
    pub row: usize,
    pub col: usize,
}

/// Row `i` of a row-major buffer with `cols` columns.
pub open spec fn row_of(data: Seq<i64>, cols: nat, i: int) -> Seq<i64> {
    data.subrange(i * cols, (i + 1) * cols)
}

/// Column `j` of a row-major buffer with `rows` rows and `cols` columns.
pub open spec fn col_of(data: Seq<i64>, rows: nat, cols: nat, j: int) -> Seq<i64> {
    Seq::new(rows, |k: int| data[k * cols + j])
}

impl Matrix {
    /// The buffer holds exactly `row * col` entries.
    pub open spec fn wf(&self) -> bool {
        &&& self.data@.len() == self.row * self.col
        &&& self.row * self.col <= usize::MAX
    }

    /// Entry `(i, j)`.
    pub open spec fn entry(&self, i: int, j: int) -> i64 {
        self.data@[i * self.col + j]
    }

    /// Row `i` as a sequence.
    pub open spec fn row_seq(&self, i: int) -> Seq<i64> {
        row_of(self.data@, self.col as nat, i)
    }

    /// Column `j` as a sequence.
    pub open spec fn col_seq(&self, j: int) -> Seq<i64> {
        col_of(self.data@, self.row as nat, self.col as nat, j)
    }

    /// Stores `data` as a `row` by `col` matrix.
    pub fn new(data: Vec<i64>, row: usize, col: usize) -> (r: Self)
        requires
            data@.len() == row * col,
        ensures
            r.wf(),
            r.data@ == data@,
            r.row == row,
            r.col == col,
    {
        // the length is a `usize`, which bounds `row * col`
        let len: usize = data.len();
        assert(len == row * col);
        Matrix { data, row, col }
    }

    /// A copy of row `i`.
    pub fn row_vector(&self, i: usize) -> (r: Vector)
        requires
            self.wf(),
            i < self.row,
        ensures
            r@ == self.row_seq(i as int),
    {
        proof {
            lemma_row_end(i as int, self.row as int, self.col as int);
        }
        let start = i * self.col;
        let mut out: Vec<i64> = Vec::new();
        let mut k: usize = 0;
        while k < self.col
            invariant
                self.wf(),
                i < self.row,
                start == i * self.col,
                start + self.col <= self.row * self.col,
                k <= self.col,
                out@ == self.data@.subrange(start as int, start + k),
            decreases self.col - k,
        {
            out.push(self.data[start + k]);
            k = k + 1;
            assert(out@ =~= self.data@.subrange(start as int, start + k));
        }
        proof {
            assert((i + 1) * self.col == start + self.col) by (nonlinear_arith)
                requires
                    start == i * self.col,
            ;
        }
        Vector::new(out)
    }

    /// A copy of column `j`.
    pub fn col_vector(&self, j: usize) -> (r: Vector)
        requires
            self.wf(),
            j < self.col,
        ensures
            r@ == self.col_seq(j as int),
    {
        let mut out: Vec<i64> = Vec::new();
        let mut k: usize = 0;
        while k < self.row
            invariant
                self.wf(),
                j < self.col,
                k <= self.row,
                out@ =~= Seq::new(k as nat, |t: int| self.data@[t * self.col + j]),
            decreases self.row - k,
        {
            proof {
                lemma_cell_in_bounds(k as int, j as int, self.row as int, self.col as int);
            }
            out.push(self.data[k * self.col + j]);
            k = k + 1;
            assert(out@ =~= Seq::new(k as nat, |t: int| self.data@[t * self.col + j]));
        }
        Vector::new(out)
    }
}

/// Entry `(i, j)` of the mathematical product of `a` and `b`.
pub open spec fn product_entry(a: &Matrix, b: &Matrix, i: int, j: int) -> int {
    dot(a.row_seq(i), b.col_seq(j))
}

/// `m` is the mathematical product of `a` and `b`: it has `a.row` rows and
/// `b.col` columns, and each entry is a row of `a` dotted with a column of `b`.
pub open spec fn is_product(a: &Matrix, b: &Matrix, m: &Matrix) -> bool {
    &&& m.wf()
    &&& m.row == a.row
    &&& m.col == b.col
    &&& forall|i: int, j: int|
        0 <= i < a.row && 0 <= j < b.col ==> #[trigger] m.entry(i, j) == product_entry(a, b, i, j)
}

/// Every dot product that the multiplication of `a` by `b` computes stays
/// within the range of `i64`.
pub open spec fn product_fits(a: &Matrix, b: &Matrix) -> bool {
    forall|i: int, j: int|
        0 <= i < a.row && 0 <= j < b.col ==> #[trigger] dot_fits(a.row_seq(i), b.col_seq(j))
}

pub proof fn lemma_cell_in_bounds(i: int, j: int, r: int, c: int)
    requires
        0 <= i < r,
        0 <= j < c,
    ensures
        0 <= i * c + j < r * c,
{
    assert(0 <= i * c + j < r * c) by (nonlinear_arith)
        requires
            0 <= i < r,
            0 <= j < c,
    ;
}

/// A row of a well-formed matrix has `col` entries and a column has `row`.
pub proof fn lemma_row_col_len(m: &Matrix, i: int, j: int)
    requires
        m.wf(),
    ensures
        0 <= i < m.row ==> m.row_seq(i).len() == m.col,
        m.col_seq(j).len() == m.row,
{
    if 0 <= i < m.row {
        lemma_row_end(i, m.row as int, m.col as int);
    }
}

/// A linear index below `r * c` splits into a row below `r` and a column
/// below `c`.
pub proof fn lemma_split_index(k: int, r: int, c: int)
    requires
        0 <= k < r * c,
        0 <= r,
        0 <= c,
    ensures
        c > 0,
        0 <= k / c < r,
        0 <= k % c < c,
        k == (k / c) * c + k % c,
{
    if c <= 0 {
        assert(r * c <= 0) by (nonlinear_arith)
            requires
                0 <= r,
                c <= 0,
        ;
    }
    vstd::arithmetic::div_mod::lemma_fundamental_div_mod(k, c);
    vstd::arithmetic::div_mod::lemma_mod_pos_bound(k, c);
    let q = k / c;
    let m = k % c;
    assert(0 <= q < r) by (nonlinear_arith)
        requires
            k == c * q + m,
            0 <= m < c,
            0 <= k < r * c,
    ;
    assert(k == q * c + m) by (nonlinear_arith)
        requires
            k == c * q + m,
    ;
}

/// Row `i` and column `j` give back the linear index `i * c + j`.
pub proof fn lemma_join_index(i: int, j: int, c: int)
    requires
        0 <= i,
        0 <= j < c,
    ensures
        (i * c + j) / c == i,
        (i * c + j) % c == j,
{
    vstd::arithmetic::div_mod::lemma_fundamental_div_mod_converse(i * c + j, c, i, j);
}

proof fn lemma_row_end(i: int, r: int, c: int)
    requires
        0 <= i < r,
        0 <= c,
    ensures
        0 <= i * c,
        i * c + c <= r * c,
        (i + 1) * c == i * c + c,
{
    assert(0 <= i * c && i * c + c <= r * c && (i + 1) * c == i * c + c) by (nonlinear_arith)
        requires
            0 <= i < r,
            0 <= c,
    ;
}

} // verus!
