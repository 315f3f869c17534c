use vstd::prelude::*;

use crate::error::MatrixError;
use crate::matrix::{
    is_product, lemma_cell_in_bounds, lemma_join_index, lemma_row_col_len, lemma_split_index,
    product_entry, product_fits, Matrix,
};
use crate::vector::{dot, dot_fits, Vector};

verus! {

/// Number of workers a multiplication is spread over unless told otherwise.
pub const DEFAULT_WORKERS: usize = 4;

/// One unit of work: the output cell at linear index `idx` is the dot product
/// of `row` and `col`.
pub struct MsgInput {
    pub idx: usize,
    pub row: Vector,
    pub col: Vector,
}

/// The answer to a job: the value of the output cell at linear index `idx`.
#[derive(Debug, Clone, Copy, PartialEq, Eq, Structural)]
pub struct MsgOutput {
    pub idx: usize,
    pub value: i64,
}

impl MsgInput {
    pub fn new(idx: usize, row: Vector, col: Vector) -> (r: Self)
        ensures
            r.idx == idx,
            r.row@ == row@,
            r.col@ == col@,
    {
        MsgInput { idx, row, col }
    }

    /// What a worker does with a job: the dot product of its row and column,
    /// tagged with the job's index.
    pub fn run(&self) -> (r: MsgOutput)
        requires
            self.row@.len() == self.col@.len(),
            dot_fits(self.row@, self.col@),
        ensures
            r.idx == self.idx,
            r.value == dot(self.row@, self.col@),
    {
        match self.row.dot_product(&self.col) {
            Ok(value) => MsgOutput::new(self.idx, value),
            // unreachable: the lengths are equal
            Err(_) => MsgOutput::new(self.idx, 0),
        }
    }
}

impl MsgOutput {
    pub fn new(idx: usize, value: i64) -> (r: Self)
        ensures
            r.idx == idx,
            r.value == value,
    {
        MsgOutput { idx, value }
    }
}

/// The worker that receives the job for output row `i` when there are
/// `workers` of them: round-robin by row.
pub open spec fn worker_for(i: int, workers: int) -> int {
    i % workers
}

/// `jobs` holds, in row-major order, one job per cell of the product of `a`
/// and `b`, each paired with the worker it is routed to.
pub open spec fn is_plan(a: &Matrix, b: &Matrix, workers: int, jobs: Seq<(usize, MsgInput)>) -> bool {
    &&& jobs.len() == a.row * b.col
    &&& forall|k: int|
        #![trigger jobs[k]]
        0 <= k < jobs.len() ==> {
            &&& jobs[k].0 == worker_for(k / b.col as int, workers)
            &&& jobs[k].1.idx == k
            &&& jobs[k].1.row@ == a.row_seq(k / b.col as int)
            &&& jobs[k].1.col@ == b.col_seq(k % b.col as int)
        }
}

/// Splits the product of `a` and `b` into one job per output cell, in
/// row-major order, routing the jobs of output row `i` to worker
/// `i % workers`. Fails when the inner dimensions differ.
pub fn plan_jobs(a: &Matrix, b: &Matrix, workers: usize) -> (r: Result<Vec<(usize, MsgInput)>, MatrixError>)
    requires
        a.wf(),
        b.wf(),
        a.row * b.col <= usize::MAX,
        workers > 0,
    ensures
        r is Err <==> a.col != b.row,
        r matches Err(e) ==> e == MatrixError::DimensionMismatch,
        r matches Ok(jobs) ==> is_plan(a, b, workers as int, jobs@),
{
    if a.col != b.row {
        return Err(MatrixError::DimensionMismatch);
    }
    let n: usize = a.row * b.col;
    let mut jobs: Vec<(usize, MsgInput)> = Vec::new();
    let mut k: usize = 0;
    while k < n
        invariant
            a.wf(),
            b.wf(),
            workers > 0,
            n == a.row * b.col,
            k <= n,
            jobs@.len() == k,
            forall|t: int|
                0 <= t < k ==> {
                    &&& #[trigger] jobs@[t].0 == worker_for(t / b.col as int, workers as int)
                    &&& jobs@[t].1.idx == t
                    &&& jobs@[t].1.row@ == a.row_seq(t / b.col as int)
                    &&& jobs@[t].1.col@ == b.col_seq(t % b.col as int)
                },
        decreases n - k,
    {
        proof {
            lemma_split_index(k as int, a.row as int, b.col as int);
        }
        let i = k / b.col;
        let j = k % b.col;
        let row = a.row_vector(i);
        let col = b.col_vector(j);
        let input = MsgInput::new(k, row, col);
        jobs.push((i % workers, input));
        k = k + 1;
    }
    assert(is_plan(a, b, workers as int, jobs@));
    Ok(jobs)
}

/// The buffer obtained from `base` by writing, in order, each of the first
/// `n` replies' value at its index.
pub open spec fn filled(outs: Seq<Option<MsgOutput>>, n: nat, base: Seq<i64>) -> Seq<i64>
    decreases n,
{
    if n == 0 {
        base
    } else {
        let prev = filled(outs, (n - 1) as nat, base);
        match outs[n - 1] {
            Some(o) => prev.update(o.idx as int, o.value),
            None => prev,
        }
    }
}

/// The first `n` replies all arrived, each with an index inside a buffer of
/// length `len`, and no two of them name the same cell.
pub open spec fn distinct_replies(outs: Seq<Option<MsgOutput>>, n: nat, len: nat) -> bool {
    &&& n <= outs.len()
    &&& forall|k: int| 0 <= k < n ==> (#[trigger] outs[k] is Some && outs[k]->0.idx < len)
    &&& forall|k1: int, k2: int|
        0 <= k1 < n && 0 <= k2 < n && k1 != k2 ==> #[trigger] outs[k1]->0.idx != #[trigger] outs[k2]->0.idx
}

/// Writing distinct replies leaves each reply's value at its index and every
/// other cell as it was.
pub proof fn lemma_filled(outs: Seq<Option<MsgOutput>>, n: nat, base: Seq<i64>)
    requires
        distinct_replies(outs, n, base.len()),
    ensures
        filled(outs, n, base).len() == base.len(),
        forall|k: int| 0 <= k < n ==> #[trigger] filled(outs, n, base)[outs[k]->0.idx as int] == outs[k]->0.value,
        forall|p: int|
            0 <= p < base.len() && (forall|k: int| 0 <= k < n ==> #[trigger] outs[k]->0.idx != p)
                ==> #[trigger] filled(outs, n, base)[p] == base[p],
    decreases n,
{
    if n > 0 {
        let m = (n - 1) as nat;
        assert(distinct_replies(outs, m, base.len()));
        lemma_filled(outs, m, base);
        assert(outs[m as int] is Some);
        let last = outs[m as int]->0;
        assert forall|k: int| 0 <= k < n implies #[trigger] filled(outs, n, base)[outs[k]->0.idx as int]
            == outs[k]->0.value by {
            if k < m {
                assert(outs[k]->0.idx != last.idx);
            }
        }
        assert forall|p: int|
            0 <= p < base.len() && (forall|k: int| 0 <= k < n ==> #[trigger] outs[k]->0.idx != p)
            implies #[trigger] filled(outs, n, base)[p] == base[p] by {
            assert(outs[m as int]->0.idx != p);
            assert forall|k: int| 0 <= k < m implies #[trigger] outs[k]->0.idx != p by {
                assert(0 <= k < n);
            }
        }
    }
}

/// A buffer of `n` zeros.
pub open spec fn zeros(n: nat) -> Seq<i64> {
    Seq::new(n, |k: int| 0i64)
}

/// Collects the replies, taken in the order the jobs were dispatched, into a
/// `row` by `col` matrix: each reply's value goes to the cell its index names.
/// Fails as soon as a reply is missing.
pub fn assemble(outputs: &Vec<Option<MsgOutput>>, row: usize, col: usize) -> (r: Result<Matrix, MatrixError>)
    requires
        outputs@.len() == row * col,
        row * col <= usize::MAX,
        forall|k: int| 0 <= k < outputs@.len() && #[trigger] outputs@[k] is Some ==> outputs@[k]->0.idx < row * col,
    ensures
        r is Err <==> exists|k: int| 0 <= k < outputs@.len() && #[trigger] outputs@[k] is None,
        r matches Err(e) ==> e == MatrixError::WorkerFailure,
        r matches Ok(m) ==> {
            &&& m.wf()
            &&& m.row == row
            &&& m.col == col
            &&& m.data@ == filled(outputs@, outputs@.len(), zeros(outputs@.len()))
        },
{
    let n = outputs.len();
    let mut data: Vec<i64> = Vec::new();
    let mut k: usize = 0;
    while k < n
        invariant
            k <= n,
            data@ == zeros(k as nat),
        decreases n - k,
    {
        data.push(0);
        k = k + 1;
        assert(data@ =~= zeros(k as nat));
    }
    let mut k: usize = 0;
    while k < n
        invariant
            n == outputs@.len(),
            n == row * col,
            k <= n,
            forall|t: int| 0 <= t < outputs@.len() && #[trigger] outputs@[t] is Some ==> outputs@[t]->0.idx < row * col,
            forall|t: int| 0 <= t < k ==> #[trigger] outputs@[t] is Some,
            data@ == filled(outputs@, k as nat, zeros(n as nat)),
            data@.len() == n,
        decreases n - k,
    {
        match outputs[k] {
            Some(o) => {
                data.set(o.idx, o.value);
            },
            None => {
                return Err(MatrixError::WorkerFailure);
            },
        }
        k = k + 1;
    }
    assert(forall|t: int| 0 <= t < outputs@.len() ==> #[trigger] outputs@[t] is Some);
    Ok(Matrix::new(data, row, col))
}

/// Whether every dot product of the multiplication of `a` by `b` can be
/// computed in `i64` without overflow.
pub fn product_in_range(a: &Matrix, b: &Matrix) -> (r: bool)
    requires
        a.wf(),
        b.wf(),
        a.col == b.row,
        a.row * b.col <= usize::MAX,
    ensures
        r == product_fits(a, b),
{
    let n: usize = a.row * b.col;
    let mut k: usize = 0;
    while k < n
        invariant
            a.wf(),
            b.wf(),
            a.col == b.row,
            n == a.row * b.col,
            k <= n,
            forall|t: int| 0 <= t < k ==> #[trigger] cell_fits(a, b, t),
        decreases n - k,
    {
        proof {
            lemma_split_index(k as int, a.row as int, b.col as int);
            lemma_row_col_len(a, k as int / b.col as int, 0);
            lemma_row_col_len(b, 0, k as int % b.col as int);
        }
        let row = a.row_vector(k / b.col);
        let col = b.col_vector(k % b.col);
        if !row.dot_in_range(&col) {
            assert(!cell_fits(a, b, k as int));
            return false;
        }
        assert(cell_fits(a, b, k as int));
        k = k + 1;
    }
    assert forall|i: int, j: int| 0 <= i < a.row && 0 <= j < b.col implies #[trigger] dot_fits(
        a.row_seq(i),
        b.col_seq(j),
    ) by {
        lemma_cell_in_bounds(i, j, a.row as int, b.col as int);
        lemma_join_index(i, j, b.col as int);
        assert(cell_fits(a, b, i * b.col + j));
    }
    true
}

/// The dot product for the cell at linear index `t` stays within `i64`.
pub open spec fn cell_fits(a: &Matrix, b: &Matrix, t: int) -> bool {
    dot_fits(a.row_seq(t / b.col as int), b.col_seq(t % b.col as int))
}

/// The product of `a` and `b`: each output cell becomes a job, every job is
/// worked through in the calling thread, and the replies are assembled by
/// their indices. Fails when the inner dimensions differ. A pool of threads
/// runs the same steps with `plan_jobs`, `MsgInput::run` and `assemble`.
pub fn multiply(a: &Matrix, b: &Matrix) -> (r: Result<Matrix, MatrixError>)
    requires
        a.wf(),
        b.wf(),
        a.row * b.col <= usize::MAX,
        a.col == b.row ==> product_fits(a, b),
    ensures
        r is Err <==> a.col != b.row,
        r matches Err(e) ==> e == MatrixError::DimensionMismatch,
        r matches Ok(m) ==> is_product(a, b, &m),
{
    let jobs = match plan_jobs(a, b, DEFAULT_WORKERS) {
        Ok(jobs) => jobs,
        Err(e) => {
            return Err(e);
        },
    };
    let n = jobs.len();
    let mut outputs: Vec<Option<MsgOutput>> = Vec::new();
    let mut k: usize = 0;
    while k < n
        invariant
            a.wf(),
            b.wf(),
            a.col == b.row,
            product_fits(a, b),
            is_plan(a, b, DEFAULT_WORKERS as int, jobs@),
            n == jobs@.len(),
            k <= n,
            outputs@.len() == k,
            forall|t: int|
                0 <= t < k ==> #[trigger] reply_for(a, b, t, outputs@[t]),
        decreases n - k,
    {
        proof {
            lemma_split_index(k as int, a.row as int, b.col as int);
            let i = k as int / b.col as int;
            let j = k as int % b.col as int;
            lemma_row_col_len(a, i, 0);
            lemma_row_col_len(b, 0, j);
            assert(dot_fits(a.row_seq(i), b.col_seq(j)));
        }
        let out = jobs[k].1.run();
        outputs.push(Some(out));
        k = k + 1;
        assert(reply_for(a, b, k - 1, outputs@[k - 1]));
    }
    assert forall|t: int| 0 <= t < outputs@.len() && #[trigger] outputs@[t] is Some implies outputs@[t]->0.idx
        < a.row * b.col by {
        assert(reply_for(a, b, t, outputs@[t]));
    }
    assert forall|t: int| 0 <= t < outputs@.len() implies #[trigger] outputs@[t] is Some by {
        assert(reply_for(a, b, t, outputs@[t]));
    }
    let res = assemble(&outputs, a.row, b.col);
    match res {
        Ok(m) => {
            proof {
                lemma_product_from_replies(a, b, outputs@, &m);
            }
            Ok(m)
        },
        Err(e) => Err(e),
    }
}

/// `out` is the reply for the cell at linear index `t` of the product of `a`
/// and `b`.
pub open spec fn reply_for(a: &Matrix, b: &Matrix, t: int, out: Option<MsgOutput>) -> bool {
    &&& out is Some
    &&& out->0.idx == t
    &&& out->0.value == product_entry(a, b, t / b.col as int, t % b.col as int)
}

proof fn lemma_product_from_replies(a: &Matrix, b: &Matrix, outs: Seq<Option<MsgOutput>>, m: &Matrix)
    requires
        a.wf(),
        b.wf(),
        outs.len() == a.row * b.col,
        forall|t: int| 0 <= t < outs.len() ==> #[trigger] reply_for(a, b, t, outs[t]),
        m.wf(),
        m.row == a.row,
        m.col == b.col,
        m.data@ == filled(outs, outs.len(), zeros(outs.len())),
    ensures
        is_product(a, b, m),
{
    let n = outs.len();
    assert forall|k: int| 0 <= k < n implies (#[trigger] outs[k] is Some && outs[k]->0.idx < n) by {
        assert(reply_for(a, b, k, outs[k]));
    }
    assert forall|k1: int, k2: int| 0 <= k1 < n && 0 <= k2 < n && k1 != k2 implies #[trigger] outs[k1]->0.idx
        != #[trigger] outs[k2]->0.idx by {
        assert(reply_for(a, b, k1, outs[k1]));
        assert(reply_for(a, b, k2, outs[k2]));
    }
    assert(distinct_replies(outs, n, n));
    lemma_filled(outs, n, zeros(n));
    assert forall|i: int, j: int| 0 <= i < a.row && 0 <= j < b.col implies #[trigger] m.entry(i, j)
        == product_entry(a, b, i, j) by {
        lemma_cell_in_bounds(i, j, a.row as int, b.col as int);
        lemma_join_index(i, j, b.col as int);
        let t = i * b.col + j;
        assert(reply_for(a, b, t, outs[t]));
    }
}

/// The same replies, listed in two orders: each reply of one list appears
/// in the other.
pub open spec fn same_replies(outs1: Seq<Option<MsgOutput>>, outs2: Seq<Option<MsgOutput>>) -> bool {
    &&& outs1.len() == outs2.len()
    &&& forall|k1: int| 0 <= k1 < outs1.len() ==> #[trigger] outs2.contains(outs1[k1])
    &&& forall|k2: int| 0 <= k2 < outs2.len() ==> #[trigger] outs1.contains(outs2[k2])
}

proof fn lemma_cell_agrees(
    outs1: Seq<Option<MsgOutput>>,
    outs2: Seq<Option<MsgOutput>>,
    base: Seq<i64>,
    p: int,
)
    requires
        same_replies(outs1, outs2),
        distinct_replies(outs1, outs1.len(), base.len()),
        distinct_replies(outs2, outs2.len(), base.len()),
        0 <= p < base.len(),
    ensures
        filled(outs1, outs1.len(), base)[p] == filled(outs2, outs2.len(), base)[p],
{
    let n = outs1.len();
    lemma_filled(outs1, n, base);
    lemma_filled(outs2, n, base);
    if exists|k1: int| 0 <= k1 < n && #[trigger] outs1[k1]->0.idx == p {
        let k1 = choose|k1: int| 0 <= k1 < n && #[trigger] outs1[k1]->0.idx == p;
        assert(outs2.contains(outs1[k1]));
        let k2 = choose|k2: int| 0 <= k2 < n && outs2[k2] == outs1[k1];
        assert(filled(outs1, n, base)[outs1[k1]->0.idx as int] == outs1[k1]->0.value);
        assert(filled(outs2, n, base)[outs2[k2]->0.idx as int] == outs2[k2]->0.value);
    } else {
        assert forall|k2: int| 0 <= k2 < n implies #[trigger] outs2[k2]->0.idx != p by {
            assert(outs1.contains(outs2[k2]));
            let k1 = choose|k1: int| 0 <= k1 < n && outs1[k1] == outs2[k2];
            assert(outs1[k1]->0.idx != p);
        }
    }
}

/// Completion order does not matter: two lists holding the same replies, each
/// cell's reply at most once, assemble to the same buffer whatever order the
/// replies are listed in.
pub proof fn lemma_assembly_order_independent(
    outs1: Seq<Option<MsgOutput>>,
    outs2: Seq<Option<MsgOutput>>,
    base: Seq<i64>,
)
    requires
        same_replies(outs1, outs2),
        distinct_replies(outs1, outs1.len(), base.len()),
        distinct_replies(outs2, outs2.len(), base.len()),
    ensures
        filled(outs1, outs1.len(), base) == filled(outs2, outs2.len(), base),
{
    let n = outs1.len();
    lemma_filled(outs1, n, base);
    lemma_filled(outs2, n, base);
    let f1 = filled(outs1, n, base);
    let f2 = filled(outs2, n, base);
    assert forall|p: int| 0 <= p < base.len() implies f1[p] == f2[p] by {
        lemma_cell_agrees(outs1, outs2, base, p);
    }
    assert(f1 =~= f2);
}

/// Repeated multiplications agree: any two results that meet the contract of
/// `multiply` for the same operands are the same matrix.
pub proof fn lemma_product_unique(a: &Matrix, b: &Matrix, m1: &Matrix, m2: &Matrix)
    requires
        is_product(a, b, m1),
        is_product(a, b, m2),
    ensures
        m1.row == m2.row,
        m1.col == m2.col,
        m1.data@ == m2.data@,
{
    assert forall|p: int| 0 <= p < m1.data@.len() implies m1.data@[p] == m2.data@[p] by {
        lemma_split_index(p, a.row as int, b.col as int);
        let i = p / b.col as int;
        let j = p % b.col as int;
        assert(m1.entry(i, j) == product_entry(a, b, i, j));
        assert(m2.entry(i, j) == product_entry(a, b, i, j));
    }
    assert(m1.data@ =~= m2.data@);
}

} // verus!
