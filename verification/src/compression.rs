//! Making models smaller: shared weights, sparse matrices, dropped layers, aligned
//! representations, factored embeddings, pruning by sensitivity, by schedule and by channel,
//! and a search for a recipe.
use vstd::prelude::*;
use crate::blas;
use crate::blas::Mat;
use crate::exact;
use crate::fixed::Fixed;
use crate::loss::Loss;
use crate::nn;
use crate::nn::{Draws, Layer, Linear, Module, Sequential};
use crate::number;
use crate::number::{bound, filled, Number, Real};
use crate::optim;
use crate::optim::fraction;
use crate::tensor;
use crate::tensor::{copy_slice, Op, Tensor, Value};
use crate::ways;

verus! {

// ---- Ascending order

/// Where a number goes in an ascending order: before the first that is above it.
pub open spec fn climb_slot<S: Real>(order: Seq<usize>, vals: Seq<S>, v: S, p: int) -> int
    decreases order.len() - p,
{
    if p >= order.len() || v.spec_below(vals[order[p] as int]) {
        p
    } else {
        climb_slot(order, vals, v, p + 1)
    }
}

/// The places of the first numbers, from the least on; of equal ones the first goes first.
pub open spec fn climbing<S: Real>(vals: Seq<S>, n: int) -> Seq<usize>
    decreases n,
{
    if n <= 0 {
        Seq::empty()
    } else {
        let before = climbing(vals, n - 1);
        before.insert(climb_slot(before, vals, vals[n - 1], 0), (n - 1) as usize)
    }
}

proof fn lemma_climb_slot<S: Real>(order: Seq<usize>, vals: Seq<S>, v: S, p: int)
    requires
        0 <= p <= order.len(),
    ensures
        p <= climb_slot(order, vals, v, p) <= order.len(),
        forall|i: int|
            p <= i < climb_slot(order, vals, v, p) ==> !v.spec_below(
                vals[#[trigger] order[i] as int],
            ),
        climb_slot(order, vals, v, p) < order.len() ==> v.spec_below(
            vals[order[climb_slot(order, vals, v, p)] as int],
        ),
    decreases order.len() - p,
{
    if p < order.len() && !v.spec_below(vals[order[p] as int]) {
        lemma_climb_slot(order, vals, v, p + 1);
    }
}

/// The ascending order holds each place once.
pub proof fn lemma_climbing_is_permutation<S: Real>(vals: Seq<S>, n: int)
    requires
        0 <= n <= usize::MAX + 1,
    ensures
        climbing(vals, n).len() == n,
        climbing(vals, n).no_duplicates(),
        forall|i: int| 0 <= i < n ==> 0 <= #[trigger] climbing(vals, n)[i] < n,
        forall|v: usize| 0 <= v < n ==> #[trigger] climbing(vals, n).contains(v),
    decreases n,
{
    if n > 0 {
        lemma_climbing_is_permutation(vals, n - 1);
        let before = climbing(vals, n - 1);
        let at = climb_slot(before, vals, vals[n - 1], 0);
        let new = (n - 1) as usize;
        lemma_climb_slot(before, vals, vals[n - 1], 0);
        let after = climbing(vals, n);
        assert(after == before.insert(at, new));
        assert forall|i: int, j: int| 0 <= i < j < n implies after[i] != after[j] by {
            let a = if i < at {
                i
            } else {
                i - 1
            };
            let b = if j < at {
                j
            } else {
                j - 1
            };
            if i != at && j != at {
                assert(before[a] != before[b]);
            }
        }
        assert forall|v: usize| 0 <= v < n implies #[trigger] after.contains(v) by {
            if v == new {
                assert(after[at] == new);
            } else {
                assert(before.contains(v));
                let k = choose|k: int| 0 <= k < before.len() && before[k] == v;
                if k < at {
                    assert(after[k] == v);
                } else {
                    assert(after[k + 1] == v);
                }
            }
        }
    }
}

/// With numbers of fixed point, the order ascends, and of equal numbers the first goes first.
pub proof fn lemma_climbing_ascends(vals: Seq<Fixed>, n: int, i: int, j: int)
    requires
        0 <= n <= vals.len(),
        n <= usize::MAX,
        0 <= i < j < n,
    ensures
        ({
            let r = climbing(vals, n);
            let (a, b) = (vals[r[i] as int], vals[r[j] as int]);
            a.spec_at_most(b) && (a == b ==> r[i] < r[j])
        }),
    decreases n,
{
    let before = climbing(vals, n - 1);
    let v = vals[n - 1];
    let at = climb_slot(before, vals, v, 0);
    lemma_climbing_is_permutation(vals, n - 1);
    lemma_climb_slot(before, vals, v, 0);
    let a = if i < at {
        i
    } else {
        i - 1
    };
    let b = if j < at {
        j
    } else {
        j - 1
    };
    if i != at && j != at {
        lemma_climbing_ascends(vals, n - 1, a, b);
    } else if i == at && at < b {
        lemma_climbing_ascends(vals, n - 1, at, b);
    }
}

fn climb<S: Real>(vals: &[S]) -> (r: Vec<usize>)
    ensures
        r@ == climbing(vals@, vals@.len() as int),
        r@.len() == vals@.len(),
        forall|k: int| 0 <= k < r@.len() ==> 0 <= #[trigger] r@[k] < vals@.len(),
{
    let n: usize = vals.len();
    let mut order: Vec<usize> = Vec::new();
    for i in 0..n
        invariant
            n == vals@.len(),
            order@ == climbing(vals@, i as int),
            order@.len() == i,
            forall|k: int| 0 <= k < i ==> 0 <= #[trigger] order@[k] < i,
    {
        let v = vals[i];
        let mut p: usize = 0;
        while p < i && !v.below(vals[order[p]])
            invariant
                n == vals@.len(),
                i < n,
                p <= i,
                order@.len() == i,
                forall|k: int| 0 <= k < i ==> 0 <= #[trigger] order@[k] < i,
                climb_slot(order@, vals@, v, 0) == climb_slot(order@, vals@, v, p as int),
            decreases i - p,
        {
            p += 1;
        }
        proof {
            lemma_climbing_is_permutation(vals@, i + 1);
        }
        order.insert(p, i);
    }
    order
}

/// The distance of each number from zero.
pub open spec fn magnitudes<S: Real>(v: Seq<S>) -> Seq<S> {
    Seq::new(v.len(), |i: int| v[i].spec_abs())
}

/// The distance from zero that stands at a place of the ascending order.
pub open spec fn magnitude_at<S: Real>(v: Seq<S>, k: int) -> S {
    magnitudes(v)[climbing(magnitudes(v), v.len() as int)[k] as int]
}

fn places_by_size<S: Real>(v: &[S]) -> (r: Vec<usize>)
    ensures
        r@ == climbing(magnitudes(v@), v@.len() as int),
        r@.len() == v@.len(),
        forall|k: int| 0 <= k < r@.len() ==> 0 <= #[trigger] r@[k] < v@.len(),
{
    let n: usize = v.len();
    let mut m: Vec<S> = Vec::new();
    for i in 0..n
        invariant
            n == v@.len(),
            m@ =~= magnitudes(v@).take(i as int),
    {
        m.push(v[i].abs());
    }
    assert(m@ =~= magnitudes(v@));
    climb(&m)
}

fn magnitude<S: Real>(v: &[S], k: usize) -> (r: S)
    requires
        k < v@.len(),
    ensures
        r == magnitude_at(v@, k as int),
{
    let order = places_by_size(v);
    v[order[k]].abs()
}

// ---- Sparse matrices

/// A matrix of which the entries that count are kept, row after row.
#[derive(Debug, Clone)]
pub struct SparseMatrix<S> {
    pub values: Vec<S>,
    /// The column of each entry.
    pub col_indices: Vec<usize>,
    /// Where the entries of each row start, and where the last row's end.
    pub row_ptrs: Vec<usize>,
    pub rows: usize,
    pub cols: usize,
    /// How many entries are kept.
    pub nnz: usize,
}

/// The cells, of the first `n`, that are farther from zero than a threshold.
pub open spec fn kept_cells<S: Real>(data: Seq<S>, threshold: S, n: int) -> Seq<int>
    decreases n,
{
    if n <= 0 {
        Seq::empty()
    } else if threshold.spec_below(data[n - 1].spec_abs()) {
        kept_cells(data, threshold, n - 1).push(n - 1)
    } else {
        kept_cells(data, threshold, n - 1)
    }
}

pub open spec fn sparse_rows<S>(t: Value<S>) -> int {
    if t.shape.len() > 0 {
        t.shape[0] as int
    } else {
        1
    }
}

pub open spec fn sparse_cols<S>(t: Value<S>) -> int {
    if t.shape.len() > 1 {
        t.shape[1] as int
    } else {
        t.data.len() as int
    }
}

/// The matrix holds what is kept of a tensor.
pub open spec fn is_sparse<S: Real>(s: SparseMatrix<S>, t: Value<S>, threshold: S) -> bool {
    let (rows, cols) = (sparse_rows(t), sparse_cols(t));
    let cells = kept_cells(t.data, threshold, rows * cols);
    &&& s.rows == rows
    &&& s.cols == cols
    &&& s.values@ == Seq::new(cells.len(), |k: int| t.data[cells[k]])
    &&& s.col_indices@.len() == cells.len()
    &&& forall|k: int|
        0 <= k < cells.len() ==> #[trigger] s.col_indices@[k] == blas::col_of(cells[k], cols)
    &&& s.row_ptrs@.len() == rows + 1
    &&& forall|r: int|
        0 <= r <= rows ==> #[trigger] s.row_ptrs@[r] == kept_cells(
            t.data,
            threshold,
            r * cols,
        ).len()
    &&& s.nnz == cells.len()
}

proof fn lemma_kept_grows<S: Real>(data: Seq<S>, threshold: S, n: int, m: int)
    requires
        0 <= n <= m,
    ensures
        kept_cells(data, threshold, n).len() <= kept_cells(data, threshold, m).len(),
        kept_cells(data, threshold, m).len() <= m,
        forall|k: int|
            0 <= k < kept_cells(data, threshold, n).len() ==> #[trigger] kept_cells(
                data,
                threshold,
                m,
            )[k] == kept_cells(data, threshold, n)[k],
        forall|k: int|
            kept_cells(data, threshold, n).len() <= k < kept_cells(data, threshold, m).len() ==> n
                <= #[trigger] kept_cells(data, threshold, m)[k] < m,
    decreases m,
{
    if n < m {
        lemma_kept_grows(data, threshold, n, m - 1);
    } else {
        lemma_kept_count(data, threshold, m);
    }
}

proof fn lemma_kept_count<S: Real>(data: Seq<S>, threshold: S, n: int)
    requires
        0 <= n,
    ensures
        kept_cells(data, threshold, n).len() <= n,
        forall|k: int|
            0 <= k < kept_cells(data, threshold, n).len() ==> 0 <= #[trigger] kept_cells(
                data,
                threshold,
                n,
            )[k] < n,
    decreases n,
{
    if n > 0 {
        lemma_kept_count(data, threshold, n - 1);
    }
}

/// The entry that was written last in a column, of those between two places.
pub open spec fn written<S: Real>(
    values: Seq<S>,
    columns: Seq<usize>,
    from: int,
    to: int,
    c: int,
) -> S
    decreases to - from,
{
    if to <= from {
        S::spec_zero()
    } else if columns[to - 1] == c {
        values[to - 1]
    } else {
        written(values, columns, from, to - 1, c)
    }
}

proof fn lemma_written_found<S: Real>(
    values: Seq<S>,
    columns: Seq<usize>,
    from: int,
    to: int,
    c: int,
    k: int,
)
    requires
        from <= k < to,
        columns[k] == c,
        forall|j: int| k < j < to ==> #[trigger] columns[j] != c,
    ensures
        written(values, columns, from, to, c) == values[k],
    decreases to - from,
{
    if k < to - 1 {
        assert(columns[to - 1] != c);
        lemma_written_found(values, columns, from, to - 1, c, k);
    }
}

proof fn lemma_written_absent<S: Real>(
    values: Seq<S>,
    columns: Seq<usize>,
    from: int,
    to: int,
    c: int,
)
    requires
        forall|j: int| from <= j < to ==> #[trigger] columns[j] != c,
    ensures
        written(values, columns, from, to, c) == S::spec_zero(),
    decreases to - from,
{
    if from < to {
        assert(columns[to - 1] != c);
        lemma_written_absent(values, columns, from, to - 1, c);
    }
}

/// The products that make one entry of the product with a dense matrix of `n` columns.
pub open spec fn sparse_entry<S: Real>(
    s: SparseMatrix<S>,
    b: Seq<S>,
    n: int,
    r: int,
    j: int,
) -> spec_fn(int) -> S {
    |k: int|
        s.values@[s.row_ptrs@[r] + k].spec_times(
            b[s.col_indices@[s.row_ptrs@[r] + k] * n + j],
        )
}

/// The product with a dense matrix of `n` columns.
pub open spec fn sparse_product<S: Real>(s: SparseMatrix<S>, b: Seq<S>, n: int) -> Seq<S> {
    Seq::new(
        (s.rows * n) as nat,
        |x: int|
            {
                let r = blas::row_of(x, n);
                number::sum_n(
                    sparse_entry(s, b, n, r, blas::col_of(x, n)),
                    s.row_ptrs@[r + 1] - s.row_ptrs@[r],
                )
            },
    )
}

impl<S: Real> SparseMatrix<S> {
    /// The rows follow one another, and each entry stands in a column.
    pub open spec fn wf(&self) -> bool {
        &&& self.row_ptrs@.len() == self.rows + 1
        &&& self.col_indices@.len() == self.values@.len()
        &&& self.nnz == self.values@.len()
        &&& self.rows * self.cols <= usize::MAX
        &&& forall|r: int, t: int|
            0 <= r <= t <= self.rows ==> #[trigger] self.row_ptrs@[r] <= #[trigger] self.row_ptrs@[t]
        &&& self.row_ptrs@[self.rows as int] <= self.values@.len()
        &&& forall|k: int|
            0 <= k < self.col_indices@.len() ==> #[trigger] self.col_indices@[k] < self.cols
    }

    /// The dense matrix.
    pub open spec fn dense(&self) -> Value<S> {
        Value {
            data: Seq::new(
                (self.rows * self.cols) as nat,
                |x: int|
                    {
                        let r = blas::row_of(x, self.cols as int);
                        written(
                            self.values@,
                            self.col_indices@,
                            self.row_ptrs@[r] as int,
                            self.row_ptrs@[r + 1] as int,
                            blas::col_of(x, self.cols as int),
                        )
                    },
            ),
            shape: seq![self.rows, self.cols],
        }
    }

    /// Keeps the entries that are farther from zero than the threshold.
    #[verifier::loop_isolation(false)]
    pub fn from_dense(tensor: &Tensor<S>, threshold: S) -> (r: Self)
        requires
            tensor.wf(),
            sparse_rows(tensor@) * sparse_cols(tensor@) <= tensor@.data.len(),
        ensures
            r.wf(),
            is_sparse(r, tensor@, threshold),
    {
        let axes: usize = tensor.shape.len();
        let len: usize = tensor.data.len();
        let rows: usize = if axes > 0 {
            tensor.shape[0]
        } else {
            1
        };
        let cols: usize = if axes > 1 {
            tensor.shape[1]
        } else {
            len
        };
        let mut values: Vec<S> = Vec::new();
        let mut col_indices: Vec<usize> = Vec::new();
        let mut row_ptrs: Vec<usize> = vec![0];
        let ghost data = tensor.data@;
        let ghost ci = cols as int;
        proof {
            assert(0 * ci == 0) by (nonlinear_arith);
        }
        for r in 0..rows
            invariant
                ({
                    let cells = kept_cells(data, threshold, r * ci);
                    &&& values@ =~= Seq::new(cells.len(), |k: int| data[cells[k]])
                    &&& col_indices@.len() == cells.len()
                    &&& forall|k: int|
                        0 <= k < cells.len() ==> #[trigger] col_indices@[k] == blas::col_of(
                            cells[k],
                            ci,
                        )
                }),
                forall|k: int| 0 <= k < col_indices@.len() ==> #[trigger] col_indices@[k] < cols,
                row_ptrs@.len() == r + 1,
                forall|t: int|
                    0 <= t <= r ==> #[trigger] row_ptrs@[t] == kept_cells(
                        data,
                        threshold,
                        t * ci,
                    ).len(),
        {
            proof {
                nn::lemma_row_in(r as int, rows as int, ci, rows * ci);
            }
            for c in 0..cols
                invariant
                    ({
                        let cells = kept_cells(data, threshold, r * ci + c);
                        &&& values@ =~= Seq::new(cells.len(), |k: int| data[cells[k]])
                        &&& col_indices@.len() == cells.len()
                        &&& forall|k: int|
                            0 <= k < cells.len() ==> #[trigger] col_indices@[k] == blas::col_of(
                                cells[k],
                                ci,
                            )
                    }),
                    forall|k: int|
                        0 <= k < col_indices@.len() ==> #[trigger] col_indices@[k] < cols,
            {
                proof {
                    blas::lemma_cell(r as int, c as int, ci);
                }
                let v = tensor.data[r * cols + c];
                if threshold.below(v.abs()) {
                    values.push(v);
                    col_indices.push(c);
                }
            }
            row_ptrs.push(values.len());
            assert(r * ci + ci == (r + 1) * ci) by (nonlinear_arith);
        }
        let nnz: usize = values.len();
        let s = SparseMatrix { values, col_indices, row_ptrs, rows, cols, nnz };
        proof {
            assert forall|r: int, t: int| 0 <= r <= t <= rows implies #[trigger] s.row_ptrs@[r]
                <= #[trigger] s.row_ptrs@[t] by {
                assert(0 <= r * ci && r * ci <= t * ci) by (nonlinear_arith)
                    requires
                        0 <= r <= t,
                        0 <= ci,
                ;
                lemma_kept_grows(data, threshold, r * ci, t * ci);
            }
        }
        s
    }

    /// The product with a dense matrix of `n` columns.
    #[verifier::loop_isolation(false)]
    pub fn spmm(&self, b: &[S], n: usize) -> (r: Vec<S>)
        requires
            self.wf(),
            self.cols * n <= b@.len(),
            self.rows * n <= usize::MAX,
        ensures
            r@ == sparse_product(*self, b@, n as int),
    {
        let mut c: Vec<S> = Vec::new();
        let ghost ni = n as int;
        let ghost want = sparse_product(*self, b@, ni);
        let blen: usize = b.len();
        proof {
            assert(0 * ni == 0) by (nonlinear_arith);
        }
        for r in 0..self.rows
            invariant
                c@.len() == r * ni,
                forall|k: int| 0 <= k < r * ni ==> #[trigger] c@[k] == want[k],
        {
            let lo: usize = self.row_ptrs[r];
            let hi: usize = self.row_ptrs[r + 1];
            proof {
                nn::lemma_row_in(r as int, self.rows as int, ni, self.rows * ni);
                assert(self.row_ptrs@[r + 1] <= self.row_ptrs@[self.rows as int]);
                assert(self.row_ptrs@[r as int] <= self.row_ptrs@[r + 1]);
            }
            for j in 0..n
                invariant
                    c@.len() == r * ni + j,
                    forall|k: int| 0 <= k < r * ni + j ==> #[trigger] c@[k] == want[k],
            {
                let mut acc = S::zero();
                let ghost f = sparse_entry(*self, b@, ni, r as int, j as int);
                for k in lo..hi
                    invariant
                        acc == number::sum_n(f, k - lo),
                {
                    let col: usize = self.col_indices[k];
                    proof {
                        nn::lemma_row_in(col as int, self.cols as int, ni, self.cols * ni);
                        assert(f(k - lo) == self.values@[k as int].spec_times(b@[col * ni + j]));
                    }
                    acc = acc.plus(self.values[k].times(b[col * n + j]));
                }
                proof {
                    blas::lemma_cell(r as int, j as int, ni);
                }
                c.push(acc);
            }
            proof {
                assert(r * ni + ni == (r + 1) * ni) by (nonlinear_arith);
            }
        }
        assert(c@ =~= want);
        c
    }

    /// The part of the cells that is not kept.
    pub fn sparsity(&self) -> (r: S)
        requires
            self.wf(),
        ensures
            r == S::spec_one().spec_minus(
                S::spec_count(self.nnz).spec_over(
                    S::spec_count(at_least_one((self.rows * self.cols) as usize)),
                ),
            ),
    {
        let total: usize = self.rows * self.cols;
        S::one().minus(S::count(self.nnz).over(S::count(one_at_least(total))))
    }

    /// Four bytes for each entry, and eight for each of its places and for each row.
    pub fn mem_bytes(&self) -> (r: usize)
        requires
            self.values@.len() * 4 + self.col_indices@.len() * 8 + self.row_ptrs@.len() * 8
                <= usize::MAX,
        ensures
            r == self.values@.len() * 4 + self.col_indices@.len() * 8 + self.row_ptrs@.len() * 8,
    {
        self.values.len() * 4 + self.col_indices.len() * 8 + self.row_ptrs.len() * 8
    }

    /// The bytes of the dense matrix over those that are used.
    pub fn compression_ratio(&self) -> (r: S)
        requires
            self.wf(),
            self.rows * self.cols * 4 <= usize::MAX,
            self.values@.len() * 4 + self.col_indices@.len() * 8 + self.row_ptrs@.len() * 8
                <= usize::MAX,
        ensures
            r == optim::ratio::<S>(
                (self.rows * self.cols * 4) as usize,
                at_least_one(
                    (self.values@.len() * 4 + self.col_indices@.len() * 8 + self.row_ptrs@.len()
                        * 8) as usize,
                ),
            ),
    {
        let dense: usize = self.rows * self.cols * 4;
        fraction(dense, one_at_least(self.mem_bytes()))
    }

    /// The dense matrix, with zeros where nothing was kept.
    #[verifier::loop_isolation(false)]
    pub fn to_dense(&self) -> (r: Tensor<S>)
        requires
            self.wf(),
        ensures
            r.wf(),
            r@ == self.dense(),
    {
        let mut data: Vec<S> = Vec::new();
        let ghost ci = self.cols as int;
        let ghost want = self.dense().data;
        proof {
            assert(0 * ci == 0) by (nonlinear_arith);
        }
        for r in 0..self.rows
            invariant
                data@.len() == r * ci,
                forall|k: int| 0 <= k < r * ci ==> #[trigger] data@[k] == want[k],
        {
            let lo: usize = self.row_ptrs[r];
            let hi: usize = self.row_ptrs[r + 1];
            proof {
                nn::lemma_row_in(r as int, self.rows as int, ci, self.rows * ci);
                assert(self.row_ptrs@[r + 1] <= self.row_ptrs@[self.rows as int]);
                assert(self.row_ptrs@[r as int] <= self.row_ptrs@[r + 1]);
            }
            let mut row: Vec<S> = filled(S::zero(), self.cols);
            for k in lo..hi
                invariant
                    row@.len() == ci,
                    forall|c: int|
                        0 <= c < ci ==> #[trigger] row@[c] == written(
                            self.values@,
                            self.col_indices@,
                            lo as int,
                            k as int,
                            c,
                        ),
            {
                let col: usize = self.col_indices[k];
                row.set(col, self.values[k]);
            }
            proof {
                assert forall|c: int| 0 <= c < ci implies #[trigger] row@[c] == want[r * ci
                    + c] by {
                    blas::lemma_cell(r as int, c, ci);
                }
                assert(r * ci + ci == (r + 1) * ci) by (nonlinear_arith);
            }
            let ghost before = data@;
            let ghost own = row@;
            data.append(&mut row);
            assert forall|k: int| 0 <= k < (r + 1) * ci implies #[trigger] data@[k] == want[k] by {
                if k >= r * ci {
                    assert(data@[k] == own[k - r * ci]);
                }
            }
        }
        let shape: Vec<usize> = vec![self.rows, self.cols];
        proof {
            assert(data@ =~= want);
            assert(shape@ =~= seq![self.rows, self.cols]);
            tensor::lemma_volume_two(self.rows, self.cols);
        }
        Tensor::from_vec(data, shape)
    }
}

pub open spec fn at_least_one(n: usize) -> usize {
    if n == 0 {
        1
    } else {
        n
    }
}

fn one_at_least(n: usize) -> (r: usize)
    ensures
        r == at_least_one(n),
{
    if n == 0 {
        1
    } else {
        n
    }
}

/// Going to a sparse matrix and back keeps every entry farther from zero than the threshold,
/// and makes the others zero.
pub proof fn lemma_sparse_round_trip<S: Real>(
    s: SparseMatrix<S>,
    t: Value<S>,
    threshold: S,
    x: int,
)
    requires
        is_sparse(s, t, threshold),
        sparse_rows(t) * sparse_cols(t) <= t.data.len(),
        0 <= x < sparse_rows(t) * sparse_cols(t),
    ensures
        s.dense().data.len() == sparse_rows(t) * sparse_cols(t),
        s.dense().data[x] == (if threshold.spec_below(t.data[x].spec_abs()) {
            t.data[x]
        } else {
            S::spec_zero()
        }),
{
    let (rows, cols) = (sparse_rows(t), sparse_cols(t));
    assert(cols > 0) by (nonlinear_arith)
        requires
            0 <= x < rows * cols,
            0 <= rows,
            0 <= cols,
    ;
    let r = blas::row_of(x, cols);
    let c = blas::col_of(x, cols);
    vstd::arithmetic::div_mod::lemma_fundamental_div_mod(x, cols);
    assert(x == r * cols + c && 0 <= c < cols) by {
        assert(cols * r == r * cols) by (nonlinear_arith);
    }
    assert(0 <= r < rows) by (nonlinear_arith)
        requires
            x == r * cols + c,
            0 <= c < cols,
            0 <= x < rows * cols,
    ;
    nn::lemma_row_in(r, rows, cols, rows * cols);
    assert(r * cols + cols == (r + 1) * cols) by (nonlinear_arith);
    let all = kept_cells(t.data, threshold, rows * cols);
    let (from, to) = (s.row_ptrs@[r] as int, s.row_ptrs@[r + 1] as int);
    let (a, b) = (r * cols, r * cols + cols);
    assert(from == kept_cells(t.data, threshold, a).len());
    assert(to == kept_cells(t.data, threshold, b).len());
    lemma_kept_grows(t.data, threshold, a, b);
    lemma_kept_grows(t.data, threshold, b, rows * cols);
    lemma_kept_grows(t.data, threshold, x, x + 1);
    lemma_kept_grows(t.data, threshold, x + 1, b);
    lemma_kept_grows(t.data, threshold, a, x);
    assert forall|k: int| from <= k < to implies #[trigger] s.col_indices@[k] == all[k] - a by {
        assert(kept_cells(t.data, threshold, b)[k] == all[k]);
        blas::lemma_cell(r, all[k] - a, cols);
    }
    let before = kept_cells(t.data, threshold, x);
    let upto = kept_cells(t.data, threshold, x + 1);
    let row = kept_cells(t.data, threshold, b);
    if threshold.spec_below(t.data[x].spec_abs()) {
        let k = before.len() as int;
        assert(upto == before.push(x));
        assert(row[k] == upto[k] && all[k] == row[k]);
        assert(s.values@[k] == t.data[x]);
        assert forall|j: int| k < j < to implies #[trigger] s.col_indices@[j] != c by {
            assert(row[j] == all[j]);
            assert(row[j] >= x + 1);
        }
        lemma_written_found(s.values@, s.col_indices@, from, to, c, k);
    } else {
        assert(upto == before);
        assert forall|j: int| from <= j < to implies #[trigger] s.col_indices@[j] != c by {
            assert(row[j] == all[j]);
            if j < before.len() {
                assert(row[j] == upto[j]);
                lemma_kept_count(t.data, threshold, x);
            } else {
                assert(row[j] >= x + 1);
            }
        }
        lemma_written_absent(s.values@, s.col_indices@, from, to, c);
    }
}

// ---- Shared weights

/// One linear layer that is applied again and again.
#[derive(Debug, Clone)]
pub struct SharedWeights<S> {
    pub weight: Tensor<S>,
    pub bias: Tensor<S>,
    /// How often the layer is applied.
    pub num_passes: usize,
    pub in_features: usize,
    pub out_features: usize,
}

/// The tensor after some passes.
pub open spec fn shared_after<S: Real>(w: Value<S>, b: Value<S>, x: Value<S>, k: int) -> Value<S>
    decreases k,
{
    if k <= 0 {
        x
    } else {
        let h = shared_after(w, b, x, k - 1);
        tensor::zipped(Op::Add, tensor::matmul_value(h, tensor::transpose_value(w)), b)
    }
}

impl<S: Real> SharedWeights<S> {
    pub open spec fn wf(&self) -> bool {
        &&& self.weight.wf()
        &&& self.weight@.shape == seq![self.out_features, self.in_features]
        &&& self.bias.wf()
        &&& self.bias@.shape == seq![self.out_features]
    }

    /// A layer with the next weights and nothing to add.
    pub fn new(
        in_features: usize,
        out_features: usize,
        num_passes: usize,
        draws: &mut Draws<S>,
    ) -> (r: Self)
        requires
            old(draws).wf(),
            out_features * in_features <= old(draws).left(),
        ensures
            r.wf(),
            old(draws).taken(final(draws), out_features * in_features),
            r.weight@.data == old(draws).values@.subrange(
                old(draws).next as int,
                old(draws).next + out_features * in_features,
            ),
            r.weight.requires_grad,
            r.bias@.data == Seq::new(out_features as nat, |i: int| S::spec_zero()),
            r.num_passes == num_passes,
            r.in_features == in_features,
            r.out_features == out_features,
    {
        proof {
            tensor::lemma_volume_two(out_features, in_features);
            tensor::lemma_volume_two(out_features, 1);
            assert(0 <= out_features * in_features) by (nonlinear_arith);
        }
        let len: usize = draws.values.len();
        let data = draws.take(out_features * in_features);
        let shape: Vec<usize> = vec![out_features, in_features];
        assert(shape@ =~= seq![out_features, in_features]);
        let weight = Tensor::new(data, shape, true);
        let one: Vec<usize> = vec![out_features];
        assert(one@ =~= seq![out_features]);
        let bias = Tensor::zeros(&one);
        SharedWeights { weight, bias, num_passes, in_features, out_features }
    }

    /// Rows of the right width can be passed through as often as is wanted.
    pub open spec fn accepts(&self, x: Value<S>) -> bool {
        self.num_passes > 0 ==> {
            &&& x.is_matrix()
            &&& x.shape[1] == self.in_features
            &&& self.num_passes > 1 ==> self.in_features == self.out_features
            &&& x.shape[0] * self.out_features <= usize::MAX
            &&& x.shape[0] * self.out_features * self.in_features <= usize::MAX
        }
    }

    /// Applies the layer as often as it was asked for.
    pub fn forward(&self, x: &Tensor<S>) -> (r: Tensor<S>)
        requires
            self.wf(),
            x.wf(),
            self.accepts(x@),
        ensures
            r.wf(),
            r@ == shared_after(self.weight@, self.bias@, x@, self.num_passes as int),
    {
        let mut h = x.duplicate();
        let w_t = self.weight.transpose();
        let ghost rows = x@.shape[0];
        for k in 0..self.num_passes
            invariant
                self.wf(),
                self.accepts(x@),
                rows == x@.shape[0],
                w_t.wf(),
                w_t@ == tensor::transpose_value(self.weight@),
                h.wf(),
                self.num_passes > 0 ==> h@.is_matrix(),
                h@.shape[0] == rows,
                k == 0 && self.num_passes > 0 ==> h@.shape[1] == self.in_features,
                k > 0 ==> h@.shape[1] == self.out_features,
                h@ == shared_after(self.weight@, self.bias@, x@, k as int),
        {
            let mm = h.matmul(&w_t);
            proof {
                nn::lemma_bias_fits(mm@, self.bias@);
            }
            h = mm.add(&self.bias);
        }
        h
    }

    /// How many parameters there are, of one layer.
    pub fn param_count(&self) -> (r: usize)
        requires
            self.weight@.data.len() + self.bias@.data.len() <= usize::MAX,
        ensures
            r == self.weight@.data.len() + self.bias@.data.len(),
    {
        self.weight.len() + self.bias.len()
    }

    /// The parameters of as many layers as there are passes over those of the one.
    pub fn compression_ratio(&self) -> (r: S)
        requires
            self.weight@.data.len() + self.bias@.data.len() <= usize::MAX,
            (self.weight@.data.len() + self.bias@.data.len()) * self.num_passes <= usize::MAX,
        ensures
            r == optim::ratio::<S>(
                ((self.weight@.data.len() + self.bias@.data.len()) * self.num_passes) as usize,
                (self.weight@.data.len() + self.bias@.data.len()) as usize,
            ),
    {
        let one: usize = self.param_count();
        fraction(one * self.num_passes, one)
    }

    pub fn parameters(&self) -> (r: Vec<Tensor<S>>)
        requires
            self.wf(),
        ensures
            nn::tensors_are(r@, seq![self.weight@, self.bias@]),
    {
        let w = self.weight.duplicate();
        let b = self.bias.duplicate();
        vec![w, b]
    }
}

// ---- Dropped layers

/// Decides which layers change so little that they can be left out.
#[derive(Debug, Clone)]
pub struct LayerDropper<S> {
    pub thresholds: Vec<S>,
    /// How often each layer was left out.
    pub skip_counts: Vec<usize>,
    /// How often the model was passed.
    pub total_count: usize,
    /// The layer that was asked for last.
    pub last_layer: Option<usize>,
}

/// The length of a vector.
pub open spec fn length_of<S: Real>(v: Seq<S>) -> S {
    number::sum_n(optim::squares(v), v.len() as int).spec_sqrt()
}

fn length<S: Real>(v: &Vec<S>) -> (r: S)
    ensures
        r == length_of(v@),
{
    let mut sum = S::zero();
    for i in 0..v.len()
        invariant
            sum == number::sum_n(optim::squares(v@), i as int),
    {
        sum = sum.plus(v[i].times(v[i]));
    }
    sum.sqrt()
}

/// By what part of its length a state changed.
pub open spec fn change_of<S: Real>(before: Seq<S>, after: Seq<S>) -> S {
    length_of(after).spec_minus(length_of(before)).spec_abs().spec_over(
        length_of(before).spec_larger(optim::ratio(1, 100_000_000)),
    )
}

/// The place, or the last one where there are not so many.
pub open spec fn last_or(i: int, len: int) -> int {
    if i < len {
        i
    } else {
        len - 1
    }
}

/// The sum of the first counts.
pub open spec fn count_sum(v: Seq<usize>, n: int) -> int
    decreases n,
{
    if n <= 0 {
        0
    } else {
        count_sum(v, n - 1) + v[n - 1]
    }
}

proof fn lemma_count_sum_grows(v: Seq<usize>, n: int, m: int)
    requires
        0 <= n <= m,
    ensures
        0 <= count_sum(v, n) <= count_sum(v, m),
    decreases m,
{
    if n < m {
        lemma_count_sum_grows(v, n, m - 1);
    } else if n > 0 {
        lemma_count_sum_grows(v, n - 1, n - 1);
    }
}

/// Counts of which none is greater than a bound.
proof fn lemma_count_sum_bounded(v: Seq<usize>, bound: int, n: int)
    requires
        0 <= n <= v.len(),
        forall|i: int| 0 <= i < v.len() ==> #[trigger] v[i] <= bound,
    ensures
        count_sum(v, n) <= bound * n,
    decreases n,
{
    if n > 0 {
        lemma_count_sum_bounded(v, bound, n - 1);
        assert(bound * (n - 1) + bound == bound * n) by (nonlinear_arith);
    } else {
        assert(bound * n == 0) by (nonlinear_arith)
            requires
                n == 0,
        ;
    }
}

/// No layer is left out more often than the model is passed.
pub proof fn lemma_skips_bounded<S: Real>(d: LayerDropper<S>)
    requires
        d.wf(),
    ensures
        count_sum(d.skip_counts@, d.skip_counts@.len() as int) <= d.total_count
            * d.thresholds@.len(),
{
    lemma_count_sum_bounded(d.skip_counts@, d.total_count as int, d.skip_counts@.len() as int);
}

impl<S: Real> LayerDropper<S> {
    /// There is a count for each threshold; no layer was left out more often than the model was
    /// passed, and in the last pass none after the layer that was asked for last.
    pub open spec fn wf(&self) -> bool {
        &&& self.thresholds@.len() == self.skip_counts@.len()
        &&& forall|i: int|
            0 <= i < self.skip_counts@.len() ==> #[trigger] self.skip_counts@[i]
                <= self.total_count
        &&& match self.last_layer {
            Some(l) => forall|i: int|
                l < i < self.skip_counts@.len() ==> #[trigger] self.skip_counts@[i]
                    < self.total_count,
            None => self.total_count == 0,
        }
    }

    /// A question about a layer starts a pass, unless it follows one about an earlier layer.
    pub open spec fn starts_pass(&self, k: int) -> bool {
        match self.last_layer {
            Some(l) => k <= l,
            None => true,
        }
    }

    /// The same threshold for each layer.
    pub fn new(num_layers: usize, threshold: S) -> (r: Self)
        ensures
            r.wf(),
            r.thresholds@ == Seq::new(num_layers as nat, |i: int| threshold),
            r.skip_counts@ == Seq::new(num_layers as nat, |i: int| 0usize),
            r.total_count == 0,
            r.last_layer is None,
    {
        LayerDropper {
            thresholds: filled(threshold, num_layers),
            skip_counts: filled(0, num_layers),
            total_count: 0,
            last_layer: None,
        }
    }

    /// Whether a layer changes the length of the state by less than its threshold.
    pub fn should_skip(&mut self, layer_idx: usize, before: &Tensor<S>, after: &Tensor<S>) -> (r:
        bool)
        requires
            old(self).wf(),
            old(self).thresholds@.len() > 0,
            old(self).total_count < usize::MAX,
        ensures
            final(self).wf(),
            final(self).thresholds == old(self).thresholds,
            ({
                let k = last_or(layer_idx as int, old(self).thresholds@.len() as int);
                &&& final(self).total_count == old(self).total_count + (if old(self).starts_pass(k) {
                    1int
                } else {
                    0
                })
                &&& final(self).last_layer == Some(k as usize)
                &&& r == change_of(before@.data, after@.data).spec_below(old(self).thresholds@[k])
                &&& final(self).skip_counts@ == (if r {
                    old(self).skip_counts@.update(k, (old(self).skip_counts@[k] + 1) as usize)
                } else {
                    old(self).skip_counts@
                })
            }),
    {
        let n: usize = self.thresholds.len();
        let before_norm = length(&before.data);
        let after_norm = length(&after.data);
        let change = after_norm.minus(before_norm).abs().over(
            before_norm.larger(fraction(1, 100_000_000)),
        );
        let k: usize = if layer_idx < n {
            layer_idx
        } else {
            n - 1
        };
        let starts = match self.last_layer {
            Some(l) => k <= l,
            None => true,
        };
        if starts {
            self.total_count = self.total_count + 1;
        }
        self.last_layer = Some(k);
        if change.below(self.thresholds[k]) {
            let c: usize = self.skip_counts[k];
            self.skip_counts.set(k, c + 1);
            true
        } else {
            false
        }
    }

    /// What part of all layers, over all passes, was left out.
    pub fn avg_skip_rate(&self) -> (r: S)
        requires
            self.wf(),
            self.total_count * at_least_one(self.thresholds@.len() as usize) <= usize::MAX,
        ensures
            r == skip_rate(*self),
    {
        if self.total_count == 0 {
            return S::zero();
        }
        let mut skips: usize = 0;
        let n: usize = self.skip_counts.len();
        proof {
            lemma_skips_bounded(*self);
            assert(0 <= self.total_count * n) by (nonlinear_arith);
        }
        for i in 0..n
            invariant
                self.wf(),
                n == self.skip_counts@.len(),
                count_sum(self.skip_counts@, n as int) <= usize::MAX,
                skips == count_sum(self.skip_counts@, i as int),
        {
            proof {
                lemma_count_sum_grows(self.skip_counts@, i + 1, n as int);
            }
            skips = skips + self.skip_counts[i];
        }
        fraction(skips, self.total_count * one_at_least(self.thresholds.len()))
    }

    /// How much faster the model is without the layers that were left out.
    pub fn estimated_speedup(&self) -> (r: S)
        requires
            self.wf(),
            self.total_count * at_least_one(self.thresholds@.len() as usize) <= usize::MAX,
        ensures
            r == S::spec_one().spec_over(
                S::spec_one().spec_minus(skip_rate(*self)).spec_larger(optim::ratio(1, 100)),
            ),
    {
        let skip = self.avg_skip_rate();
        S::one().over(S::one().minus(skip).larger(fraction(1, 100)))
    }
}

/// What part of all layers, over all passes, was left out.
pub open spec fn skip_rate<S: Real>(d: LayerDropper<S>) -> S {
    if d.total_count == 0 {
        S::spec_zero()
    } else {
        optim::ratio(
            count_sum(d.skip_counts@, d.skip_counts@.len() as int) as usize,
            (d.total_count * at_least_one(d.thresholds@.len() as usize)) as usize,
        )
    }
}

// ---- Aligned representations

/// Two models, of which the outputs of the first are brought to those of the second.
pub struct KnowledgeTransfer<S, A, B> {
    pub source: A,
    pub target: B,
    /// Brings the outputs of the first to the width of the second.
    pub projection: Linear<S>,
}

/// The mean of the squared differences of two tensors.
pub open spec fn squared_distance<S: Real>(a: Value<S>, b: Value<S>) -> S {
    let d = tensor::zipped(Op::Sub, a, b);
    let sq = tensor::zipped(Op::Mul, d, d);
    tensor::sum_of(sq.data).spec_over(S::spec_count(at_least_one(sq.data.len() as usize)))
}

impl<S: Real, A: Module<S>, B: Module<S>> KnowledgeTransfer<S, A, B> {
    /// A projection to the wider of the two widths.
    pub fn new(
        source: A,
        target: B,
        source_dim: usize,
        target_dim: usize,
        draws: &mut Draws<S>,
    ) -> (r: Self)
        requires
            old(draws).wf(),
            (if source_dim < target_dim {
                target_dim
            } else {
                source_dim
            }) * source_dim <= old(draws).left(),
        ensures
            r.source == source,
            r.target == target,
            ({
                let wide = if source_dim < target_dim {
                    target_dim
                } else {
                    source_dim
                };
                &&& old(draws).taken(final(draws), wide * source_dim)
                &&& nn::drawn_linear(
                    r.projection,
                    source_dim,
                    wide,
                    true,
                    old(draws).values@,
                    old(draws).next as int,
                )
            }),
    {
        let wide: usize = if source_dim < target_dim {
            target_dim
        } else {
            source_dim
        };
        let projection = Linear::new(source_dim, wide, true, draws);
        KnowledgeTransfer { source, target, projection }
    }

    /// How far the projected outputs of the first model are from those of the second.
    pub fn transfer_loss(&self, input: &Tensor<S>) -> (r: S)
        requires
            self.source.wf(),
            self.target.wf(),
            self.projection.wf(),
            input.wf(),
            self.source.accepts(input@),
            self.target.accepts(input@),
            self.projection.accepts(self.source.output(input@)),
            tensor::zips(
                self.projection.output(self.source.output(input@)),
                self.target.output(input@),
            ),
        ensures
            r == squared_distance(
                self.projection.output(self.source.output(input@)),
                self.target.output(input@),
            ),
    {
        let source_feat = self.source.forward(input);
        let target_feat = self.target.forward(input);
        let projected = self.projection.forward(&source_feat);
        let diff = projected.sub(&target_feat);
        proof {
            tensor::lemma_zip_same_shape(Op::Mul, diff@, diff@);
        }
        let sq = diff.mul(&diff);
        let mut total = S::zero();
        let n: usize = sq.data.len();
        for i in 0..n
            invariant
                n == sq.data@.len(),
                total == number::sum_n(tensor::elements(sq.data@), i as int),
        {
            total = total.plus(sq.data[i]);
        }
        total.over(S::count(one_at_least(n)))
    }
}

// ---- Factored embeddings

/// An embedding table as the product of a tall and a wide matrix.
#[derive(Debug, Clone)]
pub struct CompressedEmbedding<S> {
    pub factor_u: Tensor<S>,
    pub factor_v: Tensor<S>,
    pub vocab_size: usize,
    pub embed_dim: usize,
    pub rank: usize,
}

/// One row of a matrix, as a matrix.
pub open spec fn row_value<S>(m: Value<S>, r: int) -> Value<S> {
    let w = m.shape[1] as int;
    Value { data: m.data.subrange(r * w, r * w + w), shape: seq![1usize, m.shape[1]] }
}

/// The place of the number farthest from zero among the first `n`; of several, the first.
pub open spec fn peak<S: Real>(v: Seq<S>, n: int) -> int
    decreases n,
{
    if n <= 1 {
        0
    } else {
        let best = peak(v, n - 1);
        if v[best].spec_abs().spec_below(v[n - 1].spec_abs()) {
            n - 1
        } else {
            best
        }
    }
}

proof fn lemma_peak<S: Real>(v: Seq<S>, n: int)
    requires
        1 <= n,
    ensures
        0 <= peak(v, n) < n,
    decreases n,
{
    if n > 1 {
        lemma_peak(v, n - 1);
    }
}

/// Nothing is left of a matrix: no number is away from zero.
pub open spec fn is_used_up<S: Real>(v: Seq<S>) -> bool {
    v.len() == 0 || v[peak(v, v.len() as int)].spec_abs().spec_at_most(S::spec_zero())
}

/// The column through the number farthest from zero, over that number.
pub open spec fn cross_column<S: Real>(v: Seq<S>, cols: int, i: int) -> S {
    if is_used_up(v) {
        S::spec_zero()
    } else {
        let x = peak(v, v.len() as int);
        v[i * cols + blas::col_of(x, cols)].spec_over(v[x])
    }
}

/// The row through the number farthest from zero.
pub open spec fn cross_row<S: Real>(v: Seq<S>, cols: int, j: int) -> S {
    if is_used_up(v) {
        S::spec_zero()
    } else {
        v[blas::row_of(peak(v, v.len() as int), cols) * cols + j]
    }
}

/// What is left of a matrix when the product of that column and that row is taken off it.
pub open spec fn uncrossed<S: Real>(v: Seq<S>, cols: int) -> Seq<S> {
    Seq::new(
        v.len(),
        |y: int|
            v[y].spec_minus(
                cross_column(v, cols, blas::row_of(y, cols)).spec_times(
                    cross_row(v, cols, blas::col_of(y, cols)),
                ),
            ),
    )
}

/// What is left of a table after some crosses were taken off.
pub open spec fn left_over<S: Real>(t: Value<S>, k: int) -> Seq<S>
    decreases k,
{
    if k <= 0 {
        t.data
    } else {
        uncrossed(left_over(t, k - 1), t.shape[1] as int)
    }
}

/// The column and the row through the number farthest from zero.
fn cross<S: Real>(v: &[S], rows: usize, cols: usize) -> (r: (Vec<S>, Vec<S>))
    requires
        rows * cols == v@.len(),
    ensures
        r.0@ == Seq::new(rows as nat, |i: int| cross_column(v@, cols as int, i)),
        r.1@ == Seq::new(cols as nat, |j: int| cross_row(v@, cols as int, j)),
{
    let n: usize = v.len();
    let ghost (ri, ci) = (rows as int, cols as int);
    let ghost want_column = Seq::new(rows as nat, |i: int| cross_column(v@, ci, i));
    let ghost want_row = Seq::new(cols as nat, |j: int| cross_row(v@, ci, j));
    let mut x: usize = 0;
    for i in 0..n
        invariant
            n == v@.len(),
            x == peak(v@, i as int),
            n > 0 ==> x < n,
    {
        if i > 0 && v[x].abs().below(v[i].abs()) {
            x = i;
        }
    }
    if n == 0 || v[x].abs().at_most(S::zero()) {
        let column = filled(S::zero(), rows);
        let row = filled(S::zero(), cols);
        assert(column@ =~= want_column);
        assert(row@ =~= want_row);
        return (column, row);
    }
    assert(0 < rows && 0 < cols) by {
        if rows == 0 || cols == 0 {
            assert(rows * cols == 0) by (nonlinear_arith)
                requires
                    rows == 0 || cols == 0,
            ;
        }
    }
    let across: usize = x % cols;
    let down: usize = x / cols;
    proof {
        vstd::arithmetic::div_mod::lemma_fundamental_div_mod(x as int, ci);
        vstd::arithmetic::div_mod::lemma_mod_bound(x as int, ci);
        assert(down < rows) by (nonlinear_arith)
            requires
                x < rows * cols,
                x == cols * down + across,
                0 <= across,
                0 < cols,
        ;
        assert(blas::col_of(x as int, ci) == across && blas::row_of(x as int, ci) == down);
    }
    let pivot = v[x];
    let mut column: Vec<S> = Vec::new();
    for i in 0..rows
        invariant
            n == v@.len(),
            rows * cols == n,
            ci == cols,
            across < cols,
            across == blas::col_of(x as int, ci),
            x == peak(v@, n as int),
            !is_used_up(v@),
            pivot == v@[x as int],
            want_column == Seq::new(rows as nat, |i: int| cross_column(v@, ci, i)),
            column@ =~= want_column.take(i as int),
    {
        proof {
            blas::lemma_in_storage(i as int, across as int, rows as int, ci);
            blas::lemma_in_storage(i as int, 0, rows as int, ci);
        }
        column.push(v[i * cols + across].over(pivot));
    }
    assert(column@ =~= want_column);
    let mut row: Vec<S> = Vec::new();
    for j in 0..cols
        invariant
            n == v@.len(),
            rows * cols == n,
            ci == cols,
            down < rows,
            down == blas::row_of(x as int, ci),
            x == peak(v@, n as int),
            !is_used_up(v@),
            want_row == Seq::new(cols as nat, |j: int| cross_row(v@, ci, j)),
            row@ =~= want_row.take(j as int),
    {
        proof {
            blas::lemma_in_storage(down as int, j as int, rows as int, ci);
            blas::lemma_in_storage(down as int, 0, rows as int, ci);
        }
        row.push(v[down * cols + j]);
    }
    assert(row@ =~= want_row);
    (column, row)
}

fn without_cross<S: Real>(v: &[S], rows: usize, cols: usize, column: &[S], row: &[S]) -> (r: Vec<
    S,
>)
    requires
        rows * cols == v@.len(),
        column@ == Seq::new(rows as nat, |i: int| cross_column(v@, cols as int, i)),
        row@ == Seq::new(cols as nat, |j: int| cross_row(v@, cols as int, j)),
    ensures
        r@ == uncrossed(v@, cols as int),
{
    let n: usize = v.len();
    let ghost want = uncrossed(v@, cols as int);
    let mut out: Vec<S> = Vec::new();
    for y in 0..n
        invariant
            n == v@.len(),
            rows * cols == n,
            column@ == Seq::new(rows as nat, |i: int| cross_column(v@, cols as int, i)),
            row@ == Seq::new(cols as nat, |j: int| cross_row(v@, cols as int, j)),
            want == uncrossed(v@, cols as int),
            out@ =~= want.take(y as int),
    {
        assert(0 < cols) by {
            assert(cols == 0 ==> rows * cols == 0) by (nonlinear_arith);
        }
        let i: usize = y / cols;
        let j: usize = y % cols;
        proof {
            let ci = cols as int;
            vstd::arithmetic::div_mod::lemma_fundamental_div_mod(y as int, ci);
            vstd::arithmetic::div_mod::lemma_mod_bound(y as int, ci);
            assert(i < rows) by (nonlinear_arith)
                requires
                    y < rows * cols,
                    y == cols * i + j,
                    0 <= j,
                    0 < cols,
            ;
            assert(blas::row_of(y as int, ci) == i && blas::col_of(y as int, ci) == j);
        }
        out.push(v[y].minus(column[i].times(row[j])));
    }
    assert(out@ =~= want);
    out
}

/// The cell of a row of a matrix is the cell of the matrix.
pub(crate) proof fn lemma_row_value<S>(m: Value<S>, r: int, p: int)
    requires
        m.wf(),
        m.shape.len() == 2,
        0 <= r < m.shape[0],
        0 <= p < m.shape[1],
    ensures
        row_value(m, r).mat()(0, p) == m.mat()(r, p),
{
    let w = m.shape[1] as int;
    assert(m.shape =~= seq![m.shape[0], m.shape[1]]);
    tensor::lemma_volume_two(m.shape[0], m.shape[1]);
    nn::lemma_row_in(r, m.shape[0] as int, w, m.data.len() as int);
    assert(0 * w + p == p) by (nonlinear_arith);
    assert(m.shape.last() == m.shape[1]);
    assert(row_value(m, r).shape.last() == m.shape[1]);
}

/// What the whole table holds for a token is what stands for the token, where the product of the
/// factors and that of a row of them are both large or both small. Otherwise the same products are
/// summed in another order.
pub proof fn lemma_table_holds_embeddings<S: Real>(
    e: CompressedEmbedding<S>,
    token: int,
    j: int,
)
    requires
        e.wf(),
        0 <= token < e.vocab_size,
        0 <= j < e.embed_dim,
        e.vocab_size * e.embed_dim * e.rank < blas::SMALL_FLOPS <==> 1 * e.embed_dim * e.rank
            < blas::SMALL_FLOPS,
    ensures
        tensor::matmul_value(e.factor_u@, e.factor_v@).data[token * e.embed_dim + j]
            == e.embedding(token).data[j],
{
    let (u, v) = (e.factor_u@, e.factor_v@);
    let row = row_value(u, token);
    let (m, n, k) = (e.vocab_size as int, e.embed_dim as int, e.rank as int);
    assert forall|p: int| 0 <= p < k implies #[trigger] u.mat()(token, p) == row.mat()(0, p) by {
        lemma_row_value(u, token, p);
    }
    blas::lemma_product_row(
        blas::Transpose::NoTrans,
        m,
        1,
        n,
        k,
        u.mat(),
        row.mat(),
        v.mat(),
        token,
        0,
        j,
    );
    blas::lemma_cell(token, j, n);
    blas::lemma_cell(0, j, n);
    blas::lemma_in_storage(token, j, m, n);
    assert(0 * n + j == j && 1 * n == n) by (nonlinear_arith);
}

/// What the whole table holds for a token and what is looked up for it are the same up to
/// rounding: each is the sum, in some order, of the same products of the row of the token and a
/// column of the second factor.
pub proof fn lemma_table_up_to_rounding<S: Real>(e: CompressedEmbedding<S>, token: int, j: int)
    requires
        e.wf(),
        0 <= token < e.vocab_size,
        0 <= j < e.embed_dim,
    ensures
        ({
            let a = ways::row(e.factor_u@.mat(), token);
            let b = ways::column(e.factor_v@.mat(), j);
            let (k, one, zero) = (e.rank as int, S::spec_one(), blas::scaled(
                S::spec_zero(),
                S::spec_zero(),
            ));
            let table = tensor::matmul_value(e.factor_u@, e.factor_v@);
            &&& ways::adds_up(table.data[token * e.embed_dim + j], k, one, a, b, zero)
            &&& ways::adds_up(e.embedding(token).data[j], k, one, a, b, zero)
        }),
{
    let (u, v) = (e.factor_u@, e.factor_v@);
    let row = row_value(u, token);
    let (m, n, k) = (e.vocab_size as int, e.embed_dim as int, e.rank as int);
    let (nt, one, zero) = (blas::Transpose::NoTrans, S::spec_one(), S::spec_zero());
    let (a, a2, b) = (ways::row(u.mat(), token), ways::row(row.mat(), 0), ways::column(v.mat(), j));
    assert forall|p: int| 0 <= p < k implies #[trigger] a2(p) == a(p) by {
        lemma_row_value(u, token, p);
    }
    ways::lemma_entry_adds_up(nt, m, n, k, one, u.mat(), v.mat(), zero, zero, token, j);
    ways::lemma_entry_adds_up(nt, 1, n, k, one, row.mat(), v.mat(), zero, zero, 0, j);
    ways::lemma_adds_up_agrees(
        blas::mat_product(nt, 1, n, k, row.mat(), v.mat())(0, j),
        k,
        one,
        a2,
        a,
        b,
        blas::scaled(zero, zero),
    );
    blas::lemma_cell(token, j, n);
    blas::lemma_cell(0, j, n);
    blas::lemma_in_storage(token, j, m, n);
    assert(0 * n + j == j && 1 * n == n) by (nonlinear_arith);
}

/// A row of what is looked up for tokens is what is looked up for the token of the row, and the
/// row of the whole table up to rounding; the same tokens have the same rows.
pub proof fn lemma_batch_holds_embeddings<S: Real>(
    e: CompressedEmbedding<S>,
    tokens: Seq<usize>,
    batch: Value<S>,
    i: int,
    j: int,
)
    requires
        e.wf(),
        e.is_batch(tokens, batch),
        0 <= i < tokens.len(),
        tokens[i] < e.vocab_size,
        0 <= j < e.embed_dim,
    ensures
        batch.data[i * e.embed_dim + j] == e.embedding(tokens[i] as int).data[j],
        ({
            let t = tokens[i] as int;
            let a = ways::row(e.factor_u@.mat(), t);
            let b = ways::column(e.factor_v@.mat(), j);
            let (k, one, zero) = (e.rank as int, S::spec_one(), blas::scaled(
                S::spec_zero(),
                S::spec_zero(),
            ));
            let table = tensor::matmul_value(e.factor_u@, e.factor_v@);
            &&& ways::adds_up(batch.data[i * e.embed_dim + j], k, one, a, b, zero)
            &&& ways::adds_up(table.data[t * e.embed_dim + j], k, one, a, b, zero)
        }),
        forall|h: int|
            0 <= h < tokens.len() && #[trigger] tokens[h] == tokens[i] ==> batch.data[h
                * e.embed_dim + j] == batch.data[i * e.embed_dim + j],
{
    let w = e.embed_dim as int;
    let rows = tokens.len() as int;
    assert forall|h: int| 0 <= h < rows implies batch.data[h * w + j] == e.embedding(
        #[trigger] tokens[h] as int,
    ).data[j] by {
        nn::lemma_row_in(h, rows, w, rows * w);
        blas::lemma_cell(h, j, w);
        assert(batch.data[h * w + j] == e.embedding(
            tokens[blas::row_of(h * w + j, w)] as int,
        ).data[blas::col_of(h * w + j, w)]);
    }
    lemma_table_up_to_rounding(e, tokens[i] as int, j);
}

proof fn lemma_dot_row(
    a: Mat<i32>,
    a2: Mat<i32>,
    b: Mat<i32>,
    i: int,
    i2: int,
    j: int,
    k: int,
)
    requires
        forall|p: int| 0 <= p < k ==> #[trigger] a(i, p) == a2(i2, p),
    ensures
        exact::dot(a, b, i, j, k) == exact::dot(a2, b, i2, j, k),
    decreases k,
{
    if k > 0 {
        lemma_dot_row(a, a2, b, i, i2, j, k - 1);
        assert(a(i, k - 1) == a2(i2, k - 1));
    }
}

/// On machine integers a row of the product of two factors is the product of that row of the
/// first factor and the second, whatever the sizes: what a factored table holds for a token is
/// what is looked up for it.
pub proof fn lemma_row_of_product(u: Value<i32>, v: Value<i32>, r: int, j: int)
    requires
        u.wf(),
        u.shape.len() == 2,
        v.shape.len() == 2,
        u.shape[1] == v.shape[0],
        0 <= r < u.shape[0],
        0 <= j < v.shape[1],
    ensures
        tensor::matmul_value(u, v).data[r * v.shape[1] + j] == tensor::matmul_value(
            row_value(u, r),
            v,
        ).data[j],
{
    let row = row_value(u, r);
    let (m, n, k) = (u.shape[0] as int, v.shape[1] as int, u.shape[1] as int);
    assert forall|p: int| 0 <= p < k implies #[trigger] u.mat()(r, p) == row.mat()(0, p) by {
        lemma_row_value(u, r, p);
    }
    let nt = blas::Transpose::NoTrans;
    let d = exact::dot(u.mat(), v.mat(), r, j, k);
    lemma_dot_row(u.mat(), row.mat(), v.mat(), r, 0, j, k);
    exact::lemma_gemm_exact(nt, m, n, k, 1, u.mat(), v.mat(), 0, 0, r, j);
    exact::lemma_gemm_exact(nt, 1, n, k, 1, row.mat(), v.mat(), 0, 0, 0, j);
    assert(1 * d + 0 * 0 == d);
    exact::lemma_equal(
        blas::mat_product(nt, m, n, k, u.mat(), v.mat())(r, j),
        blas::mat_product(nt, 1, n, k, row.mat(), v.mat())(0, j),
        d,
    );
    blas::lemma_cell(r, j, n);
    blas::lemma_cell(0, j, n);
    blas::lemma_in_storage(r, j, m, n);
    assert(0 * n + j == j && 1 * n == n) by (nonlinear_arith);
}

impl<S: Real> CompressedEmbedding<S> {
    pub open spec fn wf(&self) -> bool {
        &&& self.factor_u.wf()
        &&& self.factor_v.wf()
        &&& self.factor_u@.shape == seq![self.vocab_size, self.rank]
        &&& self.factor_v@.shape == seq![self.rank, self.embed_dim]
    }

    /// What stands for a token.
    pub open spec fn embedding(&self, token: int) -> Value<S> {
        tensor::matmul_value(row_value(self.factor_u@, token), self.factor_v@)
    }

    /// The rows of tokens, one after the other.
    pub open spec fn is_batch(&self, tokens: Seq<usize>, v: Value<S>) -> bool {
        &&& v.data.len() == tokens.len() * self.embed_dim
        &&& v.shape == seq![tokens.len() as usize, self.embed_dim]
        &&& forall|x: int|
            0 <= x < v.data.len() ==> #[trigger] v.data[x] == self.embedding(
                tokens[blas::row_of(x, self.embed_dim as int)] as int,
            ).data[blas::col_of(x, self.embed_dim as int)]
    }

    /// Factors of a table: as many crosses as the rank are taken off it, one after the other, and
    /// the column of each is a column of the first factor, its row a row of the second.
    pub fn from_table(embedding: &Tensor<S>, rank: usize) -> (r: Self)
        requires
            embedding.wf(),
            embedding@.is_matrix(),
            embedding@.shape[0] * rank <= usize::MAX,
            rank * embedding@.shape[1] <= usize::MAX,
        ensures
            r.wf(),
            r.vocab_size == embedding@.shape[0],
            r.embed_dim == embedding@.shape[1],
            r.rank == rank,
            forall|i: int, k: int|
                #![trigger r.factor_u@.mat()(i, k)]
                0 <= i < r.vocab_size && 0 <= k < rank ==> r.factor_u@.mat()(i, k) == cross_column(
                    left_over(embedding@, k),
                    embedding@.shape[1] as int,
                    i,
                ),
            forall|k: int, j: int|
                #![trigger r.factor_v@.mat()(k, j)]
                0 <= k < rank && 0 <= j < r.embed_dim ==> r.factor_v@.mat()(k, j) == cross_row(
                    left_over(embedding@, k),
                    embedding@.shape[1] as int,
                    j,
                ),
    {
        let rows: usize = embedding.shape[0];
        let cols: usize = embedding.shape[1];
        let ghost t = embedding@;
        let ghost (ri, ci, ki) = (rows as int, cols as int, rank as int);
        proof {
            assert(t.shape =~= seq![rows, cols]);
            tensor::lemma_volume_two(rows, cols);
            tensor::lemma_volume_two(rows, rank);
            tensor::lemma_volume_two(rank, cols);
            assert(0 * ci == 0) by (nonlinear_arith);
        }
        let mut left = copy_slice(&embedding.data);
        let mut columns: Vec<Vec<S>> = Vec::new();
        let mut v: Vec<S> = Vec::new();
        for k in 0..rank
            invariant
                ri == rows,
                ci == cols,
                t.shape == seq![rows, cols],
                rows * cols == left@.len(),
                left@ == left_over(t, k as int),
                columns@.len() == k,
                forall|q: int| 0 <= q < k ==> (#[trigger] columns@[q])@.len() == rows,
                forall|q: int, i: int|
                    #![trigger columns@[q]@[i]]
                    0 <= q < k && 0 <= i < rows ==> columns@[q]@[i] == cross_column(
                        left_over(t, q),
                        ci,
                        i,
                    ),
                v@.len() == k * ci,
                forall|q: int, j: int|
                    #![trigger v@[q * ci + j]]
                    0 <= q < k && 0 <= j < cols ==> v@[q * ci + j] == cross_row(
                        left_over(t, q),
                        ci,
                        j,
                    ),
        {
            let (column, row) = cross(&left, rows, cols);
            let ghost had = v@;
            let ghost (cv, rv) = (column@, row@);
            proof {
                assert(k * ci + ci == (k + 1) * ci) by (nonlinear_arith);
            }
            left = without_cross(&left, rows, cols, &column, &row);
            columns.push(column);
            let mut more = row;
            v.append(&mut more);
            proof {
                assert(left_over(t, k + 1) == left@);
                assert forall|q: int, j: int|
                    #![trigger v@[q * ci + j]]
                    0 <= q < k + 1 && 0 <= j < cols implies v@[q * ci + j] == cross_row(
                    left_over(t, q),
                    ci,
                    j,
                ) by {
                    if q < k {
                        blas::lemma_in_storage(q, j, k as int, ci);
                        assert(v@[q * ci + j] == had[q * ci + j]);
                    } else {
                        assert(v@[q * ci + j] == rv[j]);
                    }
                }
                assert forall|q: int, i: int|
                    #![trigger columns@[q]@[i]]
                    0 <= q < k + 1 && 0 <= i < rows implies columns@[q]@[i] == cross_column(
                    left_over(t, q),
                    ci,
                    i,
                ) by {
                    if q == k {
                        assert(columns@[q]@ == cv);
                    }
                }
            }
        }
        let mut u: Vec<S> = Vec::new();
        proof {
            assert(0 * ki == 0) by (nonlinear_arith);
        }
        for i in 0..rows
            invariant
                ki == rank,
                columns@.len() == rank,
                forall|q: int| 0 <= q < rank ==> (#[trigger] columns@[q])@.len() == rows,
                u@.len() == i * ki,
                forall|a: int, q: int|
                    #![trigger u@[a * ki + q]]
                    0 <= a < i && 0 <= q < rank ==> u@[a * ki + q] == columns@[q]@[a],
        {
            for k in 0..rank
                invariant
                    i < rows,
                    ki == rank,
                    columns@.len() == rank,
                    forall|q: int| 0 <= q < rank ==> (#[trigger] columns@[q])@.len() == rows,
                    u@.len() == i * ki + k,
                    forall|a: int, q: int|
                        #![trigger u@[a * ki + q]]
                        0 <= a < i && 0 <= q < rank ==> u@[a * ki + q] == columns@[q]@[a],
                    forall|q: int|
                        #![trigger u@[i * ki + q]]
                        0 <= q < k ==> u@[i * ki + q] == columns@[q]@[i as int],
            {
                let ghost had = u@;
                assert(columns@[k as int]@.len() == rows);
                let x = columns[k][i];
                u.push(x);
                proof {
                    assert forall|a: int, q: int|
                        #![trigger u@[a * ki + q]]
                        0 <= a < i && 0 <= q < rank implies u@[a * ki + q] == columns@[q]@[a] by {
                        blas::lemma_in_storage(a, q, i as int, ki);
                        assert(u@[a * ki + q] == had[a * ki + q]);
                    }
                    assert forall|q: int|
                        #![trigger u@[i * ki + q]]
                        0 <= q < k + 1 implies u@[i * ki + q] == columns@[q]@[i as int] by {
                        if q < k {
                            assert(u@[i * ki + q] == had[i * ki + q]);
                        }
                    }
                }
            }
            proof {
                assert(i * ki + ki == (i + 1) * ki) by (nonlinear_arith);
                assert forall|a: int, q: int|
                    #![trigger u@[a * ki + q]]
                    0 <= a < i + 1 && 0 <= q < rank implies u@[a * ki + q] == columns@[q]@[a] by {
                    if a == i {
                        assert(u@[i * ki + q] == columns@[q]@[i as int]);
                    }
                }
            }
        }
        let us: Vec<usize> = vec![rows, rank];
        let vs: Vec<usize> = vec![rank, cols];
        assert(us@ =~= seq![rows, rank] && vs@ =~= seq![rank, cols]);
        let r = CompressedEmbedding {
            factor_u: Tensor::from_vec(u, us),
            factor_v: Tensor::from_vec(v, vs),
            vocab_size: rows,
            embed_dim: cols,
            rank,
        };
        proof {
            assert(r.factor_u@.shape.last() == rank && r.factor_v@.shape.last() == cols);
            assert forall|i: int, k: int|
                #![trigger r.factor_u@.mat()(i, k)]
                0 <= i < rows && 0 <= k < rank implies r.factor_u@.mat()(i, k) == cross_column(
                left_over(t, k),
                ci,
                i,
            ) by {
                assert(r.factor_u@.data[i * ki + k] == columns@[k]@[i]);
            }
            assert forall|k: int, j: int|
                #![trigger r.factor_v@.mat()(k, j)]
                0 <= k < rank && 0 <= j < cols implies r.factor_v@.mat()(k, j) == cross_row(
                left_over(t, k),
                ci,
                j,
            ) by {
                assert(r.factor_v@.data[k * ci + j] == cross_row(left_over(t, k), ci, j));
            }
        }
        r
    }

    /// What stands for a token: its row of the first factor times the second.
    pub fn lookup(&self, token: usize) -> (r: Tensor<S>)
        requires
            self.wf(),
            token < self.vocab_size,
        ensures
            r.wf(),
            r@ == self.embedding(token as int),
    {
        let ghost k = self.rank as int;
        proof {
            tensor::lemma_volume_two(self.vocab_size, self.rank);
            tensor::lemma_volume_two(self.rank, self.embed_dim);
            tensor::lemma_volume_two(1, self.rank);
            nn::lemma_row_in(token as int, self.vocab_size as int, k, self.vocab_size * k);
        }
        let len: usize = self.factor_u.data.len();
        let vlen: usize = self.factor_v.data.len();
        let from: usize = token * self.rank;
        let row = copy_slice(
            vstd::slice::slice_subrange(&self.factor_u.data, from, from + self.rank),
        );
        let shape: Vec<usize> = vec![1, self.rank];
        assert(shape@ =~= seq![1usize, self.rank]);
        let u_row = Tensor::from_vec(row, shape);
        proof {
            assert(u_row@.data =~= row_value(self.factor_u@, token as int).data);
            assert(1 * self.embed_dim * self.rank == self.rank * self.embed_dim)
                by (nonlinear_arith);
        }
        u_row.matmul(&self.factor_v)
    }

    /// What stands for each of the tokens, row after row.
    #[verifier::loop_isolation(false)]
    pub fn lookup_batch(&self, tokens: &[usize]) -> (r: Tensor<S>)
        requires
            self.wf(),
            forall|i: int| 0 <= i < tokens@.len() ==> #[trigger] tokens@[i] < self.vocab_size,
            tokens@.len() * self.embed_dim <= usize::MAX,
        ensures
            r.wf(),
            self.is_batch(tokens@, r@),
    {
        let mut data: Vec<S> = Vec::new();
        let n: usize = tokens.len();
        let ghost w = self.embed_dim as int;
        proof {
            assert(0 * w == 0) by (nonlinear_arith);
        }
        for i in 0..n
            invariant
                data@.len() == i * w,
                forall|x: int|
                    0 <= x < data@.len() ==> #[trigger] data@[x] == self.embedding(
                        tokens@[blas::row_of(x, w)] as int,
                    ).data[blas::col_of(x, w)],
        {
            let emb = self.lookup(tokens[i]);
            proof {
                tensor::lemma_volume_two(1, self.embed_dim);
                assert(emb@.shape =~= seq![1usize, self.embed_dim]);
            }
            let mut own = emb.data;
            let ghost before = data@;
            let ghost row = own@;
            data.append(&mut own);
            proof {
                assert(i * w + w == (i + 1) * w) by (nonlinear_arith);
                assert forall|x: int| 0 <= x < data@.len() implies #[trigger] data@[x]
                    == self.embedding(tokens@[blas::row_of(x, w)] as int).data[blas::col_of(
                    x,
                    w,
                )] by {
                    if x >= i * w {
                        blas::lemma_cell(i as int, x - i * w, w);
                    } else {
                        assert(before[x] == data@[x]);
                    }
                }
            }
        }
        let shape: Vec<usize> = vec![n, self.embed_dim];
        proof {
            assert(shape@ =~= seq![n, self.embed_dim]);
            tensor::lemma_volume_two(n, self.embed_dim);
        }
        Tensor::from_vec(data, shape)
    }

    /// The whole table.
    pub fn reconstruct(&self) -> (r: Tensor<S>)
        requires
            self.wf(),
            self.vocab_size * self.embed_dim <= usize::MAX,
        ensures
            r.wf(),
            r@ == tensor::matmul_value(self.factor_u@, self.factor_v@),
    {
        self.factor_u.matmul(&self.factor_v)
    }

    /// The numbers of the table over those of its factors.
    pub fn compression_ratio(&self) -> (r: S)
        requires
            self.vocab_size * self.embed_dim <= usize::MAX,
            self.vocab_size * self.rank + self.rank * self.embed_dim <= usize::MAX,
        ensures
            r == optim::ratio::<S>(
                (self.vocab_size * self.embed_dim) as usize,
                (self.vocab_size * self.rank + self.rank * self.embed_dim) as usize,
            ),
    {
        proof {
            assert(0 <= self.vocab_size * self.rank && 0 <= self.rank * self.embed_dim)
                by (nonlinear_arith);
        }
        fraction(
            self.vocab_size * self.embed_dim,
            self.vocab_size * self.rank + self.rank * self.embed_dim,
        )
    }

    /// Four bytes for each number of the factors.
    pub fn mem_bytes(&self) -> (r: usize)
        requires
            (self.factor_u@.data.len() + self.factor_v@.data.len()) * 4 <= usize::MAX,
        ensures
            r == (self.factor_u@.data.len() + self.factor_v@.data.len()) * 4,
    {
        (self.factor_u.len() + self.factor_v.len()) * 4
    }
}

// ---- Pruning by sensitivity

/// How much of each parameter can be pruned, by how much the loss grows without half of it.
#[derive(Debug, Clone)]
pub struct MixedSparsity<S> {
    /// What part of each parameter is to be pruned.
    pub layer_sparsity: Vec<S>,
    /// By how much the loss grew.
    pub sensitivity: Vec<S>,
}

/// The numbers, with zeros in place of those nearer to zero than the median is.
pub open spec fn half_pruned<S: Real>(v: Seq<S>) -> Seq<S> {
    let threshold = magnitude_at(v, v.len() as int / 2);
    Seq::new(
        v.len(),
        |i: int|
            if v[i].spec_abs().spec_below(threshold) {
                S::spec_zero()
            } else {
                v[i]
            },
    )
}

fn half_prune<S: Real>(t: &Tensor<S>) -> (r: Tensor<S>)
    requires
        t.wf(),
        t@.data.len() > 0,
    ensures
        r.wf(),
        r@ == (Value::<S> { data: half_pruned(t@.data), shape: t@.shape }),
{
    let n: usize = t.data.len();
    let threshold = magnitude(&t.data, n / 2);
    let ghost want = half_pruned(t.data@);
    let mut data: Vec<S> = Vec::new();
    for i in 0..n
        invariant
            n == t.data@.len(),
            want == half_pruned(t.data@),
            threshold == magnitude_at(t.data@, n as int / 2),
            data@ =~= want.take(i as int),
    {
        let v = t.data[i];
        data.push(
            if v.abs().below(threshold) {
                S::zero()
            } else {
                v
            },
        );
    }
    assert(data@ =~= want);
    Tensor::from_vec(data, copy_slice(&t.shape))
}

/// The model with half of one parameter pruned.
pub open spec fn is_probe<S: Real>(
    model: Sequential<Layer<S>>,
    probe: Sequential<Layer<S>>,
    i: int,
) -> bool {
    let v = model.values()[i];
    &&& probe.wf()
    &&& nn::same_layers(model.layers@, probe.layers@)
    &&& probe.values() == model.values().update(
        i,
        Value { data: half_pruned(v.data), shape: v.shape },
    )
}

/// By how much the loss grew.
pub open spec fn growth<S: Real>(base: S, now: S) -> S {
    now.spec_minus(base).spec_larger(S::spec_zero())
}

/// The less the loss grew, the more is pruned.
pub open spec fn raw_sparsity<S: Real>(sensitivity: Seq<S>) -> Seq<S> {
    Seq::new(
        sensitivity.len(),
        |i: int|
            optim::ratio::<S>(1, 2).spec_over(
                S::spec_one().spec_plus(sensitivity[i].spec_times(S::spec_count(10))),
            ),
    )
}

/// The parts to be pruned, one half on average, none under a twentieth or over nine tenths.
pub open spec fn spread_sparsity<S: Real>(sensitivity: Seq<S>) -> Seq<S> {
    let raw = raw_sparsity(sensitivity);
    let avg = tensor::sum_of(raw).spec_over(S::spec_count(at_least_one(raw.len() as usize)));
    let scale = optim::ratio::<S>(1, 2).spec_over(
        avg.spec_larger(optim::ratio(1, 100_000_000)),
    );
    Seq::new(
        raw.len(),
        |i: int|
            number::bounded(
                raw[i].spec_times(scale),
                optim::ratio(5, 100),
                optim::ratio(9, 10),
            ),
    )
}

fn spread<S: Real>(sensitivity: &Vec<S>) -> (r: Vec<S>)
    ensures
        r@ == spread_sparsity(sensitivity@),
{
    let n: usize = sensitivity.len();
    let mut raw: Vec<S> = Vec::new();
    let mut sum = S::zero();
    let ghost want = raw_sparsity(sensitivity@);
    for i in 0..n
        invariant
            n == sensitivity@.len(),
            want == raw_sparsity(sensitivity@),
            raw@ =~= want.take(i as int),
            sum == number::sum_n(tensor::elements(want), i as int),
    {
        let s = fraction::<S>(1, 2).over(S::one().plus(sensitivity[i].times(S::count(10))));
        assert(s == want[i as int]);
        raw.push(s);
        sum = sum.plus(s);
    }
    assert(raw@ =~= want);
    let avg = sum.over(S::count(one_at_least(n)));
    let scale = fraction::<S>(1, 2).over(avg.larger(fraction(1, 100_000_000)));
    let mut out: Vec<S> = Vec::new();
    for i in 0..n
        invariant
            n == sensitivity@.len(),
            raw@.len() == n,
            out@ =~= Seq::new(
                i as nat,
                |k: int|
                    number::bounded(
                        raw@[k].spec_times(scale),
                        optim::ratio(5, 100),
                        optim::ratio(9, 10),
                    ),
            ),
    {
        out.push(bound(raw[i].times(scale), fraction(5, 100), fraction(9, 10)));
    }
    assert(out@ =~= spread_sparsity(sensitivity@));
    out
}

proof fn lemma_same_layers_step<S: Real>(
    a: Seq<Layer<S>>,
    b: Seq<Layer<S>>,
    c: Seq<Layer<S>>,
)
    requires
        nn::same_layers(a, b),
        nn::same_layers(b, c),
    ensures
        nn::same_layers(a, c),
{
    assert forall|i: int| 0 <= i < a.len() implies nn::same_layer(#[trigger] a[i], c[i]) by {
        assert(nn::same_layer(a[i], b[i]));
        assert(nn::same_layer(b[i], c[i]));
    }
}

proof fn lemma_same_layers_self<S: Real>(a: Seq<Layer<S>>)
    ensures
        nn::same_layers(a, a),
{
    assert forall|i: int| 0 <= i < a.len() implies nn::same_layer(#[trigger] a[i], a[i]) by {}
}

/// The loss grew as it does where half of one parameter is pruned.
pub open spec fn probed<S: Real, L: Loss<S>>(
    model: Sequential<Layer<S>>,
    i: int,
    x: Value<S>,
    t: Value<S>,
    loss_fn: L,
    s: S,
) -> bool {
    exists|probe: Sequential<Layer<S>>|
        #[trigger] is_probe(model, probe, i) && s == growth(
            loss_fn.value(model.output(x), t),
            loss_fn.value(probe.output(x), t),
        )
}

impl<S: Real> MixedSparsity<S> {
    /// Prunes half of each parameter in turn and watches the loss. The model is left with the
    /// parameters it had.
    pub fn analyze<L: Loss<S>>(
        model: &mut Sequential<Layer<S>>,
        inputs: &Tensor<S>,
        targets: &Tensor<S>,
        loss_fn: &L,
    ) -> (r: Self)
        requires
            old(model).wf(),
            inputs.wf(),
            targets.wf(),
            old(model).accepts(inputs@),
            forall|p: Value<S>|
                p.wf() && p.shape == old(model).output(inputs@).shape
                    ==> #[trigger] loss_fn.fits(p, targets@),
            forall|i: int|
                0 <= i < old(model).values().len() ==> (#[trigger] old(model).values()[i]).data.len() > 0,
        ensures
            final(model).wf(),
            nn::same_layers(old(model).layers@, final(model).layers@),
            final(model).values() == old(model).values(),
            r.sensitivity@.len() == old(model).values().len(),
            forall|i: int|
                0 <= i < r.sensitivity@.len() ==> probed(
                    *old(model),
                    i,
                    inputs@,
                    targets@,
                    *loss_fn,
                    #[trigger] r.sensitivity@[i],
                ),
            r.layer_sparsity@ == spread_sparsity(r.sensitivity@),
    {
        let ghost first = *model;
        let ghost values = model.values();
        let params = model.parameters();
        proof {
            lemma_same_layers_self(first.layers@);
            nn::lemma_same_layers_accept(first.layers@, first.layers@, inputs@);
        }
        let out = model.forward(inputs);
        let base = loss_fn.forward(&out, targets).data[0];
        let n: usize = params.len();
        let mut sensitivity: Vec<S> = Vec::new();
        for i in 0..n
            invariant
                n == params@.len(),
                nn::tensors_are(params@, values),
                values == first.values(),
                first.wf(),
                inputs.wf(),
                targets.wf(),
                first.accepts(inputs@),
                forall|p: Value<S>|
                    p.wf() && p.shape == first.output(inputs@).shape
                        ==> #[trigger] loss_fn.fits(p, targets@),
                forall|k: int|
                    0 <= k < values.len() ==> (#[trigger] values[k]).data.len() > 0,
                base == loss_fn.value(first.output(inputs@), targets@),
                model.wf(),
                nn::same_layers(first.layers@, model.layers@),
                forall|k: int|
                    0 <= k < model.values().len() ==> (#[trigger] model.values()[k]).shape
                        == values[k].shape,
                model.values().len() == values.len(),
                sensitivity@.len() == i,
                forall|k: int|
                    0 <= k < i ==> probed(
                        first,
                        k,
                        inputs@,
                        targets@,
                        *loss_fn,
                        #[trigger] sensitivity@[k],
                    ),
        {
            assert(params@[i as int].wf());
            assert(values[i as int].data.len() > 0);
            let pruned = half_prune(&params[i]);
            let ghost want = values.update(i as int, pruned@);
            let mut next: Vec<Tensor<S>> = Vec::new();
            for k in 0..n
                invariant
                    n == params@.len(),
                    n == want.len(),
                    nn::tensors_are(params@, values),
                    pruned.wf(),
                    i < n,
                    want == values.update(i as int, pruned@),
                    nn::tensors_are(next@, want.take(k as int)),
            {
                assert(params@[k as int].wf());
                let ghost had = next@;
                next.push(
                    if k == i {
                        pruned.duplicate()
                    } else {
                        params[k].duplicate()
                    },
                );
                assert forall|j: int| 0 <= j < next@.len() implies (#[trigger] next@[j]).wf()
                    && next@[j]@ == want.take(k + 1)[j] by {
                    if j < k {
                        assert(had[j].wf());
                    }
                }
            }
            proof {
                assert(want.take(n as int) =~= want);
                assert forall|k: int| 0 <= k < model.values().len() implies (
                #[trigger] next@[0 + k]).wf() && next@[0 + k]@.shape == model.values()[k].shape by {
                    assert(next@[k].wf());
                    assert(model.values()[k].shape == values[k].shape);
                }
            }
            let ghost before = model.layers@;
            model.load_parameters(&next);
            proof {
                lemma_same_layers_step(first.layers@, before, model.layers@);
                nn::lemma_same_layers_accept(first.layers@, model.layers@, inputs@);
                assert(model.values() =~= want) by {
                    assert forall|k: int| 0 <= k < want.len() implies model.values()[k]
                        == #[trigger] want[k] by {
                        assert(next@[k].wf());
                    }
                }
                assert forall|k: int| 0 <= k < model.values().len() implies (
                #[trigger] model.values()[k]).shape == values[k].shape by {}
                assert(is_probe(first, *model, i as int));
            }
            let out = model.forward(inputs);
            let now = loss_fn.forward(&out, targets).data[0];
            let grown = now.minus(base).larger(S::zero());
            assert(probed(first, i as int, inputs@, targets@, *loss_fn, grown));
            sensitivity.push(grown);
        }
        proof {
            assert forall|k: int| 0 <= k < model.values().len() implies (
            #[trigger] params@[0 + k]).wf() && params@[0 + k]@.shape
                == model.values()[k].shape by {
                assert(params@[k].wf());
                assert(model.values()[k].shape == values[k].shape);
            }
        }
        let ghost before = model.layers@;
        model.load_parameters(&params);
        proof {
            lemma_same_layers_step(first.layers@, before, model.layers@);
            assert(model.values() =~= values) by {
                assert forall|k: int| 0 <= k < values.len() implies model.values()[k]
                    == #[trigger] values[k] by {
                    assert(params@[k].wf());
                }
            }
        }
        let layer_sparsity = spread(&sensitivity);
        MixedSparsity { layer_sparsity, sensitivity }
    }

    /// What part of a parameter is to be pruned; one half where nothing is known of it.
    pub fn sparsity_for_layer(&self, layer_idx: usize) -> (r: S)
        ensures
            r == (if layer_idx < self.layer_sparsity@.len() {
                self.layer_sparsity@[layer_idx as int]
            } else {
                optim::ratio::<S>(1, 2)
            }),
    {
        if layer_idx < self.layer_sparsity.len() {
            self.layer_sparsity[layer_idx]
        } else {
            fraction(1, 2)
        }
    }
}

// ---- Pruning by schedule

/// Pruning that grows from nothing, after a time of warming up, to a target.
#[derive(Debug, Clone)]
pub struct ProgressiveShrinking<S> {
    pub target_sparsity: S,
    pub current_sparsity: S,
    pub total_steps: usize,
    pub current_step: usize,
    pub warmup_steps: usize,
}

/// What part is pruned at a step.
pub open spec fn shrink_at<S: Real>(target: S, total: usize, warmup: usize, step: int) -> S {
    if step <= warmup {
        S::spec_zero()
    } else if step >= total {
        target
    } else {
        target.spec_times(optim::ratio((step - warmup) as usize, (total - warmup) as usize))
    }
}

/// A whole number brought between zero and a limit.
pub open spec fn clipped(w: i64, hi: int) -> int {
    if w < 0 {
        0
    } else if w > hi {
        hi
    } else {
        w as int
    }
}

fn clip(w: i64, hi: usize) -> (r: usize)
    ensures
        r == clipped(w, hi as int),
{
    if w < 0 {
        0
    } else if (w as u64) > (hi as u64) {
        hi
    } else {
        w as usize
    }
}

/// The places of the numbers, from the one nearest to zero on.
pub open spec fn nearest_first<S: Real>(v: Seq<S>) -> Seq<usize> {
    climbing(magnitudes(v), v.len() as int)
}

/// The numbers, with zeros in place of the `k` that are nearest to zero.
pub open spec fn soft_pruned<S: Real>(v: Seq<S>, k: int) -> Seq<S> {
    Seq::new(
        v.len(),
        |i: int|
            if nearest_first(v).take(k).contains(i as usize) {
                S::spec_zero()
            } else {
                v[i]
            },
    )
}

/// Of `n` numbers `k` are pruned, no more and no fewer, and none that is kept is nearer to zero
/// than one that is pruned.
pub proof fn lemma_smallest_are_pruned(v: Seq<Fixed>, k: int)
    requires
        0 <= k <= v.len() <= usize::MAX,
    ensures
        nearest_first(v).take(k).to_set().len() == k,
        forall|i: int|
            0 <= i < v.len() && nearest_first(v).take(k).contains(i as usize)
                ==> #[trigger] soft_pruned(v, k)[i] == <Fixed as Number>::spec_zero(),
        forall|i: int|
            0 <= i < v.len() && !nearest_first(v).take(k).contains(i as usize)
                ==> #[trigger] soft_pruned(v, k)[i] == v[i],
        forall|i: usize, j: usize|
            i < v.len() && j < v.len() && #[trigger] nearest_first(v).take(k).contains(i)
                && !#[trigger] nearest_first(v).take(k).contains(j)
                ==> v[i as int].spec_abs().spec_at_most(v[j as int].spec_abs()),
{
    let m = magnitudes(v);
    let order = nearest_first(v);
    let gone = order.take(k);
    lemma_climbing_is_permutation(m, v.len() as int);
    assert(gone.no_duplicates());
    gone.unique_seq_to_set();
    assert forall|i: usize, j: usize|
        i < v.len() && j < v.len() && #[trigger] gone.contains(i) && !#[trigger] gone.contains(
            j,
        ) implies v[i as int].spec_abs().spec_at_most(v[j as int].spec_abs()) by {
        let a = choose|a: int| 0 <= a < gone.len() && gone[a] == i;
        assert(order.contains(j));
        let b = choose|b: int| 0 <= b < order.len() && order[b] == j;
        if b < k {
            assert(gone[b] == j);
        }
        lemma_climbing_ascends(m, v.len() as int, a, b);
    }
}

impl<S: Real> ProgressiveShrinking<S> {
    pub fn new(target_sparsity: S, total_steps: usize, warmup_steps: usize) -> (r: Self)
        ensures
            r.target_sparsity == target_sparsity,
            r.current_sparsity == S::spec_zero(),
            r.total_steps == total_steps,
            r.current_step == 0,
            r.warmup_steps == warmup_steps,
    {
        ProgressiveShrinking {
            target_sparsity,
            current_sparsity: S::zero(),
            total_steps,
            current_step: 0,
            warmup_steps,
        }
    }

    /// Goes one step on and says what part is to be pruned.
    pub fn step(&mut self) -> (r: S)
        requires
            old(self).current_step < usize::MAX,
        ensures
            r == shrink_at(
                old(self).target_sparsity,
                old(self).total_steps,
                old(self).warmup_steps,
                old(self).current_step + 1,
            ),
            *final(self) == (ProgressiveShrinking {
                current_sparsity: r,
                current_step: (old(self).current_step + 1) as usize,
                ..*old(self)
            }),
    {
        self.current_step = self.current_step + 1;
        if self.current_step <= self.warmup_steps {
            self.current_sparsity = S::zero();
        } else if self.current_step >= self.total_steps {
            self.current_sparsity = self.target_sparsity;
        } else {
            let progress = fraction(
                self.current_step - self.warmup_steps,
                self.total_steps - self.warmup_steps,
            );
            self.current_sparsity = self.target_sparsity.times(progress);
        }
        self.current_sparsity
    }

    /// How many of `n` weights are pruned.
    pub open spec fn pruned_count(&self, n: int) -> int {
        clipped(S::spec_count(n as usize).spec_times(self.current_sparsity).spec_whole(), n)
    }

    /// The weights with zeros in place of the part that is nearest to zero.
    pub fn apply_soft_prune(&self, tensor: &Tensor<S>) -> (r: Tensor<S>)
        requires
            tensor.wf(),
        ensures
            r.wf(),
            r@.shape == tensor@.shape,
            r@.data == (if self.current_sparsity.spec_at_most(S::spec_zero()) {
                tensor@.data
            } else {
                soft_pruned(tensor@.data, self.pruned_count(tensor@.data.len() as int))
            }),
    {
        if self.current_sparsity.at_most(S::zero()) {
            return tensor.duplicate();
        }
        let n: usize = tensor.data.len();
        let k: usize = clip(S::count(n).times(self.current_sparsity).whole(), n);
        let order = places_by_size(&tensor.data);
        let ghost all = order@;
        let mut data = copy_slice(&tensor.data);
        assert(data@ =~= soft_pruned(tensor.data@, 0)) by {
            assert(all.take(0) =~= Seq::empty());
        }
        for j in 0..k
            invariant
                k <= n,
                n == tensor.data@.len(),
                order@ == all,
                all == nearest_first(tensor.data@),
                all.len() == n,
                forall|i: int| 0 <= i < n ==> 0 <= #[trigger] all[i] < n,
                data@ == soft_pruned(tensor.data@, j as int),
        {
            proof {
                let (less, more) = (all.take(j as int), all.take(j + 1));
                assert(more =~= less.push(all[j as int]));
                assert forall|x: usize| more.contains(x) == (less.contains(x) || x == all[j as int])
                    by {
                    if less.contains(x) {
                        let a = choose|a: int| 0 <= a < less.len() && less[a] == x;
                        assert(more[a] == x);
                    }
                    assert(more[j as int] == all[j as int]);
                    if more.contains(x) && x != all[j as int] {
                        let a = choose|a: int| 0 <= a < more.len() && more[a] == x;
                        assert(less[a] == x);
                    }
                }
            }
            data.set(order[j], S::zero());
            assert(data@ =~= soft_pruned(tensor.data@, j + 1));
        }
        Tensor::from_vec(data, copy_slice(&tensor.shape))
    }

    /// Whether all steps were taken.
    pub fn is_done(&self) -> (r: bool)
        ensures
            r == (self.current_step >= self.total_steps),
    {
        self.current_step >= self.total_steps
    }
}

// ---- Pruning by channel

/// Takes away whole outputs, those with the shortest rows first.
#[derive(Debug, Clone)]
pub struct StructuredPruner<S> {
    pub prune_ratios: Vec<S>,
}

/// The squares of a row.
pub open spec fn row_squares<S: Real>(m: Value<S>, r: int) -> spec_fn(int) -> S {
    |i: int| m.data[r * m.shape[1] + i].spec_powi(2)
}

/// The length of each row.
pub open spec fn row_lengths<S: Real>(m: Value<S>) -> Seq<S> {
    Seq::new(
        m.shape[0] as nat,
        |r: int| number::sum_n(row_squares(m, r), m.shape[1] as int).spec_sqrt(),
    )
}

/// How many of `n` channels are kept: the rounded part that is not pruned, but at least one.
pub open spec fn channels_kept<S: Real>(n: usize, prune_ratio: S) -> int {
    let w = clipped(
        S::spec_one().spec_minus(prune_ratio).spec_times(
            S::spec_count(n),
        ).spec_round().spec_whole(),
        n as int,
    );
    if w == 0 && n > 0 {
        1
    } else {
        w
    }
}

/// The channels that are kept, by ascending length.
pub open spec fn kept_channels<S: Real>(m: Value<S>, prune_ratio: S) -> Seq<usize> {
    let n = m.shape[0] as int;
    climbing(row_lengths(m), n).subrange(n - channels_kept(m.shape[0], prune_ratio), n)
}

/// Some rows of a matrix.
pub open spec fn picked_rows<S>(m: Value<S>, rows: Seq<usize>) -> Value<S> {
    let w = m.shape[1] as int;
    Value {
        data: Seq::new(
            (rows.len() * w) as nat,
            |x: int| m.data[rows[blas::row_of(x, w)] * w + blas::col_of(x, w)],
        ),
        shape: seq![rows.len() as usize, m.shape[1]],
    }
}

impl<S: Real> StructuredPruner<S> {
    /// The same part for each layer.
    pub fn new(prune_ratio: S, num_layers: usize) -> (r: Self)
        ensures
            r.prune_ratios@ == Seq::new(num_layers as nat, |i: int| prune_ratio),
    {
        StructuredPruner { prune_ratios: filled(prune_ratio, num_layers) }
    }

    /// The rows that are kept, and which they are.
    #[verifier::loop_isolation(false)]
    #[verifier::spinoff_prover]
    #[verifier::rlimit(40)]
    pub fn prune_channels(weight: &Tensor<S>, prune_ratio: S) -> (r: (Tensor<S>, Vec<usize>))
        requires
            weight.wf(),
            weight@.is_matrix(),
        ensures
            r.0.wf(),
            r.1@ == kept_channels(weight@, prune_ratio),
            r.0@ == picked_rows(weight@, r.1@),
            r.1@.len() == channels_kept(weight@.shape[0], prune_ratio),
            forall|k: int| 0 <= k < r.1@.len() ==> #[trigger] r.1@[k] < weight@.shape[0],
    {
        let out_f: usize = weight.shape[0];
        let in_f: usize = weight.shape[1];
        let ghost w = in_f as int;
        let ghost m = weight@;
        let len: usize = weight.data.len();
        proof {
            tensor::lemma_volume_two(out_f, in_f);
            assert(m.shape =~= seq![out_f, in_f]);
        }
        let mut scores: Vec<S> = Vec::new();
        for o in 0..out_f
            invariant
                scores@ =~= row_lengths(m).take(o as int),
        {
            proof {
                nn::lemma_row_in(o as int, out_f as int, w, out_f * w);
            }
            let mut sum = S::zero();
            for i in 0..in_f
                invariant
                    sum == number::sum_n(row_squares(m, o as int), i as int),
            {
                sum = sum.plus(weight.data[o * in_f + i].powi(2));
            }
            let norm = sum.sqrt();
            assert(norm == row_lengths(m)[o as int]);
            scores.push(norm);
        }
        assert(scores@ =~= row_lengths(m));
        let order = climb(&scores);
        let wanted: usize = clip(
            S::one().minus(prune_ratio).times(S::count(out_f)).round().whole(),
            out_f,
        );
        let n_keep: usize = if wanted == 0 && out_f > 0 {
            1
        } else {
            wanted
        };
        let kept: Vec<usize> = copy_slice(
            vstd::slice::slice_subrange(&order, out_f - n_keep, out_f),
        );
        assert(kept@ =~= kept_channels(m, prune_ratio));
        let ghost want = picked_rows(m, kept@).data;
        let mut pruned: Vec<S> = Vec::new();
        proof {
            assert(0 * w == 0) by (nonlinear_arith);
            assert(n_keep * w <= out_f * w) by (nonlinear_arith)
                requires
                    0 <= n_keep <= out_f,
                    0 <= w,
            ;
        }
        for k in 0..n_keep
            invariant
                pruned@.len() == k * w,
                forall|x: int| 0 <= x < k * w ==> #[trigger] pruned@[x] == want[x],
        {
            let row: usize = kept[k];
            proof {
                nn::lemma_row_in(row as int, out_f as int, w, out_f * w);
                nn::lemma_row_in(k as int, n_keep as int, w, n_keep * w);
                assert(k * w + w == (k + 1) * w) by (nonlinear_arith);
            }
            for c in 0..in_f
                invariant
                    pruned@.len() == k * w + c,
                    forall|x: int| 0 <= x < k * w + c ==> #[trigger] pruned@[x] == want[x],
            {
                proof {
                    blas::lemma_cell(k as int, c as int, w);
                }
                pruned.push(weight.data[row * in_f + c]);
            }
        }
        let shape: Vec<usize> = vec![n_keep, in_f];
        proof {
            assert(shape@ =~= seq![n_keep, in_f]);
            tensor::lemma_volume_two(n_keep, in_f);
            assert(pruned@ =~= want);
        }
        (Tensor::from_vec(pruned, shape), kept)
    }

    /// A layer with the outputs that are kept, and which they are.
    pub fn prune_linear(layer: &Linear<S>, prune_ratio: S) -> (r: (Linear<S>, Vec<usize>))
        requires
            layer.wf(),
        ensures
            r.0.wf(),
            r.1@ == kept_channels(layer.weight@, prune_ratio),
            r.0.weight@ == picked_rows(layer.weight@, r.1@),
            match (layer.bias, r.0.bias) {
                (Some(b), Some(c)) => c@ == (Value::<S> {
                    data: Seq::new(r.1@.len(), |k: int| b@.data[r.1@[k] as int]),
                    shape: seq![r.1@.len() as usize],
                }),
                (None, None) => true,
                _ => false,
            },
    {
        let (weight, kept) = Self::prune_channels(&layer.weight, prune_ratio);
        let n: usize = kept.len();
        let bias = match &layer.bias {
            Some(b) => {
                proof {
                    tensor::lemma_volume_two(layer.weight@.shape[0], 1);
                    tensor::lemma_volume_two(n, 1);
                }
                let mut data: Vec<S> = Vec::new();
                for k in 0..n
                    invariant
                        n == kept@.len(),
                        b@.data.len() == layer.weight@.shape[0],
                        forall|j: int|
                            0 <= j < n ==> #[trigger] kept@[j] < layer.weight@.shape[0],
                        data@ =~= Seq::new(k as nat, |j: int| b@.data[kept@[j] as int]),
                {
                    data.push(b.data[kept[k]]);
                }
                let shape: Vec<usize> = vec![n];
                assert(shape@ =~= seq![n]);
                Some(Tensor::from_vec(data, shape))
            },
            None => None,
        };
        (Linear { weight, bias }, kept)
    }
}

// ---- The search for a recipe

/// How one parameter is made smaller.
#[derive(Debug, Clone, Copy)]
pub enum CompressionStrategy<S> {
    /// Not at all.
    Unchanged,
    Prune { ratio: S },
    StructuredPrune { ratio: S },
    LowRank { rank: usize },
    Quantize { bits: usize },
}

/// What is to be done with each parameter, and what comes of it.
#[derive(Debug, Clone)]
pub struct CompressionRecipe<S> {
    pub strategies: Vec<CompressionStrategy<S>>,
    pub compression_ratio: S,
    pub accuracy_retention: S,
}

/// By what factor a parameter becomes smaller.
pub open spec fn factor_of<S: Real>(s: CompressionStrategy<S>) -> S {
    match s {
        CompressionStrategy::Unchanged => S::spec_one(),
        CompressionStrategy::Prune { ratio } => S::spec_one().spec_over(
            S::spec_one().spec_minus(ratio),
        ),
        CompressionStrategy::StructuredPrune { ratio } => S::spec_one().spec_over(
            S::spec_one().spec_minus(ratio),
        ),
        CompressionStrategy::LowRank { rank } => S::spec_count(4),
        CompressionStrategy::Quantize { bits } => optim::ratio(32, bits),
    }
}

/// How much of a parameter, whose numbers are on average so far from zero, is retained.
pub open spec fn score_of<S: Real>(s: CompressionStrategy<S>, norm: S) -> S {
    match s {
        CompressionStrategy::Unchanged => S::spec_one(),
        CompressionStrategy::Prune { ratio } => S::spec_one().spec_minus(ratio).spec_times(
            norm.spec_over(norm.spec_larger(optim::ratio(1, 100))),
        ),
        CompressionStrategy::StructuredPrune { ratio } => S::spec_one().spec_minus(
            ratio.spec_times(optim::ratio(1, 2)),
        ),
        CompressionStrategy::LowRank { rank } => optim::ratio(8, 10),
        CompressionStrategy::Quantize { bits } => S::spec_one().spec_minus(
            optim::ratio::<S>(32, bits).spec_minus(S::spec_one()).spec_times(
                optim::ratio(5, 100),
            ),
        ),
    }
}

/// What is retained of a parameter over its size afterwards.
pub open spec fn worth_of<S: Real>(s: CompressionStrategy<S>, norm: S) -> S {
    score_of(s, norm).spec_times(factor_of(s))
}

/// The rank that is tried for a matrix: a quarter of its narrower side, and at least one.
pub open spec fn quarter_rank(rows: usize, cols: usize) -> usize {
    let side = if rows < cols {
        rows
    } else {
        cols
    };
    at_least_one((side / 4) as usize)
}

/// The strategies that are tried.
pub open spec fn candidate<S: Real>(rank: usize, k: int) -> CompressionStrategy<S> {
    if k == 0 {
        CompressionStrategy::Unchanged
    } else if k == 1 {
        CompressionStrategy::Prune { ratio: optim::ratio(3, 10) }
    } else if k == 2 {
        CompressionStrategy::Prune { ratio: optim::ratio(1, 2) }
    } else if k == 3 {
        CompressionStrategy::Prune { ratio: optim::ratio(7, 10) }
    } else if k == 4 {
        CompressionStrategy::StructuredPrune { ratio: optim::ratio(3, 10) }
    } else if k == 5 {
        CompressionStrategy::LowRank { rank }
    } else if k == 6 {
        CompressionStrategy::Quantize { bits: 8 }
    } else {
        CompressionStrategy::Quantize { bits: 4 }
    }
}

/// Which of the first strategies retains the most for its size; of equal ones the last.
pub open spec fn best_of<S: Real>(norm: S, rank: usize, k: int) -> int
    decreases k,
{
    if k <= 1 {
        0
    } else {
        let b = best_of(norm, rank, k - 1);
        if worth_of(candidate(rank, k - 1), norm).spec_below(worth_of(candidate(rank, b), norm)) {
            b
        } else {
            k - 1
        }
    }
}

/// The strategy for a matrix.
pub open spec fn strategy_of<S: Real>(v: Value<S>) -> CompressionStrategy<S> {
    let rank = quarter_rank(v.shape[0], v.shape[1]);
    candidate(rank, best_of(average_magnitude(v.data), rank, 8))
}

/// How far from zero the numbers are on average.
pub open spec fn average_magnitude<S: Real>(v: Seq<S>) -> S {
    tensor::sum_of(magnitudes(v)).spec_over(S::spec_count(at_least_one(v.len() as usize)))
}

/// How many of the first parameters are matrices.
pub open spec fn matrices<S>(values: Seq<Value<S>>, n: int) -> int
    decreases n,
{
    if n <= 0 {
        0
    } else {
        matrices(values, n - 1) + (if values[n - 1].is_matrix() {
            1int
        } else {
            0
        })
    }
}

/// How far the search has come.
pub struct SearchState<S> {
    pub strategies: Seq<CompressionStrategy<S>>,
    pub compression: S,
    pub stopped: bool,
}

/// The search over the first parameters: it looks at matrices alone, and stops where the
/// target is reached in the second half.
pub open spec fn searched<S: Real>(values: Seq<Value<S>>, target: S, n: int) -> SearchState<S>
    decreases n,
{
    if n <= 0 {
        SearchState { strategies: Seq::empty(), compression: S::spec_one(), stopped: false }
    } else {
        let before = searched(values, target, n - 1);
        let v = values[n - 1];
        if before.stopped || !v.is_matrix() {
            before
        } else {
            let best = strategy_of(v);
            let compression = before.compression.spec_times(factor_of(best));
            let half = matrices(values, values.len() as int) / 2;
            let stopped = target.spec_at_most(compression) && n - 1 >= half;
            let strategies = before.strategies.push(best);
            SearchState {
                strategies: if stopped {
                    strategies + Seq::new(
                        (values.len() - n) as nat,
                        |k: int| CompressionStrategy::Unchanged,
                    )
                } else {
                    strategies
                },
                compression,
                stopped,
            }
        }
    }
}

impl<S: Real> CompressionStrategy<S> {
    /// By what factor a parameter becomes smaller.
    pub fn size_factor(&self) -> (r: S)
        ensures
            r == factor_of(*self),
    {
        match self {
            CompressionStrategy::Unchanged => S::one(),
            CompressionStrategy::Prune { ratio } => S::one().over(S::one().minus(*ratio)),
            CompressionStrategy::StructuredPrune { ratio } => S::one().over(
                S::one().minus(*ratio),
            ),
            CompressionStrategy::LowRank { rank: _ } => S::count(4),
            CompressionStrategy::Quantize { bits } => fraction(32, *bits),
        }
    }

    fn worth(&self, norm: S) -> (r: S)
        ensures
            r == worth_of(*self, norm),
    {
        self.score(norm).times(self.size_factor())
    }

    fn score(&self, norm: S) -> (r: S)
        ensures
            r == score_of(*self, norm),
    {
        match self {
            CompressionStrategy::Unchanged => S::one(),
            CompressionStrategy::Prune { ratio } => S::one().minus(*ratio).times(
                norm.over(norm.larger(fraction(1, 100))),
            ),
            CompressionStrategy::StructuredPrune { ratio } => S::one().minus(
                ratio.times(fraction(1, 2)),
            ),
            CompressionStrategy::LowRank { rank: _ } => fraction(8, 10),
            CompressionStrategy::Quantize { bits } => S::one().minus(
                fraction::<S>(32, *bits).minus(S::one()).times(fraction(5, 100)),
            ),
        }
    }
}

fn candidates<S: Real>(rank: usize) -> (r: Vec<CompressionStrategy<S>>)
    ensures
        r@ == Seq::new(8, |k: int| candidate::<S>(rank, k)),
{
    let r: Vec<CompressionStrategy<S>> = vec![
        CompressionStrategy::Unchanged,
        CompressionStrategy::Prune { ratio: fraction(3, 10) },
        CompressionStrategy::Prune { ratio: fraction(1, 2) },
        CompressionStrategy::Prune { ratio: fraction(7, 10) },
        CompressionStrategy::StructuredPrune { ratio: fraction(3, 10) },
        CompressionStrategy::LowRank { rank },
        CompressionStrategy::Quantize { bits: 8 },
        CompressionStrategy::Quantize { bits: 4 },
    ];
    assert(r@ =~= Seq::new(8, |k: int| candidate::<S>(rank, k)));
    r
}

/// The strategy that retains the most of a matrix for its size.
fn best_strategy<S: Real>(p: &Tensor<S>) -> (r: CompressionStrategy<S>)
    requires
        p@.is_matrix(),
    ensures
        r == strategy_of(p@),
{
    let len: usize = p.data.len();
    let mut sum = S::zero();
    let ghost m = magnitudes(p.data@);
    for i in 0..len
        invariant
            len == p.data@.len(),
            m == magnitudes(p.data@),
            sum == number::sum_n(tensor::elements(m), i as int),
    {
        assert(m[i as int] == p.data@[i as int].spec_abs());
        sum = sum.plus(p.data[i].abs());
    }
    let norm = sum.over(S::count(one_at_least(len)));
    let side: usize = if p.shape[0] < p.shape[1] {
        p.shape[0]
    } else {
        p.shape[1]
    };
    let rank: usize = one_at_least(side / 4);
    let all = candidates::<S>(rank);
    let mut best: usize = 0;
    let mut k: usize = 1;
    while k < 8
        invariant
            1 <= k <= 8,
            best < 8,
            all@ == Seq::new(8, |k: int| candidate::<S>(rank, k)),
            best == best_of(norm, rank, k as int),
        decreases 8 - k,
    {
        if !all[k].worth(norm).below(all[best].worth(norm)) {
            best = k;
        }
        k += 1;
    }
    all[best]
}

/// Searches a strategy for each matrix among the parameters of a model.
pub fn automl_search<S: Real, M: Module<S>, L: Loss<S>>(
    model: &M,
    inputs: &Tensor<S>,
    targets: &Tensor<S>,
    loss_fn: &L,
    target_compression: S,
) -> (r: CompressionRecipe<S>)
    requires
        model.wf(),
        inputs.wf(),
        targets.wf(),
        model.accepts(inputs@),
        loss_fn.fits(model.output(inputs@), targets@),
    ensures
        ({
            let n = model.values().len() as int;
            let s = searched(model.values(), target_compression, n);
            &&& r.strategies@ == s.strategies
            &&& r.compression_ratio == s.compression
        }),
        r.accuracy_retention == S::spec_one().spec_minus(
            loss_fn.value(model.output(inputs@), targets@).spec_times(optim::ratio(1, 10)),
        ),
{
    let params = model.parameters();
    let ghost values = model.values();
    let n: usize = params.len();
    let mut n_layers: usize = 0;
    for i in 0..n
        invariant
            n == params@.len(),
            nn::tensors_are(params@, values),
            n_layers == matrices(values, i as int),
            n_layers <= i,
    {
        assert(params@[i as int].wf());
        if params[i].ndim() == 2 {
            n_layers = n_layers + 1;
        }
    }
    let out = model.forward(inputs);
    let loss = loss_fn.forward(&out, targets).data[0];
    let mut strategies: Vec<CompressionStrategy<S>> = Vec::new();
    let mut current = S::one();
    let mut stopped = false;
    for i in 0..n
        invariant
            n == params@.len(),
            nn::tensors_are(params@, values),
            n_layers == matrices(values, n as int),
            ({
                let s = searched(values, target_compression, i as int);
                strategies@ == s.strategies && current == s.compression && stopped == s.stopped
            }),
    {
        assert(params@[i as int].wf());
        if !stopped && params[i].ndim() == 2 {
            let best = best_strategy(&params[i]);
            strategies.push(best);
            current = current.times(best.size_factor());
            if target_compression.at_most(current) && i >= n_layers / 2 {
                stopped = true;
                let ghost chosen = strategies@;
                for k in i + 1..n
                    invariant
                        i < n,
                        strategies@ =~= chosen + Seq::new(
                            (k - (i + 1)) as nat,
                            |k: int| CompressionStrategy::Unchanged,
                        ),
                {
                    strategies.push(CompressionStrategy::Unchanged);
                }
            }
        }
    }
    let accuracy_retention = S::one().minus(loss.times(fraction(1, 10)));
    CompressionRecipe { strategies, compression_ratio: current, accuracy_retention }
}

} // verus!
