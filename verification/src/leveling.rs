//! What normalization, averaging and clipping leave, for numbers without rounding.
use vstd::prelude::*;
use crate::activations;
use crate::ideal;
use crate::ideal::{faithful, product, reals, rsum, Reading};
use crate::multiplying;
use crate::nn;
use crate::number::{Number, Real};
use crate::tensor;
use crate::tensor::Value;

verus! {

/// The mean times the count is the sum.
pub proof fn lemma_mean<S: Real>(r: Reading<S>, row: Seq<S>)
    requires
        faithful(r),
        0 < row.len() <= usize::MAX,
    ensures
        product((r.of)(nn::mean_of(row)), row.len() as real) == rsum(
            reals(r.of, row),
            row.len() as int,
        ),
{
    let n = row.len() as int;
    ideal::lemma_reads_count(r, row.len() as usize, 0);
    ideal::lemma_reads_sum(r, tensor::elements(row), n);
    ideal::lemma_rsum_agree(ideal::read(r.of, tensor::elements(row)), reals(r.of, row), n);
    ideal::lemma_reads_over(r, tensor::sum_of(row), S::spec_count(row.len() as usize));
}

/// The squared distances of numbers from another.
pub open spec fn squares_from<S>(of: spec_fn(S) -> real, row: Seq<S>, m: real) -> spec_fn(int) -> real {
    |j: int| product(of(row[j]) - m, of(row[j]) - m)
}

/// The variance times the count is the sum of the squared distances from the mean.
pub proof fn lemma_variance<S: Real>(r: Reading<S>, row: Seq<S>)
    requires
        faithful(r),
        0 < row.len() <= usize::MAX,
    ensures
        product((r.of)(nn::variance_of(row)), row.len() as real) == rsum(
            squares_from(r.of, row, (r.of)(nn::mean_of(row))),
            row.len() as int,
        ),
        (r.of)(nn::variance_of(row)) >= 0real,
{
    let n = row.len() as int;
    let mean = nn::mean_of(row);
    let dev = nn::deviations(row, mean);
    let sq = squares_from(r.of, row, (r.of)(mean));
    lemma_mean(r, dev);
    let rd = reals(r.of, dev);
    assert forall|j: int| 0 <= j < n implies #[trigger] rd(j) == sq(j) by {
        let d = row[j].spec_minus(mean);
        ideal::lemma_reads(r, row[j], mean);
        ideal::lemma_reads(r, d, d);
    }
    ideal::lemma_rsum_agree(rd, sq, n);
    assert forall|j: int| 0 <= j < n implies #[trigger] sq(j) >= 0real by {
        ideal::lemma_own_product((r.of)(row[j]) - (r.of)(mean));
    }
    ideal::lemma_rsum_bounds(sq, 0, n);
    let v = (r.of)(nn::variance_of(row));
    if v < 0real {
        ideal::lemma_strict(0real - v, n as real);
        ideal::lemma_spread(n as real, 0real, v);
        ideal::lemma_neutral(n as real);
    }
}

/// The spread by which numbers are normalized.
spec fn unit_of<S: Real>(row: Seq<S>, eps: S) -> S {
    nn::variance_of(row).spec_plus(eps).spec_sqrt()
}

proof fn lemma_standard<S: Real>(r: Reading<S>, x: S, row: Seq<S>, eps: S)
    requires
        faithful(r),
        0 < row.len() <= usize::MAX,
        (r.of)(eps) > 0real,
    ensures
        (r.of)(unit_of(row, eps)) > 0real,
        product((r.of)(unit_of(row, eps)), (r.of)(unit_of(row, eps))) == (r.of)(
            nn::variance_of(row),
        ) + (r.of)(eps),
        product((r.of)(unit_of(row, eps)), (r.of)(nn::standard(x, row, eps))) == (r.of)(x) - (
        r.of)(nn::mean_of(row)),
{
    lemma_variance(r, row);
    ideal::lemma_reads(r, nn::variance_of(row), eps);
    ideal::lemma_reads_own_root(r, nn::variance_of(row).spec_plus(eps));
    let u = (r.of)(unit_of(row, eps));
    ideal::lemma_neutral(u);
    ideal::lemma_reads(r, x, nn::mean_of(row));
    ideal::lemma_reads_over(r, x.spec_minus(nn::mean_of(row)), unit_of(row, eps));
    ideal::lemma_swap(u, (r.of)(nn::standard(x, row, eps)));
}

/// Normalizing keeps the order of numbers.
pub proof fn lemma_normalizing_keeps_order<S: Real>(r: Reading<S>, x: S, y: S, row: Seq<S>, eps: S)
    requires
        faithful(r),
        0 < row.len() <= usize::MAX,
        (r.of)(eps) > 0real,
        (r.of)(x) < (r.of)(y),
    ensures
        (r.of)(nn::standard(x, row, eps)) < (r.of)(nn::standard(y, row, eps)),
{
    lemma_standard(r, x, row, eps);
    lemma_standard(r, y, row, eps);
    let u = (r.of)(unit_of(row, eps));
    let (a, b) = ((r.of)(nn::standard(x, row, eps)), (r.of)(nn::standard(y, row, eps)));
    if a >= b {
        ideal::lemma_not_negative(u, a - b);
        ideal::lemma_spread(u, a, b);
    }
}

/// Numbers that were normalized cancel out.
pub proof fn lemma_normalized_cancel<S: Real>(r: Reading<S>, row: Seq<S>, eps: S)
    requires
        faithful(r),
        0 < row.len() <= usize::MAX,
        (r.of)(eps) > 0real,
    ensures
        rsum(|j: int| (r.of)(nn::standard(row[j], row, eps)), row.len() as int) == 0real,
{
    let n = row.len() as int;
    let m = (r.of)(nn::mean_of(row));
    let u = (r.of)(unit_of(row, eps));
    let z = |j: int| (r.of)(nn::standard(row[j], row, eps));
    let d = |j: int| (r.of)(row[j]) - m;
    let less = |j: int| -m;
    assert forall|j: int| 0 <= j < n implies #[trigger] d(j) == product(u, z(j)) by {
        lemma_standard(r, row[j], row, eps);
    }
    lemma_standard(r, row[0], row, eps);
    ideal::lemma_common_factor(z, d, u, n);
    ideal::lemma_repeated(less, -m, n);
    ideal::lemma_rsum_plus(reals(r.of, row), less, d, n);
    lemma_mean(r, row);
    ideal::lemma_swap(m, n as real);
    ideal::lemma_spread(n as real, 0real, m);
    ideal::lemma_neutral(n as real);
    assert(0real - m == -m);
    ideal::lemma_neutral(u);
    ideal::lemma_swap(rsum(z, n), u);
    ideal::lemma_neutral(u);
    ideal::lemma_cancel(rsum(z, n), 0real, u);
}

/// The squares of numbers that were normalized, times the variance and what is added to it, are
/// the squared distances from the mean.
pub proof fn lemma_normalized_spread<S: Real>(r: Reading<S>, row: Seq<S>, eps: S, v: real)
    requires
        faithful(r),
        0 < row.len() <= usize::MAX,
        (r.of)(eps) > 0real,
        product(v, row.len() as real) == rsum(
            squares_from(r.of, row, (r.of)(nn::mean_of(row))),
            row.len() as int,
        ),
    ensures
        product(
            v + (r.of)(eps),
            rsum(
                |j: int|
                    product(
                        (r.of)(nn::standard(row[j], row, eps)),
                        (r.of)(nn::standard(row[j], row, eps)),
                    ),
                row.len() as int,
            ),
        ) == product(v, row.len() as real),
{
    let n = row.len() as int;
    let m = (r.of)(nn::mean_of(row));
    let u = (r.of)(unit_of(row, eps));
    lemma_variance(r, row);
    ideal::lemma_cancel(v, (r.of)(nn::variance_of(row)), n as real);
    lemma_standard(r, row[0], row, eps);
    let z = |j: int|
        product(
            (r.of)(nn::standard(row[j], row, eps)),
            (r.of)(nn::standard(row[j], row, eps)),
        );
    let sq = squares_from(r.of, row, m);
    let uu = product(u, u);
    assert forall|j: int| 0 <= j < n implies #[trigger] sq(j) == product(uu, z(j)) by {
        lemma_standard(r, row[j], row, eps);
        let a = (r.of)(nn::standard(row[j], row, eps));
        let d = product(u, a);
        ideal::lemma_regroup(u, a, d);
        ideal::lemma_regroup(a, u, a);
        ideal::lemma_swap(a, u);
        ideal::lemma_regroup(u, a, a);
        ideal::lemma_regroup(u, u, product(a, a));
    }
    ideal::lemma_common_factor(z, sq, uu, n);
}

/// What is normalized is scaled and shifted, each place by its own numbers.
pub proof fn lemma_normed_row<S: Real>(
    r: Reading<S>,
    row: Seq<S>,
    gamma: Seq<S>,
    beta: Seq<S>,
    eps: S,
    j: int,
)
    requires
        faithful(r),
        0 <= j < row.len(),
    ensures
        (r.of)(nn::normed_row(row, gamma, beta, eps)[j]) == product(
            (r.of)(nn::standard(row[j], row, eps)),
            (r.of)(gamma[j]),
        ) + (r.of)(beta[j]),
{
    let z = nn::standard(row[j], row, eps);
    ideal::lemma_reads(r, z, gamma[j]);
    ideal::lemma_reads(r, z.spec_times(gamma[j]), beta[j]);
}

/// Each column cancels out after it was normalized over the batch.
pub proof fn lemma_batch_norm_cancels<S: Real>(r: Reading<S>, v: Value<S>, eps: S, f: int)
    requires
        faithful(r),
        v.shape.len() == 2,
        v.data.len() == v.shape[0] * v.shape[1],
        v.shape[0] > 0,
        0 <= f < v.shape[1],
        (r.of)(eps) > 0real,
    ensures
        rsum(
            |b: int| (r.of)(nn::batch_normed(v, eps).data[b * v.shape[1] + f]),
            v.shape[0] as int,
        ) == 0real,
{
    let w = v.shape[1] as int;
    let n = v.shape[0] as int;
    let column = nn::column_of(v, f);
    lemma_normalized_cancel(r, column, eps);
    let g = |j: int| (r.of)(nn::standard(column[j], column, eps));
    let h = |b: int| (r.of)(nn::batch_normed(v, eps).data[b * v.shape[1] + f]);
    assert forall|b: int| 0 <= b < n implies #[trigger] h(b) == g(b) by {
        multiplying::lemma_place(b, f, w);
        nn::lemma_row_in(b, n, w, v.data.len() as int);
    }
    ideal::lemma_rsum_agree(h, g, n);
}

/// Each row cancels out after it was normalized, where it is neither scaled nor shifted.
pub proof fn lemma_layer_norm_cancels<S: Real>(
    r: Reading<S>,
    v: Value<S>,
    gamma: Seq<S>,
    beta: Seq<S>,
    eps: S,
    rows: int,
    i: int,
)
    requires
        faithful(r),
        v.shape.len() > 0,
        v.shape.last() > 0,
        v.data.len() == rows * v.shape.last(),
        0 <= i < rows,
        (r.of)(eps) > 0real,
        forall|j: int| 0 <= j < v.shape.last() ==> (r.of)(#[trigger] gamma[j]) == 1real,
        forall|j: int| 0 <= j < v.shape.last() ==> (r.of)(#[trigger] beta[j]) == 0real,
    ensures
        rsum(
            |j: int|
                (r.of)(nn::layer_norm_value(v, gamma, beta, eps).data[i * v.shape.last() + j]),
            v.shape.last() as int,
        ) == 0real,
{
    let w = v.shape.last() as int;
    nn::lemma_row_in(i, rows, w, v.data.len() as int);
    let row = activations::row_at(v.data, w, i);
    lemma_normalized_cancel(r, row, eps);
    let g = |j: int| (r.of)(nn::standard(row[j], row, eps));
    let h = |j: int|
        (r.of)(nn::layer_norm_value(v, gamma, beta, eps).data[i * v.shape.last() + j]);
    assert forall|j: int| 0 <= j < w implies #[trigger] h(j) == g(j) by {
        multiplying::lemma_place(i, j, w);
        lemma_normed_row(r, row, gamma, beta, eps, j);
        assert((r.of)(gamma[j]) == 1real && (r.of)(beta[j]) == 0real);
        ideal::lemma_neutral(g(j));
    }
    ideal::lemma_rsum_agree(h, g, w);
}

} // verus!
