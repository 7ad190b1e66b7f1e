//! What products of matrices and linear layers are, for numbers without rounding.
use vstd::prelude::*;
use crate::activations;
use crate::blas;
use crate::blas::{Mat, Transpose, KC};
use crate::finetune;
use crate::finetune::LoraAdapter;
use crate::fused;
use crate::ideal;
use crate::ideal::{faithful, product, rsum, Reading};
use crate::nn;
use crate::nn::Module;
use crate::number;
use crate::number::{Number, Real};
use crate::tensor;
use crate::tensor::{Op, Value};

verus! {

/// The products of a row of a matrix and a column of another.
pub open spec fn pairs<S>(of: spec_fn(S) -> real, a: Mat<S>, b: Mat<S>, i: int, j: int) -> spec_fn(
    int,
) -> real {
    |p: int| product(of(a(i, p)), of(b(p, j)))
}

proof fn lemma_same<S: Real>(r: Reading<S>, a: S, b: S)
    requires
        faithful(r),
    ensures
        a.spec_same(b) == ((r.of)(a) == (r.of)(b)),
        (r.of)(S::spec_zero()) == 0real,
        (r.of)(S::spec_one()) == 1real,
{
    reveal(faithful);
}

proof fn lemma_small<S: Real>(r: Reading<S>, a: Mat<S>, b: Mat<S>, c0: S, i: int, j: int, p: int)
    requires
        faithful(r),
        0 <= p,
    ensures
        (r.of)(blas::small_acc(S::spec_one(), a, b, c0, i, j, p)) == (r.of)(c0) + rsum(
            pairs(r.of, a, b, i, j),
            p,
        ),
    decreases p,
{
    if p > 0 {
        lemma_small(r, a, b, c0, i, j, p - 1);
        let prev = blas::small_acc(S::spec_one(), a, b, c0, i, j, p - 1);
        let (x, y) = (a(i, p - 1), b(p - 1, j));
        lemma_same(r, x, S::spec_zero());
        ideal::lemma_neutral((r.of)(y));
        ideal::lemma_neutral((r.of)(x));
        let t = S::spec_one().spec_times(x);
        ideal::lemma_reads(r, S::spec_one(), x);
        ideal::lemma_reads(r, t, y);
        ideal::lemma_reads(r, prev, t.spec_times(y));
    }
}

proof fn lemma_panel<S: Real>(
    r: Reading<S>,
    tb: Transpose,
    a: Mat<S>,
    b: Mat<S>,
    i: int,
    j: int,
    lo: int,
    hi: int,
)
    requires
        faithful(r),
        0 <= lo <= hi,
    ensures
        (r.of)(blas::panel_sum(tb, S::spec_one(), a, b, i, j, lo, hi)) == rsum(
            pairs(r.of, a, b, i, j),
            hi,
        ) - rsum(pairs(r.of, a, b, i, j), lo),
    decreases hi - lo,
{
    lemma_same(r, S::spec_one(), S::spec_one());
    if lo < hi {
        lemma_panel(r, tb, a, b, i, j, lo, hi - 1);
        let prev = blas::panel_sum(tb, S::spec_one(), a, b, i, j, lo, hi - 1);
        let (x, y) = (a(i, hi - 1), b(hi - 1, j));
        let t = blas::packed(tb, S::spec_one(), y);
        ideal::lemma_reads(r, S::spec_one(), y);
        ideal::lemma_neutral((r.of)(y));
        ideal::lemma_reads(r, x, t);
        ideal::lemma_reads(r, prev, x.spec_times(t));
    }
}

proof fn lemma_blocked<S: Real>(
    r: Reading<S>,
    tb: Transpose,
    a: Mat<S>,
    b: Mat<S>,
    k: int,
    c0: S,
    i: int,
    j: int,
    q: int,
)
    requires
        faithful(r),
        0 <= q <= blas::panels(k),
        0 <= k,
    ensures
        (r.of)(blas::blocked_acc(tb, S::spec_one(), a, b, k, c0, i, j, q)) == (r.of)(c0) + rsum(
            pairs(r.of, a, b, i, j),
            if q * KC <= k {
                q * KC
            } else {
                k
            },
        ),
    decreases q,
{
    if q > 0 {
        lemma_blocked(r, tb, a, b, k, c0, i, j, q - 1);
        let (lo, hi) = (
            (q - 1) * KC,
            if q * KC <= k {
                q * KC
            } else {
                k
            },
        );
        lemma_panel(r, tb, a, b, i, j, lo, hi);
        ideal::lemma_reads(
            r,
            blas::blocked_acc(tb, S::spec_one(), a, b, k, c0, i, j, q - 1),
            blas::panel_sum(tb, S::spec_one(), a, b, i, j, lo, hi),
        );
    }
}

/// An entry of the product of two matrices is the sum of the products of a row and a column,
/// whichever way the sizes have it computed.
pub proof fn lemma_entry<S: Real>(
    r: Reading<S>,
    tb: Transpose,
    m: int,
    n: int,
    k: int,
    a: Mat<S>,
    b: Mat<S>,
    i: int,
    j: int,
)
    requires
        faithful(r),
        0 <= k,
    ensures
        (r.of)(blas::mat_product(tb, m, n, k, a, b)(i, j)) == rsum(pairs(r.of, a, b, i, j), k),
{
    let zero = S::spec_zero();
    lemma_same(r, zero, S::spec_one());
    lemma_same(r, S::spec_one(), zero);
    lemma_same(r, zero, zero);
    let s = blas::scaled(zero, zero);
    lemma_small(r, a, b, s, i, j, k);
    lemma_blocked(r, tb, a, b, k, s, i, j, blas::panels(k));
}

/// The row and the column of a place.
pub proof fn lemma_place(p: int, o: int, n: int)
    requires
        0 <= p,
        0 <= o < n,
    ensures
        blas::row_of(p * n + o, n) == p,
        blas::col_of(p * n + o, n) == o,
{
    vstd::arithmetic::div_mod::lemma_fundamental_div_mod_converse(p * n + o, n, p, o);
}

/// An element of the product of two matrices.
pub proof fn lemma_matmul<S: Real>(r: Reading<S>, a: Value<S>, b: Value<S>, i: int, j: int)
    requires
        faithful(r),
        a.shape.len() == 2,
        b.shape.len() == 2,
        0 <= i < a.shape[0],
        0 <= j < b.shape[1],
    ensures
        (r.of)(tensor::matmul_value(a, b).data[i * b.shape[1] + j]) == rsum(
            |p: int|
                product(
                    (r.of)(a.data[i * a.shape[1] + p]),
                    (r.of)(b.data[p * b.shape[1] + j]),
                ),
            a.shape[1] as int,
        ),
{
    let (m, k, n) = (a.shape[0] as int, a.shape[1] as int, b.shape[1] as int);
    lemma_entry(r, Transpose::NoTrans, m, n, k, a.mat(), b.mat(), i, j);
    lemma_place(i, j, n);
    nn::lemma_row_in(i, m, n, m * n);
    ideal::lemma_rsum_agree(
        pairs(r.of, a.mat(), b.mat(), i, j),
        |p: int|
            product((r.of)(a.data[i * a.shape[1] + p]), (r.of)(b.data[p * b.shape[1] + j])),
        k,
    );
}

proof fn lemma_transposed<S>(w: Value<S>, p: int, o: int)
    requires
        w.shape.len() == 2,
        0 <= o < w.shape[0],
        0 <= p < w.shape[1],
    ensures
        tensor::transpose_value(w).data[p * w.shape[0] + o] == w.data[o * w.shape[1] + p],
{
    let (rows, cols) = (w.shape[1] as int, w.shape[0] as int);
    lemma_place(p, o, cols);
    nn::lemma_row_in(p, rows, cols, rows * cols);
}

/// An element of the product with a transposed matrix.
pub proof fn lemma_matmul_transposed<S: Real>(r: Reading<S>, x: Value<S>, w: Value<S>, i: int, o: int)
    requires
        faithful(r),
        x.shape.len() == 2,
        w.shape.len() == 2,
        x.shape[1] == w.shape[1],
        0 <= i < x.shape[0],
        0 <= o < w.shape[0],
    ensures
        (r.of)(
            tensor::matmul_value(x, tensor::transpose_value(w)).data[i * w.shape[0] + o],
        ) == rsum(
            |p: int|
                product(
                    (r.of)(x.data[i * x.shape[1] + p]),
                    (r.of)(w.data[o * w.shape[1] + p]),
                ),
            w.shape[1] as int,
        ),
{
    let t = tensor::transpose_value(w);
    lemma_matmul(r, x, t, i, o);
    let f = |p: int|
        product((r.of)(x.data[i * x.shape[1] + p]), (r.of)(t.data[p * t.shape[1] + o]));
    let g = |p: int|
        product((r.of)(x.data[i * x.shape[1] + p]), (r.of)(w.data[o * w.shape[1] + p]));
    assert forall|p: int| 0 <= p < w.shape[1] implies #[trigger] f(p) == g(p) by {
        lemma_transposed(w, p, o);
    }
    ideal::lemma_rsum_agree(f, g, w.shape[1] as int);
}

/// A vector is added to each row of a matrix.
proof fn lemma_each_row<S: Real>(op: Op, m: Value<S>, b: Value<S>, i: int, o: int)
    requires
        m.shape.len() == 2,
        b.shape == seq![m.shape[1]],
        0 <= i < m.shape[0],
        0 <= o < m.shape[1],
    ensures
        tensor::zipped(op, m, b).data[i * m.shape[1] + o] == tensor::op_of(
            op,
            m.data[i * m.shape[1] + o],
            b.data[o],
        ),
        tensor::zipped(op, m, b).shape == m.shape,
{
    let (rows, w) = (m.shape[0], m.shape[1]);
    let x = i * w + o;
    let empty = Seq::<usize>::empty();
    assert(m.shape =~= seq![rows, w]);
    assert(b.shape.drop_last() =~= empty);
    assert(tensor::broadcast(m.shape.drop_last(), empty) == m.shape.drop_last());
    assert(tensor::broadcast(m.shape, b.shape) =~= m.shape);
    tensor::lemma_volume_two(rows, w);
    nn::lemma_row_in(i, rows as int, w as int, rows * w);
    lemma_place(i, o, w as int);
    tensor::lemma_source_identity(x, m.shape);
    assert(tensor::source(x / w as int, m.shape.drop_last(), empty) == 0);
    assert(tensor::source(x, m.shape, b.shape) == o);
}

/// An output of a linear layer is the sum of the inputs, each times its weight for that output,
/// plus what is added for the output.
pub proof fn lemma_linear<S: Real>(
    r: Reading<S>,
    w: Value<S>,
    b: Option<Value<S>>,
    x: Value<S>,
    i: int,
    o: int,
)
    requires
        faithful(r),
        w.shape.len() == 2,
        x.shape.len() >= 1,
        x.shape.last() == w.shape[1],
        b matches Some(b) ==> b.shape == seq![w.shape[0]],
        tensor::volume(x.shape.drop_last()) <= usize::MAX,
        0 <= i < tensor::volume(x.shape.drop_last()),
        0 <= o < w.shape[0],
    ensures
        (r.of)(nn::linear_value(w, b, x).data[i * w.shape[0] + o]) == rsum(
            |p: int|
                product(
                    (r.of)(x.data[i * w.shape[1] + p]),
                    (r.of)(w.data[o * w.shape[1] + p]),
                ),
            w.shape[1] as int,
        ) + (match b {
            Some(b) => (r.of)(b.data[o]),
            None => 0real,
        }),
{
    let f = nn::flat(x);
    lemma_matmul_transposed(r, f, w, i, o);
    ideal::lemma_rsum_agree(
        |p: int|
            product((r.of)(f.data[i * f.shape[1] + p]), (r.of)(w.data[o * w.shape[1] + p])),
        |p: int|
            product((r.of)(x.data[i * w.shape[1] + p]), (r.of)(w.data[o * w.shape[1] + p])),
        w.shape[1] as int,
    );
    let m = tensor::matmul_value(f, tensor::transpose_value(w));
    match b {
        Some(b) => {
            lemma_each_row(Op::Add, m, b, i, o);
            ideal::lemma_reads(r, m.data[i * w.shape[0] + o], b.data[o]);
        },
        None => {},
    }
}

/// Elements of two tensors of one shape, taken together.
pub proof fn lemma_pointwise<S: Real>(op: Op, a: Value<S>, b: Value<S>, x: int)
    requires
        a.shape == b.shape,
        0 <= x < tensor::volume(a.shape),
    ensures
        tensor::zipped(op, a, b).data[x] == tensor::op_of(op, a.data[x], b.data[x]),
        tensor::zipped(op, a, b).shape == a.shape,
{
    tensor::lemma_same_shape(a.shape);
    tensor::lemma_source_identity(x, a.shape);
}

/// One number taken with each element of a matrix.
proof fn lemma_each_element<S: Real>(op: Op, m: Value<S>, v: S, x: int)
    requires
        m.shape.len() == 2,
        0 <= x < tensor::volume(m.shape),
    ensures
        tensor::zipped(op, m, finetune::single(v)).data[x] == tensor::op_of(op, m.data[x], v),
        tensor::zipped(op, m, finetune::single(v)).shape == m.shape,
{
    let b = finetune::single(v);
    let empty = Seq::<usize>::empty();
    assert(b.shape.drop_last() =~= empty);
    assert(tensor::broadcast(m.shape.drop_last(), empty) == m.shape.drop_last());
    assert(tensor::broadcast(m.shape, b.shape) =~= m.shape);
    tensor::lemma_source_identity(x, m.shape);
    assert(tensor::source(x / m.shape.last() as int, m.shape.drop_last(), empty) == 0);
    assert(tensor::source(x, m.shape, b.shape) == 0);
}

/// Through the few and out again is the same as through the product of the two, times the scale.
proof fn lemma_through(
    x: spec_fn(int) -> real,
    a: spec_fn(int, int) -> real,
    b: spec_fn(int) -> real,
    s: real,
    n: int,
    k: int,
)
    ensures
        rsum(
            |p: int| product(x(p), product(rsum(|q: int| product(b(q), a(q, p)), k), s)),
            n,
        ) == product(
            rsum(|q: int| product(rsum(|p: int| product(x(p), a(q, p)), n), b(q)), k),
            s,
        ),
{
    let g = |p: int, q: int| product(x(p), product(b(q), a(q, p)));
    ideal::lemma_rsum_exchange(g, n, k);
    let inner = |p: int| rsum(|q: int| g(p, q), k);
    let outer = |q: int| rsum(|p: int| g(p, q), n);
    let left = |p: int| product(x(p), product(rsum(|q: int| product(b(q), a(q, p)), k), s));
    let right = |q: int| product(rsum(|p: int| product(x(p), a(q, p)), n), b(q));
    assert forall|p: int| 0 <= p < n implies #[trigger] left(p) == product(s, inner(p)) by {
        let d = |q: int| product(b(q), a(q, p));
        let f = |q: int| g(p, q);
        ideal::lemma_common_factor(d, f, x(p), k);
        let t = rsum(d, k);
        ideal::lemma_regroup(x(p), t, s);
        ideal::lemma_swap(product(x(p), t), s);
    }
    ideal::lemma_common_factor(inner, left, s, n);
    assert forall|q: int| 0 <= q < k implies #[trigger] right(q) == outer(q) by {
        let d = |p: int| product(x(p), a(q, p));
        let f = |p: int| g(p, q);
        assert forall|p: int| 0 <= p < n implies #[trigger] f(p) == product(b(q), d(p)) by {
            ideal::lemma_regroup(x(p), b(q), a(q, p));
            ideal::lemma_swap(x(p), b(q));
            ideal::lemma_regroup(b(q), x(p), a(q, p));
        }
        ideal::lemma_common_factor(d, f, b(q), n);
        ideal::lemma_swap(rsum(d, n), b(q));
    }
    ideal::lemma_rsum_agree(right, outer, k);
    ideal::lemma_rsum_agree(inner, |p: int| rsum(|q: int| g(p, q), k), n);
    ideal::lemma_rsum_agree(outer, |q: int| rsum(|p: int| g(p, q), n), k);
    ideal::lemma_swap(s, rsum(right, k));
}

/// What an adapter adds to an output, beside what the fixed weights give.
proof fn lemma_detour<S: Real>(r: Reading<S>, l: LoraAdapter<S>, x: Value<S>, i: int, o: int)
    requires
        faithful(r),
        l.wf(),
        x.shape.len() == 2,
        x.shape[1] == l.in_features,
        0 <= i < x.shape[0],
        0 <= o < l.out_features,
    ensures
        l.detour(x).shape == seq![x.shape[0], l.out_features],
        (r.of)(l.detour(x).data[i * l.out_features + o]) == product(
            rsum(
                |q: int|
                    product(
                        rsum(
                            |p: int|
                                product(
                                    (r.of)(x.data[i * l.in_features + p]),
                                    (r.of)(l.lora_a@.data[q * l.in_features + p]),
                                ),
                            l.in_features as int,
                        ),
                        (r.of)(l.lora_b@.data[o * l.rank + q]),
                    ),
                l.rank as int,
            ),
            (r.of)(l.scale()),
        ),
{
    let (a, b) = (l.lora_a@, l.lora_b@);
    let h = tensor::matmul_value(x, tensor::transpose_value(a));
    let m = tensor::matmul_value(h, tensor::transpose_value(b));
    assert(h.shape =~= seq![x.shape[0], l.rank]);
    assert(m.shape =~= seq![x.shape[0], l.out_features]);
    lemma_matmul_transposed(r, h, b, i, o);
    let f = |q: int|
        product(
            (r.of)(h.data[i * h.shape[1] + q]),
            (r.of)(b.data[o * b.shape[1] + q]),
        );
    let g = |q: int|
        product(
            rsum(
                |p: int|
                    product(
                        (r.of)(x.data[i * l.in_features + p]),
                        (r.of)(l.lora_a@.data[q * l.in_features + p]),
                    ),
                l.in_features as int,
            ),
            (r.of)(l.lora_b@.data[o * l.rank + q]),
        );
    assert forall|q: int| 0 <= q < l.rank implies #[trigger] f(q) == g(q) by {
        lemma_matmul_transposed(r, x, a, i, q);
        ideal::lemma_rsum_agree(
            |p: int|
                product((r.of)(x.data[i * x.shape[1] + p]), (r.of)(a.data[q * a.shape[1] + p])),
            |p: int|
                product(
                    (r.of)(x.data[i * l.in_features + p]),
                    (r.of)(l.lora_a@.data[q * l.in_features + p]),
                ),
            l.in_features as int,
        );
    }
    ideal::lemma_rsum_agree(f, g, l.rank as int);
    let y = i * l.out_features + o;
    tensor::lemma_volume_two(x.shape[0], l.out_features);
    nn::lemma_row_in(
        i,
        x.shape[0] as int,
        l.out_features as int,
        x.shape[0] * l.out_features,
    );
    lemma_each_element(Op::Mul, m, l.scale(), y);
    ideal::lemma_reads(r, m.data[y], l.scale());
}

/// A weight after merging.
proof fn lemma_merged_weight<S: Real>(r: Reading<S>, l: LoraAdapter<S>, o: int, p: int)
    requires
        faithful(r),
        l.wf(),
        0 <= p < l.in_features,
        0 <= o < l.out_features,
    ensures
        tensor::zipped(Op::Add, l.frozen_weight@, l.delta()).shape == l.frozen_weight@.shape,
        (r.of)(
            tensor::zipped(Op::Add, l.frozen_weight@, l.delta()).data[o * l.in_features + p],
        ) == (r.of)(l.frozen_weight@.data[o * l.in_features + p]) + product(
            rsum(
                |q: int|
                    product(
                        (r.of)(l.lora_b@.data[o * l.rank + q]),
                        (r.of)(l.lora_a@.data[q * l.in_features + p]),
                    ),
                l.rank as int,
            ),
            (r.of)(l.scale()),
        ),
{
    let (a, b, w) = (l.lora_a@, l.lora_b@, l.frozen_weight@);
    let m = tensor::matmul_value(b, a);
    assert(m.shape =~= w.shape);
    lemma_matmul(r, b, a, o, p);
    ideal::lemma_rsum_agree(
        |q: int| product((r.of)(b.data[o * b.shape[1] + q]), (r.of)(a.data[q * a.shape[1] + p])),
        |q: int|
            product(
                (r.of)(l.lora_b@.data[o * l.rank + q]),
                (r.of)(l.lora_a@.data[q * l.in_features + p]),
            ),
        l.rank as int,
    );
    let y = o * l.in_features + p;
    tensor::lemma_volume_two(l.out_features, l.in_features);
    nn::lemma_row_in(
        o,
        l.out_features as int,
        l.in_features as int,
        l.out_features * l.in_features,
    );
    lemma_each_element(Op::Mul, m, l.scale(), y);
    ideal::lemma_reads(r, m.data[y], l.scale());
    let d = l.delta();
    lemma_pointwise(Op::Add, w, d, y);
    ideal::lemma_reads(r, w.data[y], d.data[y]);
}

/// What is added to the outputs of an adapter.
pub open spec fn bias_of<S>(l: LoraAdapter<S>) -> Option<Value<S>> {
    match l.bias {
        Some(b) => Some(b@),
        None => None,
    }
}

/// Merging changes nothing: a linear layer with the merged weights gives what the adapter gives.
pub proof fn lemma_merging_keeps_outputs<S: Real>(
    r: Reading<S>,
    l: LoraAdapter<S>,
    x: Value<S>,
    i: int,
    o: int,
)
    requires
        faithful(r),
        l.wf(),
        x.wf(),
        l.accepts(x),
        0 <= i < x.shape[0],
        0 <= o < l.out_features,
    ensures
        (r.of)(l.output(x).data[i * l.out_features + o]) == (r.of)(
            nn::linear_value(
                tensor::zipped(Op::Add, l.frozen_weight@, l.delta()),
                bias_of(l),
                x,
            ).data[i * l.out_features + o],
        ),
{
    let (n, k, out) = (l.in_features as int, l.rank as int, l.out_features as int);
    let y = i * l.out_features + o;
    let w = l.frozen_weight@;
    let (base, detour) = (l.base(x), l.detour(x));
    tensor::lemma_volume_two(x.shape[0], l.out_features);
    nn::lemma_row_in(i, x.shape[0] as int, out, x.shape[0] * l.out_features);
    // The adapter.
    lemma_base(r, l, x, i, o);
    lemma_detour(r, l, x, i, o);
    lemma_pointwise(Op::Add, base, detour, y);
    ideal::lemma_reads(r, base.data[y], detour.data[y]);
    // The merged weights.
    let merged = tensor::zipped(Op::Add, w, l.delta());
    let xs = |p: int| (r.of)(x.data[i * l.in_features + p]);
    let ar = |q: int, p: int| (r.of)(l.lora_a@.data[q * l.in_features + p]);
    let br = |q: int| (r.of)(l.lora_b@.data[o * l.rank + q]);
    let s = (r.of)(l.scale());
    let ws = |p: int|
        product((r.of)(x.data[i * l.in_features + p]), (r.of)(w.data[o * l.in_features + p]));
    let extra = |p: int| product(xs(p), product(rsum(|q: int| product(br(q), ar(q, p)), k), s));
    tensor::lemma_same_shape(w.shape);
    lemma_delta_shape(l);
    assert(x.shape.drop_last() =~= seq![x.shape[0]]);
    lemma_linear(r, merged, bias_of(l), x, i, o);
    let all = |p: int|
        product(
            (r.of)(x.data[i * merged.shape[1] + p]),
            (r.of)(merged.data[o * merged.shape[1] + p]),
        );
    assert forall|p: int| 0 <= p < n implies #[trigger] all(p) == ws(p) + extra(p) by {
        lemma_merged_weight(r, l, o, p);
        ideal::lemma_rsum_agree(
            |q: int|
                product(
                    (r.of)(l.lora_b@.data[o * l.rank + q]),
                    (r.of)(l.lora_a@.data[q * l.in_features + p]),
                ),
            |q: int| product(br(q), ar(q, p)),
            k,
        );
        ideal::lemma_spread(
            xs(p),
            (r.of)(w.data[o * l.in_features + p]),
            product(rsum(|q: int| product(br(q), ar(q, p)), k), s),
        );
    }
    ideal::lemma_rsum_plus(ws, extra, all, n);
    // The sums in either order.
    lemma_through(xs, ar, br, s, n, k);
    ideal::lemma_rsum_agree(
        extra,
        |p: int| product(xs(p), product(rsum(|q: int| product(br(q), ar(q, p)), k), s)),
        n,
    );
    let f = |q: int| product(rsum(|p: int| product(xs(p), ar(q, p)), n), br(q));
    let g = |q: int|
        product(
            rsum(
                |p: int|
                    product(
                        (r.of)(x.data[i * l.in_features + p]),
                        (r.of)(l.lora_a@.data[q * l.in_features + p]),
                    ),
                l.in_features as int,
            ),
            (r.of)(l.lora_b@.data[o * l.rank + q]),
        );
    assert forall|q: int| 0 <= q < k implies #[trigger] f(q) == g(q) by {
        ideal::lemma_rsum_agree(
            |p: int| product(xs(p), ar(q, p)),
            |p: int|
                product(
                    (r.of)(x.data[i * l.in_features + p]),
                    (r.of)(l.lora_a@.data[q * l.in_features + p]),
                ),
            n,
        );
    }
    ideal::lemma_rsum_agree(f, g, k);
}

proof fn lemma_delta_shape<S: Real>(l: LoraAdapter<S>)
    requires
        l.wf(),
    ensures
        l.delta().shape == l.frozen_weight@.shape,
        tensor::zipped(Op::Add, l.frozen_weight@, l.delta()).shape == l.frozen_weight@.shape,
{
    let m = tensor::matmul_value(l.lora_b@, l.lora_a@);
    let b = finetune::single(l.scale());
    let empty = Seq::<usize>::empty();
    assert(m.shape =~= l.frozen_weight@.shape);
    assert(b.shape.drop_last() =~= empty);
    assert(tensor::broadcast(m.shape.drop_last(), empty) == m.shape.drop_last());
    assert(tensor::broadcast(m.shape, b.shape) =~= m.shape);
    tensor::lemma_same_shape(m.shape);
}

/// What the fixed weights of an adapter give.
proof fn lemma_base<S: Real>(r: Reading<S>, l: LoraAdapter<S>, x: Value<S>, i: int, o: int)
    requires
        faithful(r),
        l.wf(),
        x.shape.len() == 2,
        x.shape[1] == l.in_features,
        0 <= i < x.shape[0],
        0 <= o < l.out_features,
    ensures
        l.base(x).shape == seq![x.shape[0], l.out_features],
        (r.of)(l.base(x).data[i * l.out_features + o]) == rsum(
            |p: int|
                product(
                    (r.of)(x.data[i * l.in_features + p]),
                    (r.of)(l.frozen_weight@.data[o * l.in_features + p]),
                ),
            l.in_features as int,
        ) + (match bias_of(l) {
            Some(b) => (r.of)(b.data[o]),
            None => 0real,
        }),
{
    let w = l.frozen_weight@;
    let m = tensor::matmul_value(x, tensor::transpose_value(w));
    assert(m.shape =~= seq![x.shape[0], l.out_features]);
    lemma_matmul_transposed(r, x, w, i, o);
    ideal::lemma_rsum_agree(
        |p: int| product((r.of)(x.data[i * x.shape[1] + p]), (r.of)(w.data[o * w.shape[1] + p])),
        |p: int|
            product(
                (r.of)(x.data[i * l.in_features + p]),
                (r.of)(l.frozen_weight@.data[o * l.in_features + p]),
            ),
        l.in_features as int,
    );
    match l.bias {
        Some(b) => {
            lemma_each_row(Op::Add, m, b@, i, o);
            ideal::lemma_reads(r, m.data[i * l.out_features + o], b@.data[o]);
        },
        None => {},
    }
}

/// An output of a fused layer, before what is applied to it, is that of a linear layer.
pub proof fn lemma_fused_entry<S: Real>(
    r: Reading<S>,
    x: Value<S>,
    w: Value<S>,
    bias: Option<Seq<S>>,
    i: int,
    o: int,
)
    requires
        faithful(r),
        x.shape.len() == 2,
        w.shape.len() == 2,
        x.shape[1] == w.shape[1],
        x.data.len() == x.shape[0] * x.shape[1],
        w.data.len() == w.shape[0] * w.shape[1],
        0 <= i < x.shape[0],
        0 <= o < w.shape[0],
    ensures
        (r.of)(fused::fused_entry(x, w, bias, i, o)) == rsum(
            |p: int|
                product(
                    (r.of)(x.data[i * w.shape[1] + p]),
                    (r.of)(w.data[o * w.shape[1] + p]),
                ),
            w.shape[1] as int,
        ) + (match bias {
            Some(b) => (r.of)(b[o]),
            None => 0real,
        }),
{
    let d = x.shape[1] as int;
    nn::lemma_row_in(i, x.shape[0] as int, d, x.data.len() as int);
    nn::lemma_row_in(o, w.shape[0] as int, d, w.data.len() as int);
    let (a, b) = (activations::row_at(x.data, d, i), activations::row_at(w.data, d, o));
    let f = |p: int| a[p].spec_times(b[p]);
    let g = |p: int|
        product((r.of)(x.data[i * w.shape[1] + p]), (r.of)(w.data[o * w.shape[1] + p]));
    ideal::lemma_reads_sum(r, f, d);
    let h = ideal::read(r.of, f);
    assert forall|p: int| 0 <= p < d implies #[trigger] h(p) == g(p) by {
        ideal::lemma_reads(r, a[p], b[p]);
    }
    ideal::lemma_rsum_agree(h, g, d);
    assert(nn::inner(a, b) == number::sum_n(f, d));
    match bias {
        Some(c) => {
            ideal::lemma_reads(r, nn::inner(a, b), c[o]);
        },
        None => {},
    }
}

} // verus!
