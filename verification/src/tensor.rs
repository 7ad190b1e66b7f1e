//! Tensors: numbers in row-major order together with a shape.
use vstd::prelude::*;
use crate::blas;
use crate::blas::{fresh_product, Mat, Transpose};
use crate::number;
use crate::number::{filled, Number};

verus! {

/// The number of elements of a tensor of the given shape.
pub open spec fn volume(shape: Seq<usize>) -> int
    decreases shape.len(),
{
    if shape.len() == 0 {
        1
    } else {
        volume(shape.drop_last()) * shape.last()
    }
}

/// The elements can be counted axis by axis.
pub open spec fn countable(shape: Seq<usize>) -> bool
    decreases shape.len(),
{
    volume(shape) <= usize::MAX && (shape.len() > 0 ==> countable(shape.drop_last()))
}

pub(crate) proof fn lemma_volume_nonneg(shape: Seq<usize>)
    ensures
        0 <= volume(shape),
    decreases shape.len(),
{
    if shape.len() > 0 {
        lemma_volume_nonneg(shape.drop_last());
        assert(0 <= volume(shape.drop_last()) * shape.last()) by (nonlinear_arith)
            requires
                0 <= volume(shape.drop_last()),
                0 <= shape.last(),
        ;
    }
}

/// The volume of a matrix shape.
pub proof fn lemma_volume_two(a: usize, b: usize)
    ensures
        volume(seq![a, b]) == a * b,
        volume(seq![a]) == a,
        a * b <= usize::MAX ==> countable(seq![a, b]),
        countable(seq![a]),
{
    assert(seq![a, b].drop_last() =~= seq![a]);
    assert(seq![a].drop_last() =~= Seq::<usize>::empty());
    assert(volume(Seq::<usize>::empty()) == 1);
    assert(volume(seq![a]) == 1 * a);
    assert(seq![a, b].last() == b);
    reveal_with_fuel(countable, 3);
}

/// A tensor with an optional gradient.
#[derive(Debug, Clone)]
pub struct Tensor<S> {
    /// The elements, the last axis varying fastest.
    pub data: Vec<S>,
    /// The length of each axis.
    pub shape: Vec<usize>,
    /// Whether a gradient is wanted.
    pub requires_grad: bool,
    /// The gradient, in the order of the elements.
    pub grad: Option<Vec<S>>,
}

/// The gradient as a sequence.
pub open spec fn grad_of<S>(g: Option<Vec<S>>) -> Option<Seq<S>> {
    match g {
        Some(v) => Some(v@),
        None => None,
    }
}

/// The elements and the shape of a tensor.
#[verifier::ext_equal]
pub struct Value<S> {
    pub data: Seq<S>,
    pub shape: Seq<usize>,
}

impl<S> Value<S> {
    /// There are as many elements as the shape says, and they can be counted.
    pub open spec fn wf(self) -> bool {
        self.data.len() == volume(self.shape) && countable(self.shape)
    }

    /// The elements as a matrix with as many columns as the last axis is long.
    pub open spec fn mat(self) -> Mat<S> {
        blas::operand(Transpose::NoTrans, self.data, self.shape.last() as int)
    }

    pub open spec fn is_matrix(self) -> bool {
        self.shape.len() == 2
    }
}

impl<S> View for Tensor<S> {
    type V = Value<S>;

    open spec fn view(&self) -> Value<S> {
        Value { data: self.data@, shape: self.shape@ }
    }
}

impl<S> Tensor<S> {
    /// There are as many elements as the shape says, and as many in the gradient.
    pub open spec fn wf(&self) -> bool {
        &&& self@.wf()
        &&& self.grad matches Some(g) ==> g@.len() == self.data@.len()
    }
}

/// The number of elements of a tensor of the given shape.
pub fn count_of(shape: &[usize]) -> (r: usize)
    requires
        countable(shape@),
    ensures
        r == volume(shape@),
{
    let mut n: usize = 1;
    assert(shape@.take(0) =~= Seq::<usize>::empty());
    for i in 0..shape.len()
        invariant
            n == volume(shape@.take(i as int)),
            countable(shape@),
    {
        proof {
            assert(shape@.take(i + 1).drop_last() =~= shape@.take(i as int));
            lemma_countable_prefix(shape@, i + 1);
        }
        n = n * shape[i];
    }
    assert(shape@.take(shape@.len() as int) =~= shape@);
    n
}

pub(crate) proof fn lemma_countable_prefix(shape: Seq<usize>, k: int)
    requires
        countable(shape),
        0 <= k <= shape.len(),
    ensures
        countable(shape.take(k)),
    decreases shape.len(),
{
    if k < shape.len() {
        lemma_countable_prefix(shape.drop_last(), k);
        assert(shape.drop_last().take(k) =~= shape.take(k));
    } else {
        assert(shape.take(k) =~= shape);
    }
}

/// A copy of numbers.
pub fn copy_slice<T: Copy>(v: &[T]) -> (r: Vec<T>)
    ensures
        r@ == v@,
{
    let mut r: Vec<T> = Vec::new();
    for i in 0..v.len()
        invariant
            r@ =~= v@.take(i as int),
    {
        r.push(v[i]);
    }
    r
}

impl<S: Number> Tensor<S> {
    /// A tensor of the given elements and shape.
    pub fn new(data: Vec<S>, shape: Vec<usize>, requires_grad: bool) -> (r: Self)
        requires
            data@.len() == volume(shape@),
            countable(shape@),
        ensures
            r.wf(),
            r.data == data,
            r.shape == shape,
            r.requires_grad == requires_grad,
            r.grad is None,
    {
        Tensor { data, shape, requires_grad, grad: None }
    }

    /// A tensor of the given elements and shape, for which no gradient is wanted.
    pub fn from_vec(data: Vec<S>, shape: Vec<usize>) -> (r: Self)
        requires
            data@.len() == volume(shape@),
            countable(shape@),
        ensures
            r.wf(),
            r.data == data,
            r.shape == shape,
            !r.requires_grad,
            r.grad is None,
    {
        Tensor { data, shape, requires_grad: false, grad: None }
    }

    /// A tensor with all elements equal.
    pub fn constant(shape: &[usize], v: S, requires_grad: bool) -> (r: Self)
        requires
            countable(shape@),
        ensures
            r.wf(),
            r@ == (Value::<S> {
                data: Seq::new(volume(shape@) as nat, |i: int| v),
                shape: shape@,
            }),
            r.requires_grad == requires_grad,
            r.grad is None,
    {
        let n: usize = count_of(shape);
        Tensor { data: filled(v, n), shape: copy_slice(shape), requires_grad, grad: None }
    }

    pub fn zeros(shape: &[usize]) -> (r: Self)
        requires
            countable(shape@),
        ensures
            r.wf(),
            r@ == (Value::<S> {
                data: Seq::new(volume(shape@) as nat, |i: int| S::spec_zero()),
                shape: shape@,
            }),
            !r.requires_grad,
            r.grad is None,
    {
        Self::constant(shape, S::zero(), false)
    }

    /// A copy without the gradient.
    pub fn duplicate(&self) -> (r: Self)
        ensures
            r@ == self@,
            r.requires_grad == self.requires_grad,
            r.grad is None,
    {
        Tensor {
            data: copy_slice(&self.data),
            shape: copy_slice(&self.shape),
            requires_grad: self.requires_grad,
            grad: None,
        }
    }

    pub fn shape(&self) -> (r: Vec<usize>)
        ensures
            r@ == self.shape@,
    {
        copy_slice(&self.shape)
    }

    /// The number of axes.
    pub fn ndim(&self) -> (r: usize)
        ensures
            r == self.shape@.len(),
    {
        self.shape.len()
    }

    /// The number of elements.
    pub fn len(&self) -> (r: usize)
        ensures
            r == self.data@.len(),
    {
        self.data.len()
    }

    pub fn is_empty(&self) -> (r: bool)
        ensures
            r == (self.data@.len() == 0),
    {
        self.data.len() == 0
    }

    /// The same elements in another shape.
    pub fn reshape(&self, shape: &[usize]) -> (r: Self)
        requires
            self.wf(),
            countable(shape@),
            volume(shape@) == volume(self.shape@),
        ensures
            r.wf(),
            r@ == (Value::<S> { data: self.data@, shape: shape@ }),
            r.requires_grad == self.requires_grad,
    {
        Tensor {
            data: copy_slice(&self.data),
            shape: copy_slice(shape),
            requires_grad: self.requires_grad,
            grad: None,
        }
    }
}

/// A matrix in contiguous storage.
pub open spec fn matrix_data<S>(a: Mat<S>, m: int, n: int) -> Seq<S> {
    Seq::new((m * n) as nat, |x: int| a(blas::row_of(x, n), blas::col_of(x, n)))
}

/// What holds a matrix is its storage.
pub proof fn lemma_matrix_data<S>(v: Seq<S>, a: Mat<S>, m: int, n: int)
    requires
        blas::holds(v, a, m, n),
        0 <= m,
        0 <= n,
    ensures
        v == matrix_data(a, m, n),
{
    blas::lemma_holds_at(v, a, m, n);
    assert(v =~= matrix_data(a, m, n));
}

/// The product of two matrices.
pub open spec fn matmul_value<S: Number>(a: Value<S>, b: Value<S>) -> Value<S> {
    let (m, k, n) = (a.shape[0] as int, a.shape[1] as int, b.shape[1] as int);
    Value {
        data: matrix_data(
            blas::mat_product(Transpose::NoTrans, m, n, k, a.mat(), b.mat()),
            m,
            n,
        ),
        shape: seq![a.shape[0], b.shape[1]],
    }
}

/// The transpose of a matrix.
pub open spec fn transpose_value<S>(a: Value<S>) -> Value<S> {
    Value {
        data: matrix_data(
            blas::transposed(a.mat()),
            a.shape[1] as int,
            a.shape[0] as int,
        ),
        shape: seq![a.shape[1], a.shape[0]],
    }
}

/// The sizes of two matrices allow their product, and it can be counted.
pub open spec fn matmul_fits<S>(a: Value<S>, b: Value<S>) -> bool {
    &&& a.is_matrix() && b.is_matrix()
    &&& a.shape[1] == b.shape[0]
    &&& a.shape[0] * b.shape[1] <= usize::MAX
}

proof fn lemma_matrix_volume<S>(a: Value<S>)
    requires
        a.wf(),
        a.is_matrix(),
    ensures
        a.data.len() == a.shape[0] * a.shape[1],
{
    lemma_volume_two(a.shape[0], a.shape[1]);
    assert(a.shape =~= seq![a.shape[0], a.shape[1]]);
}

impl<S: Number> Tensor<S> {
    /// The product of two matrices.
    pub fn matmul(&self, other: &Self) -> (r: Self)
        requires
            self.wf(),
            other.wf(),
            matmul_fits(self@, other@),
        ensures
            r.wf(),
            r@ == matmul_value(self@, other@),
            r.requires_grad == (self.requires_grad || other.requires_grad),
    {
        let m: usize = self.shape[0];
        let k: usize = self.shape[1];
        let n: usize = other.shape[1];
        proof {
            lemma_matrix_volume(self@);
            lemma_matrix_volume(other@);
            blas::lemma_contiguous(m as int, k as int);
            blas::lemma_contiguous(k as int, n as int);
            lemma_volume_two(m, n);
        }
        let data = fresh_product(
            Transpose::NoTrans,
            Transpose::NoTrans,
            m,
            n,
            k,
            &self.data,
            k,
            &other.data,
            n,
            Ghost(self@.mat()),
            Ghost(other@.mat()),
        );
        proof {
            lemma_matrix_data(
                data@,
                blas::mat_product(
                    Transpose::NoTrans,
                    m as int,
                    n as int,
                    k as int,
                    self@.mat(),
                    other@.mat(),
                ),
                m as int,
                n as int,
            );
        }
        let shape: Vec<usize> = vec![m, n];
        assert(shape@ =~= seq![m, n]);
        Tensor {
            data,
            shape,
            requires_grad: self.requires_grad || other.requires_grad,
            grad: None,
        }
    }

    /// The transpose of a matrix.
    #[verifier::loop_isolation(false)]
    pub fn transpose(&self) -> (r: Self)
        requires
            self.wf(),
            self@.is_matrix(),
        ensures
            r.wf(),
            r@ == transpose_value(self@),
            r.requires_grad == self.requires_grad,
    {
        let m: usize = self.shape[0];
        let n: usize = self.shape[1];
        let ghost (mi, ni) = (m as int, n as int);
        let ghost t = blas::transposed(self@.mat());
        proof {
            lemma_matrix_volume(self@);
            assert(m * n == n * m) by (nonlinear_arith);
            lemma_volume_two(n, m);
            assert(0 * m == 0) by (nonlinear_arith);
        }
        let len: usize = self.data.len();
        let mut data: Vec<S> = Vec::new();
        for j in 0..n
            invariant
                data@.len() == j * m,
                forall|x: int|
                    0 <= x < j * m ==> #[trigger] data@[x] == t(
                        blas::row_of(x, mi),
                        blas::col_of(x, mi),
                    ),
        {
            for i in 0..m
                invariant
                    data@.len() == j * m + i,
                    forall|x: int|
                        0 <= x < j * m + i ==> #[trigger] data@[x] == t(
                            blas::row_of(x, mi),
                            blas::col_of(x, mi),
                        ),
            {
                proof {
                    blas::lemma_in_storage(i as int, j as int, mi, ni);
                    blas::lemma_row_fits(i as int, mi, ni);
                    blas::lemma_cell(j as int, i as int, mi);
                }
                data.push(self.data[i * n + j]);
            }
            assert(j * m + m == (j + 1) * m) by (nonlinear_arith);
        }
        proof {
            blas::lemma_holds_from(data@, t, ni, mi);
            lemma_matrix_data(data@, t, ni, mi);
        }
        let shape: Vec<usize> = vec![n, m];
        assert(shape@ =~= seq![n, m]);
        Tensor { data, shape, requires_grad: self.requires_grad, grad: None }
    }
}

/// Whether two shapes can be broadcast together: axis by axis from the last, equal or one.
pub open spec fn broadcastable(a: Seq<usize>, b: Seq<usize>) -> bool
    decreases a.len(),
{
    if a.len() == 0 || b.len() == 0 {
        true
    } else {
        (a.last() == b.last() || a.last() == 1 || b.last() == 1) && broadcastable(
            a.drop_last(),
            b.drop_last(),
        )
    }
}

/// The shape that two shapes are broadcast to.
pub open spec fn broadcast(a: Seq<usize>, b: Seq<usize>) -> Seq<usize>
    decreases a.len(),
{
    if a.len() == 0 {
        b
    } else if b.len() == 0 {
        a
    } else {
        broadcast(a.drop_last(), b.drop_last()).push(
            if a.last() == 1 {
                b.last()
            } else {
                a.last()
            },
        )
    }
}

/// Where the element at position `x` of a broadcast tensor comes from.
pub open spec fn source(x: int, out: Seq<usize>, a: Seq<usize>) -> int
    decreases a.len(),
{
    if a.len() == 0 {
        0
    } else {
        source(x / out.last() as int, out.drop_last(), a.drop_last()) * a.last() + (if a.last()
            == 1 {
            0
        } else {
            x % out.last() as int
        })
    }
}

/// Every axis of `a`, from the last, is that of `out` or one.
pub open spec fn spreads(a: Seq<usize>, out: Seq<usize>) -> bool
    decreases a.len(),
{
    a.len() == 0 || (out.len() > 0 && (a.last() == out.last() || a.last() == 1) && spreads(
        a.drop_last(),
        out.drop_last(),
    ))
}

proof fn lemma_spreads_self(a: Seq<usize>)
    ensures
        spreads(a, a),
    decreases a.len(),
{
    if a.len() > 0 {
        lemma_spreads_self(a.drop_last());
    }
}

proof fn lemma_spreads(a: Seq<usize>, b: Seq<usize>)
    requires
        broadcastable(a, b),
    ensures
        spreads(a, broadcast(a, b)),
        spreads(b, broadcast(a, b)),
    decreases a.len(),
{
    if a.len() == 0 {
        lemma_spreads_self(b);
    } else if b.len() == 0 {
        lemma_spreads_self(a);
    } else {
        lemma_spreads(a.drop_last(), b.drop_last());
        let out = broadcast(a, b);
        assert(out.drop_last() =~= broadcast(a.drop_last(), b.drop_last()));
    }
}

/// A source position lies within its tensor.
proof fn lemma_source(x: int, out: Seq<usize>, a: Seq<usize>)
    requires
        spreads(a, out),
        0 <= x < volume(out),
    ensures
        0 <= source(x, out, a) < volume(a),
    decreases a.len(),
{
    if a.len() > 0 {
        let w = out.last() as int;
        let v = volume(out.drop_last());
        lemma_volume_nonneg(out.drop_last());
        assert(w > 0) by (nonlinear_arith)
            requires
                0 <= x < v * w,
                0 <= v,
                0 <= w,
        ;
        vstd::arithmetic::div_mod::lemma_fundamental_div_mod(x, w);
        let (q, r) = (x / w, x % w);
        assert(0 <= q < v) by (nonlinear_arith)
            requires
                x == w * q + r,
                0 <= r < w,
                0 <= x < v * w,
        ;
        lemma_source(q, out.drop_last(), a.drop_last());
        let (s, n, k) = (
            source(q, out.drop_last(), a.drop_last()),
            volume(a.drop_last()),
            a.last() as int,
        );
        let i = if k == 1 {
            0
        } else {
            r
        };
        assert(0 <= s * k + i < n * k) by (nonlinear_arith)
            requires
                0 <= s < n,
                0 <= i < k,
        ;
    }
}

fn broadcast_shape(a: &[usize], b: &[usize]) -> (r: Vec<usize>)
    ensures
        r@ == broadcast(a@, b@),
    decreases a@.len(),
{
    if a.len() == 0 {
        copy_slice(b)
    } else if b.len() == 0 {
        copy_slice(a)
    } else {
        let n: usize = a.len() - 1;
        let m: usize = b.len() - 1;
        let aa = vstd::slice::slice_subrange(a, 0, n);
        let bb = vstd::slice::slice_subrange(b, 0, m);
        assert(aa@ =~= a@.drop_last());
        assert(bb@ =~= b@.drop_last());
        let mut r = broadcast_shape(aa, bb);
        r.push(
            if a[n] == 1 {
                b[m]
            } else {
                a[n]
            },
        );
        r
    }
}

/// Where the element at position `x` of a broadcast tensor comes from.
fn source_of(x: usize, out: &[usize], a: &[usize]) -> (r: usize)
    requires
        spreads(a@, out@),
        countable(a@),
        0 <= x < volume(out@),
    ensures
        r == source(x as int, out@, a@),
        r < volume(a@),
    decreases a@.len(),
{
    proof {
        lemma_source(x as int, out@, a@);
    }
    if a.len() == 0 {
        0
    } else {
        let n: usize = a.len() - 1;
        let m: usize = out.len() - 1;
        let aa = vstd::slice::slice_subrange(a, 0, n);
        let oo = vstd::slice::slice_subrange(out, 0, m);
        assert(aa@ =~= a@.drop_last());
        assert(oo@ =~= out@.drop_last());
        let w: usize = out[m];
        let k: usize = a[n];
        proof {
            lemma_volume_nonneg(oo@);
            let v = volume(oo@);
            assert(w > 0) by (nonlinear_arith)
                requires
                    0 <= x < v * w,
                    0 <= v,
                    0 <= w,
            ;
            vstd::arithmetic::div_mod::lemma_fundamental_div_mod(x as int, w as int);
            let (q, r) = (x as int / w as int, x as int % w as int);
            assert(0 <= q < v) by (nonlinear_arith)
                requires
                    x == w * q + r,
                    0 <= r < w,
                    0 <= x < v * w,
            ;
        }
        let s: usize = source_of(x / w, oo, aa);
        proof {
            let nn = volume(aa@);
            assert(s * k <= nn * k) by (nonlinear_arith)
                requires
                    0 <= s < nn,
                    0 <= k,
            ;
        }
        s * k + (if k == 1 {
            0
        } else {
            x % w
        })
    }
}

/// An operation on two numbers.
#[derive(Debug, Clone, Copy, PartialEq, Eq, Structural)]
pub enum Op {
    Add,
    Sub,
    Mul,
}

pub open spec fn op_of<S: Number>(op: Op, x: S, y: S) -> S {
    match op {
        Op::Add => x.spec_plus(y),
        Op::Sub => x.spec_minus(y),
        Op::Mul => x.spec_times(y),
    }
}

/// The two tensors can be broadcast together, and the result can be counted.
pub open spec fn zips<S>(a: Value<S>, b: Value<S>) -> bool {
    broadcastable(a.shape, b.shape) && countable(broadcast(a.shape, b.shape))
}

/// An operation on two tensors, element by element, with broadcasting.
pub open spec fn zipped<S: Number>(op: Op, a: Value<S>, b: Value<S>) -> Value<S> {
    let out = broadcast(a.shape, b.shape);
    Value {
        data: Seq::new(
            volume(out) as nat,
            |x: int|
                op_of(op, a.data[source(x, out, a.shape)], b.data[source(x, out, b.shape)]),
        ),
        shape: out,
    }
}

impl<S: Number> Tensor<S> {
    /// An operation on two tensors, element by element, with broadcasting.
    pub fn zip(&self, op: Op, other: &Self) -> (r: Self)
        requires
            self.wf(),
            other.wf(),
            zips(self@, other@),
        ensures
            r.wf(),
            r@ == zipped(op, self@, other@),
            r.requires_grad == (self.requires_grad || other.requires_grad),
    {
        let shape = broadcast_shape(&self.shape, &other.shape);
        let n: usize = count_of(&shape);
        let mut data: Vec<S> = Vec::new();
        proof {
            lemma_spreads(self.shape@, other.shape@);
        }
        for x in 0..n
            invariant
                self.wf(),
                other.wf(),
                spreads(self.shape@, shape@),
                spreads(other.shape@, shape@),
                n == volume(shape@),
                data@ =~= Seq::new(
                    x as nat,
                    |y: int|
                        op_of(
                            op,
                            self.data@[source(y, shape@, self.shape@)],
                            other.data@[source(y, shape@, other.shape@)],
                        ),
                ),
        {
            let i: usize = source_of(x, &shape, &self.shape);
            let j: usize = source_of(x, &shape, &other.shape);
            let v = match op {
                Op::Add => self.data[i].plus(other.data[j]),
                Op::Sub => self.data[i].minus(other.data[j]),
                Op::Mul => self.data[i].times(other.data[j]),
            };
            data.push(v);
        }
        Tensor {
            data,
            shape,
            requires_grad: self.requires_grad || other.requires_grad,
            grad: None,
        }
    }

    pub fn add(&self, other: &Self) -> (r: Self)
        requires
            self.wf(),
            other.wf(),
            zips(self@, other@),
        ensures
            r.wf(),
            r@ == zipped(Op::Add, self@, other@),
            r.requires_grad == (self.requires_grad || other.requires_grad),
    {
        self.zip(Op::Add, other)
    }

    pub fn sub(&self, other: &Self) -> (r: Self)
        requires
            self.wf(),
            other.wf(),
            zips(self@, other@),
        ensures
            r.wf(),
            r@ == zipped(Op::Sub, self@, other@),
            r.requires_grad == (self.requires_grad || other.requires_grad),
    {
        self.zip(Op::Sub, other)
    }

    pub fn mul(&self, other: &Self) -> (r: Self)
        requires
            self.wf(),
            other.wf(),
            zips(self@, other@),
        ensures
            r.wf(),
            r@ == zipped(Op::Mul, self@, other@),
            r.requires_grad == (self.requires_grad || other.requires_grad),
    {
        self.zip(Op::Mul, other)
    }

    /// The sum of all elements, in order, as a tensor of one element.
    pub fn sum(&self) -> (r: Self)
        ensures
            r.wf(),
            r@ == (Value::<S> { data: seq![sum_of(self.data@)], shape: seq![1usize] }),
            r.requires_grad == self.requires_grad,
    {
        let mut acc = S::zero();
        for i in 0..self.data.len()
            invariant
                acc == number::sum_n(elements(self.data@), i as int),
        {
            acc = acc.plus(self.data[i]);
        }
        let data: Vec<S> = vec![acc];
        let shape: Vec<usize> = vec![1];
        proof {
            lemma_volume_two(1, 1);
            assert(data@ =~= seq![sum_of(self.data@)]);
            assert(shape@ =~= seq![1usize]);
        }
        Tensor { data, shape, requires_grad: self.requires_grad, grad: None }
    }
}

pub open spec fn elements<S>(s: Seq<S>) -> spec_fn(int) -> S {
    |i: int| s[i]
}

/// The sum of all numbers, in order.
pub open spec fn sum_of<S: Number>(s: Seq<S>) -> S {
    number::sum_n(elements(s), s.len() as int)
}

/// A broadcast with a shape that is equal is no broadcast.
pub proof fn lemma_same_shape(a: Seq<usize>)
    ensures
        broadcastable(a, a),
        broadcast(a, a) == a,
    decreases a.len(),
{
    if a.len() > 0 {
        lemma_same_shape(a.drop_last());
        assert(broadcast(a, a) =~= a);
    }
}

/// Addition of tensors of equal shape is addition element by element.
pub proof fn lemma_zip_same_shape<S: Number>(op: Op, a: Value<S>, b: Value<S>)
    requires
        a.wf(),
        b.wf(),
        a.shape == b.shape,
    ensures
        zips(a, b),
        zipped(op, a, b) == (Value::<S> {
            data: Seq::new(a.data.len(), |i: int| op_of(op, a.data[i], b.data[i])),
            shape: a.shape,
        }),
{
    lemma_same_shape(a.shape);
    let r = zipped(op, a, b);
    let e = Seq::new(a.data.len(), |i: int| op_of(op, a.data[i], b.data[i]));
    assert forall|x: int| 0 <= x < a.data.len() implies r.data[x] == e[x] by {
        lemma_source_identity(x, a.shape);
    }
    assert(r.data =~= e);
}

pub(crate) proof fn lemma_source_identity(x: int, a: Seq<usize>)
    requires
        0 <= x < volume(a),
    ensures
        source(x, a, a) == x,
    decreases a.len(),
{
    if a.len() > 0 {
        let w = a.last() as int;
        let v = volume(a.drop_last());
        lemma_volume_nonneg(a.drop_last());
        assert(w > 0) by (nonlinear_arith)
            requires
                0 <= x < v * w,
                0 <= v,
                0 <= w,
        ;
        vstd::arithmetic::div_mod::lemma_fundamental_div_mod(x, w);
        let (q, r) = (x / w, x % w);
        assert(0 <= q < v) by (nonlinear_arith)
            requires
                x == w * q + r,
                0 <= r < w,
                0 <= x < v * w,
        ;
        lemma_source_identity(q, a.drop_last());
        assert(q * w + r == x) by (nonlinear_arith)
            requires
                x == w * q + r,
        ;
    }
}

} // verus!
