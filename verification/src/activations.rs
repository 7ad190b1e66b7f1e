//! Activation functions.
use vstd::prelude::*;
use crate::blas;
use crate::grpo;
use crate::number;
use crate::number::Real;
use crate::optim;
use crate::optim::fraction;
use crate::tensor;
use crate::tensor::{copy_slice, Tensor, Value};

verus! {

/// A function that is applied to each element.
#[derive(Debug, Clone, Copy, PartialEq, Eq, Structural)]
pub enum Pointwise {
    Relu,
    Sigmoid,
    Tanh,
    Gelu,
    Silu,
    Softplus,
}

/// One over one plus the exponential of the negated number.
pub open spec fn sigmoid_of<S: Real>(x: S) -> S {
    S::spec_one().spec_over(S::spec_one().spec_plus(x.spec_neg().spec_exp()))
}

/// The square root of two over pi.
pub open spec fn gelu_scale<S: Real>() -> S {
    S::spec_count(2).spec_over(optim::ratio(13176795, 4194304)).spec_sqrt()
}

/// Half the number times one plus the hyperbolic tangent of a cubic.
pub open spec fn gelu_of<S: Real>(x: S) -> S {
    let cube = optim::ratio::<S>(44715, 1000000).spec_times(x).spec_times(x).spec_times(x);
    let inner = gelu_scale::<S>().spec_times(x.spec_plus(cube));
    optim::ratio::<S>(1, 2).spec_times(x).spec_times(S::spec_one().spec_plus(inner.spec_tanh()))
}

/// The value of a function at a number.
pub open spec fn point_of<S: Real>(f: Pointwise, x: S) -> S {
    match f {
        Pointwise::Relu => x.spec_larger(S::spec_zero()),
        Pointwise::Sigmoid => sigmoid_of(x),
        Pointwise::Tanh => x.spec_tanh(),
        Pointwise::Gelu => gelu_of(x),
        Pointwise::Silu => x.spec_times(sigmoid_of(x)),
        Pointwise::Softplus => S::spec_one().spec_plus(x.spec_exp()).spec_ln(),
    }
}

/// The function applied to each element.
pub open spec fn pointwise<S: Real>(f: Pointwise, v: Value<S>) -> Value<S> {
    Value { data: Seq::new(v.data.len(), |i: int| point_of(f, v.data[i])), shape: v.shape }
}

fn sigmoid_at<S: Real>(x: S) -> (r: S)
    ensures
        r == sigmoid_of(x),
{
    S::one().over(S::one().plus(x.neg().exp()))
}

fn point_at<S: Real>(f: Pointwise, x: S) -> (r: S)
    ensures
        r == point_of(f, x),
{
    match f {
        Pointwise::Relu => x.larger(S::zero()),
        Pointwise::Sigmoid => sigmoid_at(x),
        Pointwise::Tanh => x.tanh(),
        Pointwise::Gelu => {
            let c = S::count(2).over(fraction(13176795, 4194304)).sqrt();
            let cube = fraction::<S>(44715, 1000000).times(x).times(x).times(x);
            let inner = c.times(x.plus(cube));
            fraction::<S>(1, 2).times(x).times(S::one().plus(inner.tanh()))
        },
        Pointwise::Silu => x.times(sigmoid_at(x)),
        Pointwise::Softplus => S::one().plus(x.exp()).ln(),
    }
}

/// Applies a function to each element.
pub fn apply<S: Real>(f: Pointwise, x: &Tensor<S>) -> (r: Tensor<S>)
    requires
        x.wf(),
    ensures
        r.wf(),
        r@ == pointwise(f, x@),
        r.requires_grad == x.requires_grad,
{
    let mut data: Vec<S> = Vec::new();
    for i in 0..x.data.len()
        invariant
            data@ =~= pointwise(f, x@).data.take(i as int),
    {
        data.push(point_at(f, x.data[i]));
    }
    assert(data@ =~= pointwise(f, x@).data);
    Tensor {
        data,
        shape: copy_slice(&x.shape),
        requires_grad: x.requires_grad,
        grad: None,
    }
}

/// The number, or zero where it is negative.
pub fn relu<S: Real>(x: &Tensor<S>) -> (r: Tensor<S>)
    requires
        x.wf(),
    ensures
        r.wf(),
        r@ == pointwise(Pointwise::Relu, x@),
        r.requires_grad == x.requires_grad,
{
    apply(Pointwise::Relu, x)
}

/// One over one plus the exponential of the negated number.
pub fn sigmoid<S: Real>(x: &Tensor<S>) -> (r: Tensor<S>)
    requires
        x.wf(),
    ensures
        r.wf(),
        r@ == pointwise(Pointwise::Sigmoid, x@),
        r.requires_grad == x.requires_grad,
{
    apply(Pointwise::Sigmoid, x)
}

/// The hyperbolic tangent.
pub fn tanh<S: Real>(x: &Tensor<S>) -> (r: Tensor<S>)
    requires
        x.wf(),
    ensures
        r.wf(),
        r@ == pointwise(Pointwise::Tanh, x@),
        r.requires_grad == x.requires_grad,
{
    apply(Pointwise::Tanh, x)
}

/// The Gaussian error linear unit, approximated by a hyperbolic tangent.
pub fn gelu<S: Real>(x: &Tensor<S>) -> (r: Tensor<S>)
    requires
        x.wf(),
    ensures
        r.wf(),
        r@ == pointwise(Pointwise::Gelu, x@),
        r.requires_grad == x.requires_grad,
{
    apply(Pointwise::Gelu, x)
}

/// The exponentials of the distances from a number.
pub open spec fn exponentials<S: Real>(row: Seq<S>, max: S) -> Seq<S> {
    Seq::new(row.len(), |j: int| row[j].spec_minus(max).spec_exp())
}

/// The reciprocal of a positive number; zero for others.
pub open spec fn reciprocal<S: Real>(s: S) -> S {
    if S::spec_zero().spec_below(s) {
        S::spec_one().spec_over(s)
    } else {
        S::spec_zero()
    }
}

/// The exponentials of numbers, scaled to a sum of one; the greatest is taken off first.
pub open spec fn softmax_row<S: Real>(row: Seq<S>) -> Seq<S> {
    let e = exponentials(row, grpo::greatest(row, row.len() as int));
    let inv = reciprocal(tensor::sum_of(e));
    Seq::new(row.len(), |j: int| e[j].spec_times(inv))
}

/// A part of a sequence of rows of equal length.
pub open spec fn row_at<S>(data: Seq<S>, width: int, i: int) -> Seq<S> {
    data.subrange(i * width, i * width + width)
}

/// Each row scaled.
pub open spec fn softmax_value<S: Real>(v: Value<S>) -> Value<S> {
    if v.shape.len() == 0 {
        Value { data: seq![S::spec_one()], shape: seq![1usize] }
    } else {
        let w = v.shape.last() as int;
        Value {
            data: Seq::new(
                v.data.len(),
                |x: int| softmax_row(row_at(v.data, w, blas::row_of(x, w)))[blas::col_of(x, w)],
            ),
            shape: v.shape,
        }
    }
}

/// The exponentials of numbers, scaled to a sum of one.
pub fn softmax_of<S: Real>(row: &[S]) -> (r: Vec<S>)
    ensures
        r@ == softmax_row(row@),
{
    let n: usize = row.len();
    let mut max = S::lowest();
    for j in 0..n
        invariant
            n == row@.len(),
            max == grpo::greatest(row@, j as int),
    {
        max = max.larger(row[j]);
    }
    let ghost e = exponentials(row@, max);
    let mut out: Vec<S> = Vec::new();
    let mut s = S::zero();
    for j in 0..n
        invariant
            n == row@.len(),
            e == exponentials(row@, max),
            out@ =~= e.take(j as int),
            s == number::sum_n(tensor::elements(e), j as int),
    {
        let x = row[j].minus(max).exp();
        out.push(x);
        s = s.plus(x);
    }
    let inv = if S::zero().below(s) {
        S::one().over(s)
    } else {
        S::zero()
    };
    assert(e.take(n as int) =~= e);
    for j in 0..n
        invariant
            n == e.len(),
            out@ =~= Seq::new(
                n as nat,
                |k: int|
                    if k < j {
                        e[k].spec_times(inv)
                    } else {
                        e[k]
                    },
            ),
    {
        let x = out[j].times(inv);
        out.set(j, x);
    }
    assert(out@ =~= softmax_row(row@));
    out
}

/// The rows of the last axis lie one after the other.
pub proof fn lemma_rows<S>(v: Value<S>, i: int)
    requires
        v.wf(),
        v.shape.len() > 0,
        v.shape.last() > 0,
        0 <= i < tensor::volume(v.shape.drop_last()),
    ensures
        0 <= i * v.shape.last(),
        i * v.shape.last() + v.shape.last() <= v.data.len(),
{
    let (n, w) = (tensor::volume(v.shape.drop_last()), v.shape.last() as int);
    assert(0 <= i * w && i * w + w <= n * w) by (nonlinear_arith)
        requires
            0 <= i < n,
            0 < w,
    ;
}

/// The softmax over the last axis.
#[verifier::loop_isolation(false)]
pub fn softmax<S: Real>(x: &Tensor<S>) -> (r: Tensor<S>)
    requires
        x.wf(),
    ensures
        r.wf(),
        r@ == softmax_value(x@),
        x.shape@.len() > 0 ==> r.requires_grad == x.requires_grad,
{
    let axes: usize = x.shape.len();
    if axes == 0 {
        let data: Vec<S> = vec![S::one()];
        let shape: Vec<usize> = vec![1];
        proof {
            tensor::lemma_volume_two(1, 1);
            assert(data@ =~= seq![S::spec_one()]);
            assert(shape@ =~= seq![1usize]);
        }
        return Tensor::from_vec(data, shape);
    }
    let w: usize = x.shape[axes - 1];
    let len: usize = x.data.len();
    let ghost wi = w as int;
    let ghost want = softmax_value(x@).data;
    if w == 0 {
        proof {
            assert(tensor::volume(x.shape@.drop_last()) * 0 == 0) by (nonlinear_arith);
            assert(x.data@ =~= want);
        }
        return x.duplicate();
    }
    let mut data: Vec<S> = Vec::new();
    let rows: usize = len / w;
    proof {
        let v = tensor::volume(x.shape@.drop_last());
        assert(len == v * wi);
        assert(len as int / wi == v) by {
            vstd::arithmetic::div_mod::lemma_div_multiples_vanish(v, wi);
            assert(wi * v == v * wi) by (nonlinear_arith);
        }
        assert(0 * wi == 0) by (nonlinear_arith);
    }
    for i in 0..rows
        invariant
            rows == tensor::volume(x.shape@.drop_last()),
            data@.len() == i * wi,
            forall|k: int| 0 <= k < i * wi ==> #[trigger] data@[k] == want[k],
    {
        proof {
            lemma_rows(x@, i as int);
        }
        let row = vstd::slice::slice_subrange(&x.data, i * w, i * w + w);
        assert(row@ =~= row_at(x.data@, wi, i as int));
        let out = softmax_of(row);
        for j in 0..w
            invariant
                data@.len() == i * wi + j,
                out@ == softmax_row(row_at(x.data@, wi, i as int)),
                out@.len() == w,
                forall|k: int| 0 <= k < i * wi + j ==> #[trigger] data@[k] == want[k],
        {
            proof {
                blas::lemma_cell(i as int, j as int, wi);
            }
            data.push(out[j]);
        }
        assert(i * wi + wi == (i + 1) * wi) by (nonlinear_arith);
    }
    assert(data@ =~= want);
    Tensor {
        data,
        shape: copy_slice(&x.shape),
        requires_grad: x.requires_grad,
        grad: None,
    }
}

} // verus!
