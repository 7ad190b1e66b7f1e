//! Losses: how far predictions are from targets, as one number.
use vstd::prelude::*;
use crate::activations;
use crate::grpo;
use crate::nn;
use crate::number;
use crate::number::Real;
use crate::optim;
use crate::optim::fraction;
use crate::tensor;
use crate::tensor::{Op, Tensor, Value};

verus! {

/// A way to compare a prediction with a target.
pub trait Loss<S: Real> {
    /// The two can be compared.
    spec fn fits(&self, prediction: Value<S>, target: Value<S>) -> bool;

    /// The loss of a prediction.
    spec fn value(&self, prediction: Value<S>, target: Value<S>) -> S;

    /// The loss as a tensor of one element.
    fn forward(&self, prediction: &Tensor<S>, target: &Tensor<S>) -> (r: Tensor<S>)
        requires
            prediction.wf(),
            target.wf(),
            self.fits(prediction@, target@),
        ensures
            r.wf(),
            r@ == scalar(self.value(prediction@, target@)),
            r.requires_grad == (prediction.requires_grad || target.requires_grad),
    ;
}

/// A tensor of one element.
pub open spec fn scalar<S>(v: S) -> Value<S> {
    Value { data: seq![v], shape: seq![1usize] }
}

fn scalar_tensor<S: Real>(v: S, requires_grad: bool) -> (r: Tensor<S>)
    ensures
        r.wf(),
        r@ == scalar(v),
        r.requires_grad == requires_grad,
{
    let data: Vec<S> = vec![v];
    let shape: Vec<usize> = vec![1];
    proof {
        tensor::lemma_volume_two(1, 1);
        assert(data@ =~= seq![v]);
        assert(shape@ =~= seq![1usize]);
    }
    Tensor::new(data, shape, requires_grad)
}

/// The mean of the squared differences.
pub struct MSELoss;

/// The squared differences.
pub open spec fn squared_errors<S: Real>(p: Value<S>, t: Value<S>) -> Value<S> {
    let d = tensor::zipped(Op::Sub, p, t);
    tensor::zipped(Op::Mul, d, d)
}

impl<S: Real> Loss<S> for MSELoss {
    open spec fn fits(&self, prediction: Value<S>, target: Value<S>) -> bool {
        tensor::zips(prediction, target)
    }

    open spec fn value(&self, prediction: Value<S>, target: Value<S>) -> S {
        nn::mean_of(squared_errors(prediction, target).data)
    }

    fn forward(&self, prediction: &Tensor<S>, target: &Tensor<S>) -> (r: Tensor<S>) {
        let diff = prediction.sub(target);
        proof {
            tensor::lemma_zip_same_shape(Op::Mul, diff@, diff@);
        }
        let squared = diff.mul(&diff);
        let total = squared.sum();
        let n: usize = squared.data.len();
        scalar_tensor(
            total.data[0].over(S::count(n)),
            prediction.requires_grad || target.requires_grad,
        )
    }
}

/// What the losses that compare element by element do.
#[derive(Debug, Clone, Copy)]
pub enum Elementwise<S> {
    /// The cross entropy of a label and the sigmoid of a number.
    Logit,
    /// The cross entropy of a label and a probability.
    Probability,
    /// The distance.
    Absolute,
    /// The squared distance up to a bound, and linear beyond it.
    Huber(S),
}

/// The loss of one element.
pub open spec fn element_loss<S: Real>(kind: Elementwise<S>, x: S, t: S) -> S {
    match kind {
        Elementwise::Logit => x.spec_larger(S::spec_zero()).spec_minus(x.spec_times(t)).spec_plus(
            S::spec_one().spec_plus(x.spec_abs().spec_neg().spec_exp()).spec_ln(),
        ),
        Elementwise::Probability => t.spec_times(x.spec_ln()).spec_plus(
            S::spec_one().spec_minus(t).spec_times(S::spec_one().spec_minus(x).spec_ln()),
        ).spec_neg(),
        Elementwise::Absolute => x.spec_minus(t).spec_abs(),
        Elementwise::Huber(delta) => {
            let d = x.spec_minus(t).spec_abs();
            let half = optim::ratio::<S>(1, 2);
            if d.spec_at_most(delta) {
                half.spec_times(d).spec_times(d)
            } else {
                delta.spec_times(d.spec_minus(half.spec_times(delta)))
            }
        },
    }
}

/// The losses of all elements.
pub open spec fn element_losses<S: Real>(kind: Elementwise<S>, p: Seq<S>, t: Seq<S>) -> Seq<S> {
    Seq::new(p.len(), |i: int| element_loss(kind, p[i], t[i]))
}

fn loss_at<S: Real>(kind: Elementwise<S>, x: S, t: S) -> (r: S)
    ensures
        r == element_loss(kind, x, t),
{
    match kind {
        Elementwise::Logit => x.larger(S::zero()).minus(x.times(t)).plus(
            S::one().plus(x.abs().neg().exp()).ln(),
        ),
        Elementwise::Probability => t.times(x.ln()).plus(
            S::one().minus(t).times(S::one().minus(x).ln()),
        ).neg(),
        Elementwise::Absolute => x.minus(t).abs(),
        Elementwise::Huber(delta) => {
            let d = x.minus(t).abs();
            let half: S = fraction(1, 2);
            if d.at_most(delta) {
                half.times(d).times(d)
            } else {
                delta.times(d.minus(half.times(delta)))
            }
        },
    }
}

/// The mean of the losses of all elements.
fn mean_loss<S: Real>(kind: Elementwise<S>, prediction: &Tensor<S>, target: &Tensor<S>) -> (r:
    Tensor<S>)
    requires
        prediction.wf(),
        target.wf(),
        prediction.shape@ == target.shape@,
    ensures
        r.wf(),
        r@ == scalar(nn::mean_of(element_losses(kind, prediction.data@, target.data@))),
        r.requires_grad == (prediction.requires_grad || target.requires_grad),
{
    let n: usize = prediction.data.len();
    let ghost losses = element_losses(kind, prediction.data@, target.data@);
    let mut s = S::zero();
    for i in 0..n
        invariant
            n == prediction.data@.len(),
            n == target.data@.len(),
            losses == element_losses(kind, prediction.data@, target.data@),
            s == number::sum_n(tensor::elements(losses), i as int),
    {
        s = s.plus(loss_at(kind, prediction.data[i], target.data[i]));
    }
    scalar_tensor(s.over(S::count(n)), prediction.requires_grad || target.requires_grad)
}

/// The cross entropy of {0, 1} labels and the sigmoids of numbers, in a form that is stable.
pub struct BCEWithLogitsLoss;

impl<S: Real> Loss<S> for BCEWithLogitsLoss {
    open spec fn fits(&self, prediction: Value<S>, target: Value<S>) -> bool {
        prediction.shape == target.shape
    }

    open spec fn value(&self, prediction: Value<S>, target: Value<S>) -> S {
        nn::mean_of(element_losses(Elementwise::Logit, prediction.data, target.data))
    }

    fn forward(&self, prediction: &Tensor<S>, target: &Tensor<S>) -> (r: Tensor<S>) {
        mean_loss(Elementwise::Logit, prediction, target)
    }
}

/// The cross entropy of {0, 1} labels and probabilities.
pub struct BCELoss;

impl<S: Real> Loss<S> for BCELoss {
    open spec fn fits(&self, prediction: Value<S>, target: Value<S>) -> bool {
        prediction.shape == target.shape
    }

    open spec fn value(&self, prediction: Value<S>, target: Value<S>) -> S {
        nn::mean_of(element_losses(Elementwise::Probability, prediction.data, target.data))
    }

    fn forward(&self, prediction: &Tensor<S>, target: &Tensor<S>) -> (r: Tensor<S>) {
        mean_loss(Elementwise::Probability, prediction, target)
    }
}

/// The mean of the distances.
pub struct L1Loss;

impl<S: Real> Loss<S> for L1Loss {
    open spec fn fits(&self, prediction: Value<S>, target: Value<S>) -> bool {
        prediction.shape == target.shape
    }

    open spec fn value(&self, prediction: Value<S>, target: Value<S>) -> S {
        nn::mean_of(element_losses(Elementwise::Absolute, prediction.data, target.data))
    }

    fn forward(&self, prediction: &Tensor<S>, target: &Tensor<S>) -> (r: Tensor<S>) {
        mean_loss(Elementwise::Absolute, prediction, target)
    }
}

/// Quadratic for small distances and linear for those beyond `delta`.
pub struct HuberLoss<S> {
    pub delta: S,
}

impl<S: Real> Default for HuberLoss<S> {
    fn default() -> (r: Self)
        ensures
            r.delta == S::spec_one(),
    {
        HuberLoss { delta: S::one() }
    }
}

impl<S: Real> Loss<S> for HuberLoss<S> {
    open spec fn fits(&self, prediction: Value<S>, target: Value<S>) -> bool {
        prediction.shape == target.shape
    }

    open spec fn value(&self, prediction: Value<S>, target: Value<S>) -> S {
        nn::mean_of(element_losses(Elementwise::Huber(self.delta), prediction.data, target.data))
    }

    fn forward(&self, prediction: &Tensor<S>, target: &Tensor<S>) -> (r: Tensor<S>) {
        mean_loss(Elementwise::Huber(self.delta), prediction, target)
    }
}

/// The cross entropy of target distributions and the softmax of logits, the mean over a batch.
pub struct CrossEntropyLoss;

/// The logarithms of the softmax of numbers, in a form that is stable.
pub open spec fn log_softmax<S: Real>(row: Seq<S>) -> Seq<S> {
    let max = grpo::greatest(row, row.len() as int);
    let log_sum = tensor::sum_of(activations::exponentials(row, max)).spec_ln();
    Seq::new(row.len(), |j: int| row[j].spec_minus(max).spec_minus(log_sum))
}

/// The cross entropy of a distribution and the softmax of numbers.
pub open spec fn row_entropy<S: Real>(row: Seq<S>, target: Seq<S>) -> S {
    let l = log_softmax(row);
    number::sum_n(|j: int| target[j].spec_times(l[j]), row.len() as int).spec_neg()
}

/// The cross entropies of all rows.
pub open spec fn row_entropies<S: Real>(p: Value<S>, t: Value<S>) -> Seq<S> {
    let w = p.shape[1] as int;
    Seq::new(
        p.shape[0] as nat,
        |b: int|
            row_entropy(activations::row_at(p.data, w, b), activations::row_at(t.data, w, b)),
    )
}

fn entropy_of<S: Real>(row: &[S], target: &[S]) -> (r: S)
    requires
        row@.len() == target@.len(),
    ensures
        r == row_entropy(row@, target@),
{
    let n: usize = row.len();
    let mut max = S::lowest();
    for j in 0..n
        invariant
            n == row@.len(),
            max == grpo::greatest(row@, j as int),
    {
        max = max.larger(row[j]);
    }
    let ghost e = activations::exponentials(row@, max);
    let mut s = S::zero();
    for j in 0..n
        invariant
            n == row@.len(),
            e == activations::exponentials(row@, max),
            s == number::sum_n(tensor::elements(e), j as int),
    {
        s = s.plus(row[j].minus(max).exp());
    }
    let log_sum = s.ln();
    let ghost l = log_softmax(row@);
    let ghost f = |j: int| target@[j].spec_times(l[j]);
    let mut total = S::zero();
    for j in 0..n
        invariant
            n == row@.len(),
            n == target@.len(),
            l.len() == n,
            forall|k: int|
                0 <= k < n ==> #[trigger] l[k] == row@[k].spec_minus(max).spec_minus(log_sum),
            f == (|j: int| target@[j].spec_times(l[j])),
            total == number::sum_n(f, j as int),
    {
        assert(l[j as int] == row@[j as int].spec_minus(max).spec_minus(log_sum));
        total = total.plus(target[j].times(row[j].minus(max).minus(log_sum)));
    }
    total.neg()
}

impl<S: Real> Loss<S> for CrossEntropyLoss {
    open spec fn fits(&self, prediction: Value<S>, target: Value<S>) -> bool {
        prediction.shape == target.shape && prediction.shape.len() == 2
    }

    open spec fn value(&self, prediction: Value<S>, target: Value<S>) -> S {
        nn::mean_of(row_entropies(prediction, target))
    }

    fn forward(&self, prediction: &Tensor<S>, target: &Tensor<S>) -> (r: Tensor<S>) {
        let batch: usize = prediction.shape[0];
        let w: usize = prediction.shape[1];
        let len: usize = prediction.data.len();
        let ghost wi = w as int;
        let ghost entropies = row_entropies(prediction@, target@);
        proof {
            assert(prediction.shape@ =~= seq![batch, w]);
            tensor::lemma_volume_two(batch, w);
        }
        let mut s = S::zero();
        for b in 0..batch
            invariant
                wi == w,
                prediction.shape@ == seq![batch, w],
                len == prediction.data@.len(),
                len == target.data@.len(),
                len == batch * wi,
                entropies == row_entropies(prediction@, target@),
                s == number::sum_n(tensor::elements(entropies), b as int),
        {
            proof {
                nn::lemma_row_in(b as int, batch as int, wi, len as int);
            }
            let row = vstd::slice::slice_subrange(&prediction.data, b * w, b * w + w);
            let goal = vstd::slice::slice_subrange(&target.data, b * w, b * w + w);
            assert(row@ =~= activations::row_at(prediction.data@, wi, b as int));
            assert(goal@ =~= activations::row_at(target.data@, wi, b as int));
            s = s.plus(entropy_of(row, goal));
        }
        scalar_tensor(s.over(S::count(batch)), prediction.requires_grad || target.requires_grad)
    }
}

} // verus!
