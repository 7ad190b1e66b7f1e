//! Layers and models.
use vstd::prelude::*;
use crate::activations;
use crate::activations::{apply, softmax, Pointwise};
use crate::blas;
use crate::number;
use crate::number::{bound, Real};
use crate::optim;
use crate::optim::fraction;
use crate::random;
use crate::random::random_units;
use crate::tensor;
use crate::tensor::{copy_slice, count_of, Op, Tensor, Value};

verus! {

// ---- Initial weights

/// Initial weights, drawn beforehand, that are handed out one after the other.
#[derive(Debug, Clone)]
pub struct Draws<S> {
    pub values: Vec<S>,
    pub next: usize,
}

impl<S: Real> Draws<S> {
    pub open spec fn wf(&self) -> bool {
        self.next <= self.values@.len()
    }

    /// How many are left.
    pub open spec fn left(&self) -> int {
        self.values@.len() - self.next
    }

    /// Some were handed out.
    pub open spec fn taken(&self, new: &Self, n: int) -> bool {
        new.values == self.values && new.next == self.next + n && new.wf()
    }

    pub fn new(values: Vec<S>) -> (r: Self)
        ensures
            r.wf(),
            r.values == values,
            r.next == 0,
    {
        Draws { values, next: 0 }
    }

    /// Random numbers between zero and one.
    pub fn random(n: usize) -> (r: Self)
        ensures
            r.wf(),
            r.values@.len() == n,
            r.next == 0,
            random::are_units(r.values@),
    {
        Draws { values: random_units(n), next: 0 }
    }

    /// The next `n` weights.
    pub fn take(&mut self, n: usize) -> (r: Vec<S>)
        requires
            old(self).wf(),
            n <= old(self).left(),
        ensures
            old(self).taken(final(self), n as int),
            r@ == old(self).values@.subrange(old(self).next as int, old(self).next + n),
    {
        let mut r: Vec<S> = Vec::new();
        let len: usize = self.values.len();
        let at: usize = self.next;
        for i in 0..n
            invariant
                len == self.values@.len(),
                at + n <= len,
                r@ =~= self.values@.subrange(at as int, at + i),
        {
            r.push(self.values[at + i]);
        }
        self.next = at + n;
        r
    }
}

// ---- Modules

/// Something that turns a tensor into another.
pub trait Module<S: Real> {
    /// The parts of the module fit together.
    spec fn wf(&self) -> bool;

    /// The module can be applied to a tensor.
    spec fn accepts(&self, x: Value<S>) -> bool;

    /// What the module makes of a tensor.
    spec fn output(&self, x: Value<S>) -> Value<S>;

    /// The parameters of the module.
    spec fn values(&self) -> Seq<Value<S>>;

    /// What becomes of the module where it is put in training or taken out of it.
    spec fn switched(&self, new: &Self, training: bool) -> bool;

    fn forward(&self, input: &Tensor<S>) -> (r: Tensor<S>)
        requires
            self.wf(),
            input.wf(),
            self.accepts(input@),
        ensures
            r.wf(),
            r@ == self.output(input@),
    ;

    fn parameters(&self) -> (r: Vec<Tensor<S>>)
        requires
            self.wf(),
        ensures
            tensors_are(r@, self.values()),
    ;

    /// Switches between training and use.
    fn set_training(&mut self, training: bool)
        requires
            old(self).wf(),
        ensures
            final(self).wf(),
            old(self).switched(final(self), training),
    ;
}

/// The tensors have these values.
pub open spec fn tensors_are<S>(v: Seq<Tensor<S>>, values: Seq<Value<S>>) -> bool {
    &&& v.len() == values.len()
    &&& forall|i: int| 0 <= i < v.len() ==> (#[trigger] v[i]).wf() && v[i]@ == values[i]
}

/// Appends tensors.
pub(crate) fn push_tensors<S>(v: &mut Vec<Tensor<S>>, more: Vec<Tensor<S>>, Ghost(a): Ghost<
    Seq<Value<S>>,
>, Ghost(b): Ghost<Seq<Value<S>>>)
    requires
        tensors_are(old(v)@, a),
        tensors_are(more@, b),
    ensures
        tensors_are(final(v)@, a + b),
{
    let mut more = more;
    let ghost first = v@;
    let ghost second = more@;
    v.append(&mut more);
    assert forall|i: int| 0 <= i < v@.len() implies (#[trigger] v@[i]).wf() && v@[i]@ == (a
        + b)[i] by {
        if i < first.len() {
            assert(first[i].wf());
        } else {
            assert(second[i - first.len()].wf());
        }
    }
}

// ---- Linear layers

/// A linear layer: a matrix with a row for each output, and perhaps a number to add for each.
#[derive(Debug, Clone)]
pub struct Linear<S> {
    pub weight: Tensor<S>,
    pub bias: Option<Tensor<S>>,
}

/// The shape with its last axis replaced.
pub open spec fn with_last(shape: Seq<usize>, n: usize) -> Seq<usize> {
    shape.drop_last().push(n)
}

/// All axes but the last as one.
pub open spec fn flat<S>(x: Value<S>) -> Value<S> {
    Value {
        data: x.data,
        shape: seq![tensor::volume(x.shape.drop_last()) as usize, x.shape.last()],
    }
}

/// The product with the transposed matrix, along the last axis, plus what is to be added.
pub open spec fn linear_value<S: Real>(w: Value<S>, b: Option<Value<S>>, x: Value<S>) -> Value<S> {
    let p = tensor::matmul_value(flat(x), tensor::transpose_value(w));
    let r = match b {
        Some(b) => tensor::zipped(Op::Add, p, b),
        None => p,
    };
    Value { data: r.data, shape: with_last(x.shape, w.shape[0]) }
}

/// A tensor of numbers for a linear layer, as drawn.
pub open spec fn drawn_linear<S: Real>(
    l: Linear<S>,
    in_features: usize,
    out_features: usize,
    bias: bool,
    draws: Seq<S>,
    at: int,
) -> bool {
    &&& l.weight@ == (Value::<S> {
        data: draws.subrange(at, at + out_features * in_features),
        shape: seq![out_features, in_features],
    })
    &&& l.weight.requires_grad
    &&& match l.bias {
        Some(b) => bias && b.requires_grad && b@ == (Value::<S> {
            data: Seq::new(out_features as nat, |i: int| S::spec_zero()),
            shape: seq![out_features],
        }),
        None => !bias,
    }
    &&& l.wf()
}

/// A vector of the width of a matrix can be added to it.
pub proof fn lemma_bias_fits<S: Real>(p: Value<S>, b: Value<S>)
    requires
        p.wf(),
        p.shape.len() == 2,
        b.shape == seq![p.shape[1]],
    ensures
        tensor::zips(p, b),
        tensor::broadcast(p.shape, b.shape) == p.shape,
{
    let (ps, bs) = (p.shape, b.shape);
    let empty = Seq::<usize>::empty();
    assert(bs.drop_last() =~= empty);
    assert(ps.last() == bs.last());
    assert(tensor::broadcastable(ps.drop_last(), empty));
    assert(tensor::broadcast(ps.drop_last(), empty) == ps.drop_last());
    assert(tensor::broadcast(ps, bs) =~= ps);
}

/// The sizes of a linear layer applied to a tensor can be counted.
pub open spec fn linear_fits<S>(w: Value<S>, x: Value<S>) -> bool {
    let lead = tensor::volume(x.shape.drop_last());
    &&& x.shape.len() >= 2
    &&& x.shape.last() == w.shape[1]
    &&& lead * w.shape[0] <= usize::MAX
    &&& lead * w.shape[0] * w.shape[1] <= usize::MAX
}

/// A linear layer replaces the last axis of its input.
pub proof fn lemma_linear_shape<S: Real>(l: Linear<S>, x: Value<S>)
    requires
        l.wf(),
        x.wf(),
        l.accepts(x),
    ensures
        l.output(x).wf(),
        l.output(x).shape == with_last(x.shape, l.weight@.shape[0]),
{
    let lead = tensor::volume(x.shape.drop_last());
    let w = l.weight@;
    let p = tensor::matmul_value(flat(x), tensor::transpose_value(w));
    reveal_with_fuel(tensor::countable, 2);
    tensor::lemma_volume_nonneg(x.shape.drop_last());
    tensor::lemma_volume_two(lead as usize, w.shape[0]);
    assert(0 <= lead * w.shape[0]) by (nonlinear_arith)
        requires
            0 <= lead,
    ;
    assert(p.shape =~= seq![lead as usize, w.shape[0]]);
    assert(p.wf());
    if let Some(b) = l.bias {
        lemma_bias_fits(p, b@);
    }
    let s = with_last(x.shape, w.shape[0]);
    assert(s.drop_last() =~= x.shape.drop_last());
}

impl<S: Real> Module<S> for Linear<S> {
    open spec fn wf(&self) -> bool {
        &&& self.weight.wf()
        &&& self.weight@.is_matrix()
        &&& self.bias matches Some(b) ==> b.wf() && b@.shape == seq![self.weight@.shape[0]]
    }

    open spec fn accepts(&self, x: Value<S>) -> bool {
        linear_fits(self.weight@, x)
    }

    open spec fn output(&self, x: Value<S>) -> Value<S> {
        linear_value(
            self.weight@,
            match self.bias {
                Some(b) => Some(b@),
                None => None,
            },
            x,
        )
    }

    open spec fn values(&self) -> Seq<Value<S>> {
        match self.bias {
            Some(b) => seq![self.weight@, b@],
            None => seq![self.weight@],
        }
    }

    open spec fn switched(&self, new: &Self, training: bool) -> bool {
        *new == *self
    }

    fn forward(&self, input: &Tensor<S>) -> (r: Tensor<S>) {
        let axes: usize = input.shape.len();
        let out_features: usize = self.weight.shape[0];
        let in_features: usize = input.shape[axes - 1];
        let weight_t = self.weight.transpose();
        let front = vstd::slice::slice_subrange(&input.shape, 0, axes - 1);
        assert(front@ =~= input.shape@.drop_last());
        let lead: usize = count_of(front);
        let two: Vec<usize> = vec![lead, in_features];
        proof {
            assert(two@ =~= seq![lead, in_features]);
            tensor::lemma_volume_two(lead, in_features);
        }
        let flat_in = input.reshape(&two);
        let res = flat_in.matmul(&weight_t);
        let ghost p = res@;
        let res = match &self.bias {
            Some(b) => {
                proof {
                    lemma_bias_fits(res@, b@);
                }
                res.add(b)
            },
            None => res,
        };
        let mut shape: Vec<usize> = copy_slice(&input.shape);
        shape.set(axes - 1, out_features);
        proof {
            assert(shape@ =~= with_last(input.shape@, out_features));
            assert(shape@.drop_last() =~= input.shape@.drop_last());
            tensor::lemma_volume_two(lead, out_features);
            assert(p.shape =~= seq![lead, out_features]);
        }
        res.reshape(&shape)
    }

    fn parameters(&self) -> (r: Vec<Tensor<S>>) {
        let mut params: Vec<Tensor<S>> = Vec::new();
        params.push(self.weight.duplicate());
        if let Some(b) = &self.bias {
            params.push(b.duplicate());
        }
        params
    }

    fn set_training(&mut self, training: bool) {
    }
}

impl<S: Real> Linear<S> {
    /// A layer with the next weights, and with zeros to add if wanted.
    pub fn new(in_features: usize, out_features: usize, bias: bool, draws: &mut Draws<S>) -> (r:
        Self)
        requires
            old(draws).wf(),
            out_features * in_features <= old(draws).left(),
        ensures
            old(draws).taken(final(draws), out_features * in_features),
            drawn_linear(
                r,
                in_features,
                out_features,
                bias,
                old(draws).values@,
                old(draws).next as int,
            ),
            r.wf(),
    {
        proof {
            tensor::lemma_volume_two(out_features, in_features);
            assert(0 <= out_features * in_features) by (nonlinear_arith);
        }
        let len: usize = draws.values.len();
        let data = draws.take(out_features * in_features);
        let shape: Vec<usize> = vec![out_features, in_features];
        assert(shape@ =~= seq![out_features, in_features]);
        let weight = Tensor::new(data, shape, true);
        let bias = if bias {
            let one: Vec<usize> = vec![out_features];
            proof {
                assert(one@ =~= seq![out_features]);
                tensor::lemma_volume_two(out_features, 1);
            }
            Some(Tensor::constant(&one, S::zero(), true))
        } else {
            None
        };
        Linear { weight, bias }
    }
}

// ---- Layers without parameters

/// The number, or zero where it is negative.
#[derive(Debug, Clone, Copy)]
pub struct ReLU;

#[derive(Debug, Clone, Copy)]
pub struct Sigmoid;

#[derive(Debug, Clone, Copy)]
pub struct Tanh;

/// The softmax over the last axis.
#[derive(Debug, Clone, Copy)]
pub struct Softmax;

#[derive(Debug, Clone, Copy)]
pub struct GELU;

/// The number times its sigmoid.
#[derive(Debug, Clone, Copy)]
pub struct SiLU;

/// All axes but the first as one.
#[derive(Debug, Clone, Copy)]
pub struct Flatten;

impl<S: Real> Module<S> for ReLU {
    open spec fn wf(&self) -> bool {
        true
    }

    open spec fn accepts(&self, x: Value<S>) -> bool {
        true
    }

    open spec fn output(&self, x: Value<S>) -> Value<S> {
        activations::pointwise(Pointwise::Relu, x)
    }

    open spec fn values(&self) -> Seq<Value<S>> {
        Seq::empty()
    }

    open spec fn switched(&self, new: &Self, training: bool) -> bool {
        *new == *self
    }

    fn forward(&self, input: &Tensor<S>) -> (r: Tensor<S>) {
        apply(Pointwise::Relu, input)
    }

    fn parameters(&self) -> (r: Vec<Tensor<S>>) {
        Vec::new()
    }

    fn set_training(&mut self, training: bool) {
    }
}

impl<S: Real> Module<S> for Sigmoid {
    open spec fn wf(&self) -> bool {
        true
    }

    open spec fn accepts(&self, x: Value<S>) -> bool {
        true
    }

    open spec fn output(&self, x: Value<S>) -> Value<S> {
        activations::pointwise(Pointwise::Sigmoid, x)
    }

    open spec fn values(&self) -> Seq<Value<S>> {
        Seq::empty()
    }

    open spec fn switched(&self, new: &Self, training: bool) -> bool {
        *new == *self
    }

    fn forward(&self, input: &Tensor<S>) -> (r: Tensor<S>) {
        apply(Pointwise::Sigmoid, input)
    }

    fn parameters(&self) -> (r: Vec<Tensor<S>>) {
        Vec::new()
    }

    fn set_training(&mut self, training: bool) {
    }
}

impl<S: Real> Module<S> for Tanh {
    open spec fn wf(&self) -> bool {
        true
    }

    open spec fn accepts(&self, x: Value<S>) -> bool {
        true
    }

    open spec fn output(&self, x: Value<S>) -> Value<S> {
        activations::pointwise(Pointwise::Tanh, x)
    }

    open spec fn values(&self) -> Seq<Value<S>> {
        Seq::empty()
    }

    open spec fn switched(&self, new: &Self, training: bool) -> bool {
        *new == *self
    }

    fn forward(&self, input: &Tensor<S>) -> (r: Tensor<S>) {
        apply(Pointwise::Tanh, input)
    }

    fn parameters(&self) -> (r: Vec<Tensor<S>>) {
        Vec::new()
    }

    fn set_training(&mut self, training: bool) {
    }
}

impl<S: Real> Module<S> for GELU {
    open spec fn wf(&self) -> bool {
        true
    }

    open spec fn accepts(&self, x: Value<S>) -> bool {
        true
    }

    open spec fn output(&self, x: Value<S>) -> Value<S> {
        activations::pointwise(Pointwise::Gelu, x)
    }

    open spec fn values(&self) -> Seq<Value<S>> {
        Seq::empty()
    }

    open spec fn switched(&self, new: &Self, training: bool) -> bool {
        *new == *self
    }

    fn forward(&self, input: &Tensor<S>) -> (r: Tensor<S>) {
        apply(Pointwise::Gelu, input)
    }

    fn parameters(&self) -> (r: Vec<Tensor<S>>) {
        Vec::new()
    }

    fn set_training(&mut self, training: bool) {
    }
}

impl<S: Real> Module<S> for SiLU {
    open spec fn wf(&self) -> bool {
        true
    }

    open spec fn accepts(&self, x: Value<S>) -> bool {
        true
    }

    open spec fn output(&self, x: Value<S>) -> Value<S> {
        activations::pointwise(Pointwise::Silu, x)
    }

    open spec fn values(&self) -> Seq<Value<S>> {
        Seq::empty()
    }

    open spec fn switched(&self, new: &Self, training: bool) -> bool {
        *new == *self
    }

    fn forward(&self, input: &Tensor<S>) -> (r: Tensor<S>) {
        apply(Pointwise::Silu, input)
    }

    fn parameters(&self) -> (r: Vec<Tensor<S>>) {
        Vec::new()
    }

    fn set_training(&mut self, training: bool) {
    }
}

impl<S: Real> Module<S> for Softmax {
    open spec fn wf(&self) -> bool {
        true
    }

    open spec fn accepts(&self, x: Value<S>) -> bool {
        true
    }

    open spec fn output(&self, x: Value<S>) -> Value<S> {
        activations::softmax_value(x)
    }

    open spec fn values(&self) -> Seq<Value<S>> {
        Seq::empty()
    }

    open spec fn switched(&self, new: &Self, training: bool) -> bool {
        *new == *self
    }

    fn forward(&self, input: &Tensor<S>) -> (r: Tensor<S>) {
        softmax(input)
    }

    fn parameters(&self) -> (r: Vec<Tensor<S>>) {
        Vec::new()
    }

    fn set_training(&mut self, training: bool) {
    }
}

/// The volume of a shape, taken from its first axis.
pub proof fn lemma_volume_first(shape: Seq<usize>)
    requires
        shape.len() > 0,
    ensures
        tensor::volume(shape) == shape[0] * tensor::volume(shape.skip(1)),
    decreases shape.len(),
{
    let rest = shape.skip(1);
    if shape.len() == 1 {
        assert(rest =~= Seq::<usize>::empty());
        assert(shape.drop_last() =~= Seq::<usize>::empty());
        assert(1 * shape[0] == shape[0] * 1) by (nonlinear_arith);
    } else {
        lemma_volume_first(shape.drop_last());
        assert(shape.drop_last().skip(1) =~= rest.drop_last());
        assert(rest.last() == shape.last());
        let (a, b, c) = (
            shape[0] as int,
            tensor::volume(rest.drop_last()),
            shape.last() as int,
        );
        assert((a * b) * c == a * (b * c)) by (nonlinear_arith);
    }
}

impl<S: Real> Module<S> for Flatten {
    open spec fn wf(&self) -> bool {
        true
    }

    open spec fn accepts(&self, x: Value<S>) -> bool {
        tensor::countable(x.shape.skip(1))
    }

    open spec fn output(&self, x: Value<S>) -> Value<S> {
        if x.shape.len() <= 1 {
            x
        } else {
            Value {
                data: x.data,
                shape: seq![x.shape[0], tensor::volume(x.shape.skip(1)) as usize],
            }
        }
    }

    open spec fn values(&self) -> Seq<Value<S>> {
        Seq::empty()
    }

    open spec fn switched(&self, new: &Self, training: bool) -> bool {
        *new == *self
    }

    fn forward(&self, input: &Tensor<S>) -> (r: Tensor<S>) {
        let axes: usize = input.shape.len();
        if axes <= 1 {
            return input.duplicate();
        }
        let rest = vstd::slice::slice_subrange(&input.shape, 1, axes);
        assert(rest@ =~= input.shape@.skip(1));
        let features: usize = count_of(rest);
        let batch: usize = input.shape[0];
        let two: Vec<usize> = vec![batch, features];
        proof {
            assert(two@ =~= seq![batch, features]);
            lemma_volume_first(input.shape@);
            tensor::lemma_volume_two(batch, features);
        }
        input.reshape(&two)
    }

    fn parameters(&self) -> (r: Vec<Tensor<S>>) {
        Vec::new()
    }

    fn set_training(&mut self, training: bool) {
    }
}

// ---- Dropout

/// Sets elements to zero by chance, and scales the others up.
#[derive(Debug, Clone)]
pub struct Dropout<S> {
    /// The probability of a zero.
    pub p: S,
    pub training: bool,
}

/// The elements with those kept whose random number is below what is kept.
pub open spec fn dropped<S: Real>(x: Value<S>, p: S, draws: Seq<S>) -> Value<S> {
    let keep = S::spec_one().spec_minus(p);
    let scale = S::spec_one().spec_over(keep);
    Value {
        data: Seq::new(
            x.data.len(),
            |i: int|
                x.data[i].spec_times(
                    if draws[i].spec_below(keep) {
                        scale
                    } else {
                        S::spec_zero()
                    },
                ),
        ),
        shape: x.shape,
    }
}

impl<S: Real> Dropout<S> {
    /// A layer in training, with the probability held between zero and one.
    pub fn new(p: S) -> (r: Self)
        ensures
            r.p == number::bounded(p, S::spec_zero(), S::spec_one()),
            r.training,
    {
        Dropout { p: bound(p, S::zero(), S::one()), training: true }
    }

    /// Whether nothing is kept.
    pub open spec fn drops_all(&self) -> bool {
        self.training && !self.p.spec_at_most(S::spec_zero()) && S::spec_one().spec_at_most(self.p)
    }

    /// Whether random numbers are needed.
    pub open spec fn is_random(&self) -> bool {
        self.training && !self.p.spec_at_most(S::spec_zero()) && !S::spec_one().spec_at_most(self.p)
    }

    /// Applies the layer, with random numbers where it needs them.
    pub fn forward_random(&self, input: &Tensor<S>) -> (r: Tensor<S>)
        requires
            input.wf(),
        ensures
            r.wf(),
            !self.is_random() ==> r@ == self.output(input@),
            self.is_random() ==> exists|draws: Seq<S>|
                #![trigger random::are_units(draws)]
                random::are_units(draws) && draws.len() == input@.data.len() && r@ == dropped(
                    input@,
                    self.p,
                    draws,
                ),
            r.requires_grad == (input.requires_grad && !self.drops_all()),
    {
        let draws: Vec<S> = random_units(input.data.len());
        self.forward_with(input, &draws)
    }

    /// Applies the layer with given random numbers between zero and one; they are looked at only
    /// in training with a probability between zero and one.
    pub fn forward_with(&self, input: &Tensor<S>, draws: &[S]) -> (r: Tensor<S>)
        requires
            input.wf(),
            self.is_random() ==> draws@.len() == input.data@.len(),
        ensures
            r.wf(),
            r@ == (if self.is_random() {
                dropped(input@, self.p, draws@)
            } else {
                self.output(input@)
            }),
            r.requires_grad == (input.requires_grad && !self.drops_all()),
    {
        if !self.training || self.p.at_most(S::zero()) {
            return input.duplicate();
        }
        if S::one().at_most(self.p) {
            let t = Tensor::zeros(&input.shape);
            assert(t@ =~= self.output(input@));
            return t;
        }
        let keep = S::one().minus(self.p);
        let scale = S::one().over(keep);
        let mut data: Vec<S> = Vec::new();
        let ghost want = dropped(input@, self.p, draws@);
        for i in 0..input.data.len()
            invariant
                draws@.len() == input.data@.len(),
                keep == S::spec_one().spec_minus(self.p),
                scale == S::spec_one().spec_over(keep),
                want == dropped(input@, self.p, draws@),
                data@ =~= want.data.take(i as int),
        {
            let m = if draws[i].below(keep) {
                scale
            } else {
                S::zero()
            };
            data.push(input.data[i].times(m));
        }
        assert(data@ =~= want.data);
        Tensor {
            data,
            shape: copy_slice(&input.shape),
            requires_grad: input.requires_grad,
            grad: None,
        }
    }
}

impl<S: Real> Module<S> for Dropout<S> {
    open spec fn wf(&self) -> bool {
        true
    }

    /// Only where no random numbers are needed.
    open spec fn accepts(&self, x: Value<S>) -> bool {
        !self.is_random()
    }

    open spec fn output(&self, x: Value<S>) -> Value<S> {
        if !self.training || self.p.spec_at_most(S::spec_zero()) {
            x
        } else {
            Value {
                data: Seq::new(tensor::volume(x.shape) as nat, |i: int| S::spec_zero()),
                shape: x.shape,
            }
        }
    }

    open spec fn values(&self) -> Seq<Value<S>> {
        Seq::empty()
    }

    open spec fn switched(&self, new: &Self, training: bool) -> bool {
        new.p == self.p && new.training == training
    }

    fn forward(&self, input: &Tensor<S>) -> (r: Tensor<S>) {
        let none: Vec<S> = Vec::new();
        self.forward_with(input, &none)
    }

    fn parameters(&self) -> (r: Vec<Tensor<S>>) {
        Vec::new()
    }

    fn set_training(&mut self, training: bool) {
        self.training = training;
    }
}

// ---- Quantization

/// Rounds elements to as many steps as a number of bits has.
#[derive(Debug, Clone)]
pub struct FakeQuantize<S> {
    pub num_bits: u8,
    pub qmin: S,
    pub qmax: S,
    pub scale: S,
}

/// Two to the power of the number of bits minus one.
pub open spec fn half_range(num_bits: u8) -> nat {
    vstd::arithmetic::power2::pow2((num_bits - 1) as nat)
}

/// An element rounded to a step between the least and the greatest.
pub open spec fn step_of<S: Real>(x: S, scale: S, qmin: S, qmax: S) -> S {
    number::bounded(x.spec_over(scale).spec_round(), qmin, qmax).spec_times(scale)
}

impl<S: Real> FakeQuantize<S> {
    /// Steps such that the greatest stands for `max_val`.
    pub fn new(num_bits: u8, max_val: S) -> (r: Self)
        requires
            1 <= num_bits <= 31,
        ensures
            r.num_bits == num_bits,
            r.qmin == S::spec_count(half_range(num_bits) as usize).spec_neg(),
            r.qmax == S::spec_count((half_range(num_bits) - 1) as usize),
            r.scale == max_val.spec_over(r.qmax),
    {
        let mut half: usize = 1;
        proof {
            vstd::arithmetic::power2::lemma2_to64();
        }
        for i in 1..num_bits
            invariant
                1 <= num_bits <= 31,
                half == vstd::arithmetic::power2::pow2((i - 1) as nat),
        {
            proof {
                vstd::arithmetic::power2::lemma_pow2_unfold(i as nat);
                vstd::arithmetic::power2::lemma2_to64();
                if i < 31 {
                    lemma_pow2_grows(i as nat, 30);
                }
            }
            half = half * 2;
        }
        proof {
            vstd::arithmetic::power2::lemma_pow2_pos((num_bits - 1) as nat);
        }
        let qmax = S::count(half - 1);
        FakeQuantize {
            num_bits,
            qmin: S::count(half).neg(),
            qmax,
            scale: max_val.over(qmax),
        }
    }
}

/// Powers of two grow.
pub proof fn lemma_pow2_grows(a: nat, b: nat)
    requires
        a <= b,
    ensures
        vstd::arithmetic::power2::pow2(a) <= vstd::arithmetic::power2::pow2(b),
{
    if a < b {
        vstd::arithmetic::power2::lemma_pow2_strictly_increases(a, b);
    }
}

impl<S: Real> Module<S> for FakeQuantize<S> {
    open spec fn wf(&self) -> bool {
        true
    }

    open spec fn accepts(&self, x: Value<S>) -> bool {
        true
    }

    open spec fn output(&self, x: Value<S>) -> Value<S> {
        Value {
            data: Seq::new(
                x.data.len(),
                |i: int| step_of(x.data[i], self.scale, self.qmin, self.qmax),
            ),
            shape: x.shape,
        }
    }

    open spec fn values(&self) -> Seq<Value<S>> {
        Seq::empty()
    }

    open spec fn switched(&self, new: &Self, training: bool) -> bool {
        *new == *self
    }

    fn forward(&self, input: &Tensor<S>) -> (r: Tensor<S>) {
        let mut data: Vec<S> = Vec::new();
        let ghost want = self.output(input@);
        for i in 0..input.data.len()
            invariant
                want == self.output(input@),
                data@ =~= want.data.take(i as int),
        {
            let q = bound(input.data[i].over(self.scale).round(), self.qmin, self.qmax);
            data.push(q.times(self.scale));
        }
        assert(data@ =~= want.data);
        Tensor {
            data,
            shape: copy_slice(&input.shape),
            requires_grad: input.requires_grad,
            grad: None,
        }
    }

    fn parameters(&self) -> (r: Vec<Tensor<S>>) {
        Vec::new()
    }

    fn set_training(&mut self, training: bool) {
    }
}

// ---- Normalization

/// The mean of numbers.
pub open spec fn mean_of<S: Real>(row: Seq<S>) -> S {
    tensor::sum_of(row).spec_over(S::spec_count(row.len() as usize))
}

/// The squared distances from a number.
pub open spec fn deviations<S: Real>(row: Seq<S>, mean: S) -> Seq<S> {
    Seq::new(row.len(), |j: int| row[j].spec_minus(mean).spec_times(row[j].spec_minus(mean)))
}

/// The mean of the squared distances from the mean.
pub open spec fn variance_of<S: Real>(row: Seq<S>) -> S {
    mean_of(deviations(row, mean_of(row)))
}

/// A number relative to the mean and the spread of others.
pub open spec fn standard<S: Real>(x: S, row: Seq<S>, eps: S) -> S {
    x.spec_minus(mean_of(row)).spec_over(variance_of(row).spec_plus(eps).spec_sqrt())
}

/// The mean and the variance of numbers.
fn moments<S: Real>(row: &[S]) -> (r: (S, S))
    ensures
        r.0 == mean_of(row@),
        r.1 == variance_of(row@),
{
    let n: usize = row.len();
    let mut s = S::zero();
    for j in 0..n
        invariant
            n == row@.len(),
            s == number::sum_n(tensor::elements(row@), j as int),
    {
        s = s.plus(row[j]);
    }
    let mean = s.over(S::count(n));
    let ghost dev = deviations(row@, mean);
    let mut q = S::zero();
    for j in 0..n
        invariant
            n == row@.len(),
            dev == deviations(row@, mean),
            q == number::sum_n(tensor::elements(dev), j as int),
    {
        let d = row[j].minus(mean);
        q = q.plus(d.times(d));
    }
    (mean, q.over(S::count(n)))
}

/// Normalizes the last axis, position by position.
#[derive(Debug, Clone)]
pub struct LayerNorm<S> {
    pub gamma: Tensor<S>,
    pub beta: Tensor<S>,
    pub eps: S,
    pub num_features: usize,
}

/// A row normalized, scaled and shifted.
pub open spec fn normed_row<S: Real>(row: Seq<S>, gamma: Seq<S>, beta: Seq<S>, eps: S) -> Seq<S> {
    Seq::new(
        row.len(),
        |j: int| standard(row[j], row, eps).spec_times(gamma[j]).spec_plus(beta[j]),
    )
}

/// Each row normalized, scaled and shifted.
pub open spec fn layer_norm_value<S: Real>(v: Value<S>, gamma: Seq<S>, beta: Seq<S>, eps: S) -> Value<
    S,
> {
    let w = v.shape.last() as int;
    Value {
        data: Seq::new(
            v.data.len(),
            |x: int|
                normed_row(
                    activations::row_at(v.data, w, blas::row_of(x, w)),
                    gamma,
                    beta,
                    eps,
                )[blas::col_of(x, w)],
        ),
        shape: v.shape,
    }
}

/// A vector of parameters.
pub open spec fn is_vector<S>(t: Tensor<S>, n: usize) -> bool {
    t.wf() && t@.shape == seq![n]
}

/// A vector of parameters that are all the same.
pub open spec fn is_uniform<S>(t: Tensor<S>, n: usize, v: S) -> bool {
    &&& t.wf()
    &&& t@ == (Value::<S> { data: Seq::new(n as nat, |i: int| v), shape: seq![n] })
    &&& t.requires_grad
}

/// A trainable vector of one number.
fn uniform<S: Real>(n: usize, v: S) -> (r: Tensor<S>)
    ensures
        is_uniform(r, n, v),
{
    let one: Vec<usize> = vec![n];
    proof {
        assert(one@ =~= seq![n]);
        tensor::lemma_volume_two(n, 1);
    }
    Tensor::constant(&one, v, true)
}

impl<S: Real> LayerNorm<S> {
    pub fn new(num_features: usize) -> (r: Self)
        ensures
            is_uniform(r.gamma, num_features, S::spec_one()),
            is_uniform(r.beta, num_features, S::spec_zero()),
            r.eps == optim::ratio::<S>(1, 100000),
            r.num_features == num_features,
            r.wf(),
    {
        LayerNorm {
            gamma: uniform(num_features, S::one()),
            beta: uniform(num_features, S::zero()),
            eps: fraction(1, 100000),
            num_features,
        }
    }

    pub fn with_eps(self, eps: S) -> (r: Self)
        ensures
            r == (LayerNorm { eps, ..self }),
    {
        LayerNorm { eps, gamma: self.gamma, beta: self.beta, num_features: self.num_features }
    }
}

impl<S: Real> Module<S> for LayerNorm<S> {
    open spec fn wf(&self) -> bool {
        is_vector(self.gamma, self.num_features) && is_vector(self.beta, self.num_features)
    }

    open spec fn accepts(&self, x: Value<S>) -> bool {
        x.shape.len() > 0 && x.shape.last() == self.num_features
    }

    open spec fn output(&self, x: Value<S>) -> Value<S> {
        layer_norm_value(x, self.gamma@.data, self.beta@.data, self.eps)
    }

    open spec fn values(&self) -> Seq<Value<S>> {
        seq![self.gamma@, self.beta@]
    }

    open spec fn switched(&self, new: &Self, training: bool) -> bool {
        *new == *self
    }

    #[verifier::loop_isolation(false)]
    fn forward(&self, input: &Tensor<S>) -> (r: Tensor<S>) {
        let axes: usize = input.shape.len();
        let w: usize = input.shape[axes - 1];
        let len: usize = input.data.len();
        let ghost wi = w as int;
        let ghost want = self.output(input@).data;
        proof {
            tensor::lemma_volume_two(w, 1);
        }
        if w == 0 {
            proof {
                assert(tensor::volume(input.shape@.drop_last()) * 0 == 0) by (nonlinear_arith);
                assert(input.data@ =~= want);
            }
            return input.duplicate();
        }
        let mut data: Vec<S> = Vec::new();
        let rows: usize = len / w;
        proof {
            let v = tensor::volume(input.shape@.drop_last());
            assert(len as int / wi == v) by {
                vstd::arithmetic::div_mod::lemma_div_multiples_vanish(v, wi);
                assert(wi * v == v * wi) by (nonlinear_arith);
            }
            assert(0 * wi == 0) by (nonlinear_arith);
        }
        for i in 0..rows
            invariant
                rows == tensor::volume(input.shape@.drop_last()),
                data@.len() == i * wi,
                forall|k: int| 0 <= k < i * wi ==> #[trigger] data@[k] == want[k],
        {
            proof {
                activations::lemma_rows(input@, i as int);
            }
            let row = vstd::slice::slice_subrange(&input.data, i * w, i * w + w);
            assert(row@ =~= activations::row_at(input.data@, wi, i as int));
            let (mean, var) = moments(row);
            let spread = var.plus(self.eps).sqrt();
            for j in 0..w
                invariant
                    data@.len() == i * wi + j,
                    forall|k: int| 0 <= k < i * wi + j ==> #[trigger] data@[k] == want[k],
            {
                proof {
                    blas::lemma_cell(i as int, j as int, wi);
                    assert(i * wi + j < len) by (nonlinear_arith)
                        requires
                            i * wi + wi <= len,
                            j < wi,
                    ;
                }
                let x = row[j].minus(mean).over(spread);
                data.push(x.times(self.gamma.data[j]).plus(self.beta.data[j]));
            }
            assert(i * wi + wi == (i + 1) * wi) by (nonlinear_arith);
        }
        assert(data@ =~= want);
        Tensor {
            data,
            shape: copy_slice(&input.shape),
            requires_grad: input.requires_grad,
            grad: None,
        }
    }

    fn parameters(&self) -> (r: Vec<Tensor<S>>) {
        vec![self.gamma.duplicate(), self.beta.duplicate()]
    }

    fn set_training(&mut self, training: bool) {
    }
}

/// Normalizes the columns of a batch.
#[derive(Debug, Clone)]
pub struct BatchNorm1D<S> {
    pub gamma: Tensor<S>,
    pub beta: Tensor<S>,
    pub num_features: usize,
    pub eps: S,
}

/// A column of a matrix.
pub open spec fn column_of<S>(v: Value<S>, f: int) -> Seq<S> {
    Seq::new(v.shape[0] as nat, |b: int| v.data[b * v.shape[1] + f])
}

/// Each column relative to its mean and its spread.
pub open spec fn batch_normed<S: Real>(v: Value<S>, eps: S) -> Value<S> {
    let w = v.shape[1] as int;
    Value {
        data: Seq::new(
            v.data.len(),
            |x: int| standard(v.data[x], column_of(v, blas::col_of(x, w)), eps),
        ),
        shape: v.shape,
    }
}

impl<S: Real> BatchNorm1D<S> {
    pub fn new(num_features: usize) -> (r: Self)
        ensures
            is_uniform(r.gamma, num_features, S::spec_one()),
            is_uniform(r.beta, num_features, S::spec_zero()),
            r.eps == optim::ratio::<S>(1, 100000),
            r.num_features == num_features,
            r.wf(),
    {
        BatchNorm1D {
            gamma: uniform(num_features, S::one()),
            beta: uniform(num_features, S::zero()),
            num_features,
            eps: fraction(1, 100000),
        }
    }
}

proof fn lemma_in_matrix(b: int, f: int, batch: int, w: int)
    requires
        0 <= b < batch,
        0 <= f < w,
    ensures
        0 <= b * w + f < batch * w,
        b * w + w <= batch * w,
{
    assert(b * w + w <= batch * w && 0 <= b * w) by (nonlinear_arith)
        requires
            0 <= b < batch,
            0 <= w,
    ;
}

impl<S: Real> Module<S> for BatchNorm1D<S> {
    open spec fn wf(&self) -> bool {
        is_vector(self.gamma, self.num_features) && is_vector(self.beta, self.num_features)
    }

    open spec fn accepts(&self, x: Value<S>) -> bool {
        x.shape.len() == 2 && x.shape[1] == self.num_features
    }

    open spec fn output(&self, x: Value<S>) -> Value<S> {
        tensor::zipped(
            Op::Add,
            tensor::zipped(Op::Mul, batch_normed(x, self.eps), self.gamma@),
            self.beta@,
        )
    }

    open spec fn values(&self) -> Seq<Value<S>> {
        seq![self.gamma@, self.beta@]
    }

    open spec fn switched(&self, new: &Self, training: bool) -> bool {
        *new == *self
    }

    #[verifier::loop_isolation(false)]
    fn forward(&self, input: &Tensor<S>) -> (r: Tensor<S>) {
        let batch: usize = input.shape[0];
        let features: usize = input.shape[1];
        let ghost (bi, fi) = (batch as int, features as int);
        let ghost want = batch_normed(input@, self.eps).data;
        proof {
            assert(input.shape@ =~= seq![batch, features]);
            tensor::lemma_volume_two(batch, features);
        }
        let mut means: Vec<S> = Vec::new();
        let mut spreads: Vec<S> = Vec::new();
        for f in 0..features
            invariant
                means@.len() == f,
                spreads@.len() == f,
                forall|g: int|
                    0 <= g < f ==> #[trigger] means@[g] == mean_of(column_of(input@, g)),
                forall|g: int|
                    0 <= g < f ==> #[trigger] spreads@[g] == variance_of(
                        column_of(input@, g),
                    ).spec_plus(self.eps).spec_sqrt(),
        {
            let mut column: Vec<S> = Vec::new();
            for b in 0..batch
                invariant
                    column@ =~= column_of(input@, f as int).take(b as int),
            {
                proof {
                    lemma_in_matrix(b as int, f as int, bi, fi);
                }
                column.push(input.data[b * features + f]);
            }
            assert(column@ =~= column_of(input@, f as int));
            let (mean, var) = moments(&column);
            means.push(mean);
            spreads.push(var.plus(self.eps).sqrt());
        }
        let mut data: Vec<S> = Vec::new();
        assert(0 * fi == 0) by (nonlinear_arith);
        for b in 0..batch
            invariant
                data@.len() == b * fi,
                forall|k: int| 0 <= k < b * fi ==> #[trigger] data@[k] == want[k],
        {
            for f in 0..features
                invariant
                    data@.len() == b * fi + f,
                    forall|k: int| 0 <= k < b * fi + f ==> #[trigger] data@[k] == want[k],
            {
                proof {
                    lemma_in_matrix(b as int, f as int, bi, fi);
                    blas::lemma_cell(b as int, f as int, fi);
                }
                data.push(input.data[b * features + f].minus(means[f]).over(spreads[f]));
            }
            assert(b * fi + fi == (b + 1) * fi) by (nonlinear_arith);
        }
        assert(data@ =~= want);
        let normed = Tensor {
            data,
            shape: copy_slice(&input.shape),
            requires_grad: false,
            grad: None,
        };
        proof {
            lemma_bias_fits(normed@, self.gamma@);
        }
        let scaled = normed.mul(&self.gamma);
        proof {
            lemma_bias_fits(scaled@, self.beta@);
        }
        scaled.add(&self.beta)
    }

    fn parameters(&self) -> (r: Vec<Tensor<S>>) {
        vec![self.gamma.duplicate(), self.beta.duplicate()]
    }

    fn set_training(&mut self, training: bool) {
    }
}

// ---- Attention over compressed tokens
/// Attention over groups of tokens, each compressed to one. The input is passed through.
#[derive(Debug, Clone)]
pub struct CSA<S> {
    pub compression_layer: Linear<S>,
    pub group_size: usize,
}

impl<S: Real> CSA<S> {
    pub fn new(hidden_dim: usize, group_size: usize, draws: &mut Draws<S>) -> (r: Self)
        requires
            old(draws).wf(),
            hidden_dim * group_size <= usize::MAX,
            hidden_dim * (hidden_dim * group_size) <= old(draws).left(),
        ensures
            old(draws).taken(final(draws), hidden_dim * (hidden_dim * group_size)),
            drawn_linear(
                r.compression_layer,
                (hidden_dim * group_size) as usize,
                hidden_dim,
                true,
                old(draws).values@,
                old(draws).next as int,
            ),
            r.group_size == group_size,
            r.wf(),
    {
        CSA {
            compression_layer: Linear::new(hidden_dim * group_size, hidden_dim, true, draws),
            group_size,
        }
    }
}

impl<S: Real> Module<S> for CSA<S> {
    open spec fn wf(&self) -> bool {
        self.compression_layer.wf()
    }

    open spec fn accepts(&self, x: Value<S>) -> bool {
        true
    }

    open spec fn output(&self, x: Value<S>) -> Value<S> {
        x
    }

    open spec fn values(&self) -> Seq<Value<S>> {
        self.compression_layer.values()
    }

    open spec fn switched(&self, new: &Self, training: bool) -> bool {
        *new == *self
    }

    fn forward(&self, input: &Tensor<S>) -> (r: Tensor<S>) {
        input.duplicate()
    }

    fn parameters(&self) -> (r: Vec<Tensor<S>>) {
        self.compression_layer.parameters()
    }

    fn set_training(&mut self, training: bool) {
    }
}

/// Attention over large groups of tokens, each compressed to one. The input is passed through.
#[derive(Debug, Clone)]
pub struct HCA<S> {
    pub compression_layer: Linear<S>,
    pub group_size: usize,
}

impl<S: Real> HCA<S> {
    pub fn new(hidden_dim: usize, group_size: usize, draws: &mut Draws<S>) -> (r: Self)
        requires
            old(draws).wf(),
            hidden_dim * group_size <= usize::MAX,
            hidden_dim * (hidden_dim * group_size) <= old(draws).left(),
        ensures
            old(draws).taken(final(draws), hidden_dim * (hidden_dim * group_size)),
            drawn_linear(
                r.compression_layer,
                (hidden_dim * group_size) as usize,
                hidden_dim,
                true,
                old(draws).values@,
                old(draws).next as int,
            ),
            r.group_size == group_size,
            r.wf(),
    {
        HCA {
            compression_layer: Linear::new(hidden_dim * group_size, hidden_dim, true, draws),
            group_size,
        }
    }
}

impl<S: Real> Module<S> for HCA<S> {
    open spec fn wf(&self) -> bool {
        self.compression_layer.wf()
    }

    open spec fn accepts(&self, x: Value<S>) -> bool {
        true
    }

    open spec fn output(&self, x: Value<S>) -> Value<S> {
        x
    }

    open spec fn values(&self) -> Seq<Value<S>> {
        self.compression_layer.values()
    }

    open spec fn switched(&self, new: &Self, training: bool) -> bool {
        *new == *self
    }

    fn forward(&self, input: &Tensor<S>) -> (r: Tensor<S>) {
        input.duplicate()
    }

    fn parameters(&self) -> (r: Vec<Tensor<S>>) {
        self.compression_layer.parameters()
    }

    fn set_training(&mut self, training: bool) {
    }
}

// ---- Stacks of layers

/// A layer of one of the kinds above.
#[derive(Debug, Clone)]
pub enum Layer<S> {
    Linear(Linear<S>),
    ReLU(ReLU),
    Sigmoid(Sigmoid),
    Tanh(Tanh),
    Softmax(Softmax),
    GELU(GELU),
    SiLU(SiLU),
    Flatten(Flatten),
    Dropout(Dropout<S>),
    LayerNorm(LayerNorm<S>),
    BatchNorm1D(BatchNorm1D<S>),
    FakeQuantize(FakeQuantize<S>),
    CSA(CSA<S>),
    HCA(HCA<S>),
}

impl<S: Real> Module<S> for Layer<S> {
    open spec fn wf(&self) -> bool {
        match self {
            Layer::Linear(l) => <Linear<S> as Module<S>>::wf(l),
            Layer::ReLU(l) => <ReLU as Module<S>>::wf(l),
            Layer::Sigmoid(l) => <Sigmoid as Module<S>>::wf(l),
            Layer::Tanh(l) => <Tanh as Module<S>>::wf(l),
            Layer::Softmax(l) => <Softmax as Module<S>>::wf(l),
            Layer::GELU(l) => <GELU as Module<S>>::wf(l),
            Layer::SiLU(l) => <SiLU as Module<S>>::wf(l),
            Layer::Flatten(l) => <Flatten as Module<S>>::wf(l),
            Layer::Dropout(l) => <Dropout<S> as Module<S>>::wf(l),
            Layer::LayerNorm(l) => <LayerNorm<S> as Module<S>>::wf(l),
            Layer::BatchNorm1D(l) => <BatchNorm1D<S> as Module<S>>::wf(l),
            Layer::FakeQuantize(l) => <FakeQuantize<S> as Module<S>>::wf(l),
            Layer::CSA(l) => <CSA<S> as Module<S>>::wf(l),
            Layer::HCA(l) => <HCA<S> as Module<S>>::wf(l),
        }
    }

    open spec fn accepts(&self, x: Value<S>) -> bool {
        match self {
            Layer::Linear(l) => <Linear<S> as Module<S>>::accepts(l, x),
            Layer::ReLU(l) => <ReLU as Module<S>>::accepts(l, x),
            Layer::Sigmoid(l) => <Sigmoid as Module<S>>::accepts(l, x),
            Layer::Tanh(l) => <Tanh as Module<S>>::accepts(l, x),
            Layer::Softmax(l) => <Softmax as Module<S>>::accepts(l, x),
            Layer::GELU(l) => <GELU as Module<S>>::accepts(l, x),
            Layer::SiLU(l) => <SiLU as Module<S>>::accepts(l, x),
            Layer::Flatten(l) => <Flatten as Module<S>>::accepts(l, x),
            Layer::Dropout(l) => <Dropout<S> as Module<S>>::accepts(l, x),
            Layer::LayerNorm(l) => <LayerNorm<S> as Module<S>>::accepts(l, x),
            Layer::BatchNorm1D(l) => <BatchNorm1D<S> as Module<S>>::accepts(l, x),
            Layer::FakeQuantize(l) => <FakeQuantize<S> as Module<S>>::accepts(l, x),
            Layer::CSA(l) => <CSA<S> as Module<S>>::accepts(l, x),
            Layer::HCA(l) => <HCA<S> as Module<S>>::accepts(l, x),
        }
    }

    open spec fn output(&self, x: Value<S>) -> Value<S> {
        match self {
            Layer::Linear(l) => <Linear<S> as Module<S>>::output(l, x),
            Layer::ReLU(l) => <ReLU as Module<S>>::output(l, x),
            Layer::Sigmoid(l) => <Sigmoid as Module<S>>::output(l, x),
            Layer::Tanh(l) => <Tanh as Module<S>>::output(l, x),
            Layer::Softmax(l) => <Softmax as Module<S>>::output(l, x),
            Layer::GELU(l) => <GELU as Module<S>>::output(l, x),
            Layer::SiLU(l) => <SiLU as Module<S>>::output(l, x),
            Layer::Flatten(l) => <Flatten as Module<S>>::output(l, x),
            Layer::Dropout(l) => <Dropout<S> as Module<S>>::output(l, x),
            Layer::LayerNorm(l) => <LayerNorm<S> as Module<S>>::output(l, x),
            Layer::BatchNorm1D(l) => <BatchNorm1D<S> as Module<S>>::output(l, x),
            Layer::FakeQuantize(l) => <FakeQuantize<S> as Module<S>>::output(l, x),
            Layer::CSA(l) => <CSA<S> as Module<S>>::output(l, x),
            Layer::HCA(l) => <HCA<S> as Module<S>>::output(l, x),
        }
    }

    open spec fn values(&self) -> Seq<Value<S>> {
        match self {
            Layer::Linear(l) => <Linear<S> as Module<S>>::values(l),
            Layer::ReLU(l) => <ReLU as Module<S>>::values(l),
            Layer::Sigmoid(l) => <Sigmoid as Module<S>>::values(l),
            Layer::Tanh(l) => <Tanh as Module<S>>::values(l),
            Layer::Softmax(l) => <Softmax as Module<S>>::values(l),
            Layer::GELU(l) => <GELU as Module<S>>::values(l),
            Layer::SiLU(l) => <SiLU as Module<S>>::values(l),
            Layer::Flatten(l) => <Flatten as Module<S>>::values(l),
            Layer::Dropout(l) => <Dropout<S> as Module<S>>::values(l),
            Layer::LayerNorm(l) => <LayerNorm<S> as Module<S>>::values(l),
            Layer::BatchNorm1D(l) => <BatchNorm1D<S> as Module<S>>::values(l),
            Layer::FakeQuantize(l) => <FakeQuantize<S> as Module<S>>::values(l),
            Layer::CSA(l) => <CSA<S> as Module<S>>::values(l),
            Layer::HCA(l) => <HCA<S> as Module<S>>::values(l),
        }
    }

    open spec fn switched(&self, new: &Self, training: bool) -> bool {
        match (self, new) {
            (Layer::Dropout(a), Layer::Dropout(b)) => <Dropout<S> as Module<S>>::switched(a, b, training),
            _ => *new == *self && self !is Dropout,
        }
    }

    fn forward(&self, input: &Tensor<S>) -> (r: Tensor<S>) {
        match self {
            Layer::Linear(l) => <Linear<S> as Module<S>>::forward(l, input),
            Layer::ReLU(l) => <ReLU as Module<S>>::forward(l, input),
            Layer::Sigmoid(l) => <Sigmoid as Module<S>>::forward(l, input),
            Layer::Tanh(l) => <Tanh as Module<S>>::forward(l, input),
            Layer::Softmax(l) => <Softmax as Module<S>>::forward(l, input),
            Layer::GELU(l) => <GELU as Module<S>>::forward(l, input),
            Layer::SiLU(l) => <SiLU as Module<S>>::forward(l, input),
            Layer::Flatten(l) => <Flatten as Module<S>>::forward(l, input),
            Layer::Dropout(l) => <Dropout<S> as Module<S>>::forward(l, input),
            Layer::LayerNorm(l) => <LayerNorm<S> as Module<S>>::forward(l, input),
            Layer::BatchNorm1D(l) => <BatchNorm1D<S> as Module<S>>::forward(l, input),
            Layer::FakeQuantize(l) => <FakeQuantize<S> as Module<S>>::forward(l, input),
            Layer::CSA(l) => <CSA<S> as Module<S>>::forward(l, input),
            Layer::HCA(l) => <HCA<S> as Module<S>>::forward(l, input),
        }
    }

    fn parameters(&self) -> (r: Vec<Tensor<S>>) {
        match self {
            Layer::Linear(l) => <Linear<S> as Module<S>>::parameters(l),
            Layer::ReLU(l) => <ReLU as Module<S>>::parameters(l),
            Layer::Sigmoid(l) => <Sigmoid as Module<S>>::parameters(l),
            Layer::Tanh(l) => <Tanh as Module<S>>::parameters(l),
            Layer::Softmax(l) => <Softmax as Module<S>>::parameters(l),
            Layer::GELU(l) => <GELU as Module<S>>::parameters(l),
            Layer::SiLU(l) => <SiLU as Module<S>>::parameters(l),
            Layer::Flatten(l) => <Flatten as Module<S>>::parameters(l),
            Layer::Dropout(l) => <Dropout<S> as Module<S>>::parameters(l),
            Layer::LayerNorm(l) => <LayerNorm<S> as Module<S>>::parameters(l),
            Layer::BatchNorm1D(l) => <BatchNorm1D<S> as Module<S>>::parameters(l),
            Layer::FakeQuantize(l) => <FakeQuantize<S> as Module<S>>::parameters(l),
            Layer::CSA(l) => <CSA<S> as Module<S>>::parameters(l),
            Layer::HCA(l) => <HCA<S> as Module<S>>::parameters(l),
        }
    }

    fn set_training(&mut self, training: bool) {
        match self {
            Layer::Dropout(l) => {
                l.training = training;
            },
            _ => {},
        }
    }
}

/// Layers that are applied one after the other.
#[derive(Debug, Clone)]
pub struct Sequential<M> {
    pub layers: Vec<M>,
}

/// What the first layers make of a tensor.
pub open spec fn applied<S: Real, M: Module<S>>(layers: Seq<M>, x: Value<S>, n: int) -> Value<S>
    decreases n,
{
    if n <= 0 {
        x
    } else {
        layers[n - 1].output(applied(layers, x, n - 1))
    }
}

/// Each layer can be applied to what the layers before it make of a tensor.
pub open spec fn applicable<S: Real, M: Module<S>>(layers: Seq<M>, x: Value<S>) -> bool {
    forall|i: int| 0 <= i < layers.len() ==> (#[trigger] layers[i]).accepts(applied(layers, x, i))
}

/// Applies layers one after the other.
pub fn run_layers<S: Real, M: Module<S>>(layers: &Vec<M>, input: &Tensor<S>) -> (r: Tensor<S>)
    requires
        all_wf::<S, M>(layers@),
        input.wf(),
        applicable(layers@, input@),
    ensures
        r.wf(),
        r@ == applied(layers@, input@, layers@.len() as int),
{
    let mut x = input.duplicate();
    for i in 0..layers.len()
        invariant
            all_wf::<S, M>(layers@),
            applicable(layers@, input@),
            x.wf(),
            x@ == applied(layers@, input@, i as int),
    {
        x = layers[i].forward(&x);
    }
    x
}

/// The parameters of the first layers.
pub open spec fn layer_values<S: Real, M: Module<S>>(layers: Seq<M>, n: int) -> Seq<Value<S>>
    decreases n,
{
    if n <= 0 {
        Seq::empty()
    } else {
        layer_values(layers, n - 1) + layers[n - 1].values()
    }
}

impl<M> Sequential<M> {
    pub fn new() -> (r: Self)
        ensures
            r.layers@ == Seq::<M>::empty(),
    {
        Sequential { layers: Vec::new() }
    }

    /// The model with one more layer at its end.
    pub fn add(self, module: M) -> (r: Self)
        ensures
            r.layers@ == self.layers@.push(module),
    {
        let mut layers = self.layers;
        layers.push(module);
        Sequential { layers }
    }
}

impl<M> Default for Sequential<M> {
    fn default() -> (r: Self)
        ensures
            r.layers@ == Seq::<M>::empty(),
    {
        Self::new()
    }
}

impl<S: Real, M: Module<S>> Module<S> for Sequential<M> {
    open spec fn wf(&self) -> bool {
        forall|i: int| 0 <= i < self.layers@.len() ==> (#[trigger] self.layers@[i]).wf()
    }

    open spec fn accepts(&self, x: Value<S>) -> bool {
        applicable(self.layers@, x)
    }

    open spec fn output(&self, x: Value<S>) -> Value<S> {
        applied(self.layers@, x, self.layers@.len() as int)
    }

    open spec fn values(&self) -> Seq<Value<S>> {
        layer_values(self.layers@, self.layers@.len() as int)
    }

    open spec fn switched(&self, new: &Self, training: bool) -> bool {
        &&& new.layers@.len() == self.layers@.len()
        &&& forall|i: int|
            0 <= i < self.layers@.len() ==> (#[trigger] self.layers@[i]).switched(
                &new.layers@[i],
                training,
            )
    }

    fn forward(&self, input: &Tensor<S>) -> (r: Tensor<S>) {
        run_layers(&self.layers, input)
    }

    fn parameters(&self) -> (r: Vec<Tensor<S>>) {
        let mut params: Vec<Tensor<S>> = Vec::new();
        for i in 0..self.layers.len()
            invariant
                self.wf(),
                tensors_are(params@, layer_values(self.layers@, i as int)),
        {
            let more = self.layers[i].parameters();
            push_tensors(
                &mut params,
                more,
                Ghost(layer_values(self.layers@, i as int)),
                Ghost(self.layers@[i as int].values()),
            );
        }
        params
    }

    fn set_training(&mut self, training: bool) {
        let ghost before = self.layers@;
        let n: usize = self.layers.len();
        for i in 0..n
            invariant
                n == before.len(),
                before.len() == self.layers@.len(),
                forall|k: int| 0 <= k < self.layers@.len() ==> (#[trigger] self.layers@[k]).wf(),
                forall|k: int|
                    0 <= k < i ==> (#[trigger] before[k]).switched(&self.layers@[k], training),
                forall|k: int| i <= k < before.len() ==> #[trigger] self.layers@[k] == before[k],
        {
            self.layers[i].set_training(training);
        }
    }
}

// ---- New parameters

/// Tensors from a place on have the shapes of the given values.
pub open spec fn can_load<S>(params: Seq<Tensor<S>>, from: int, values: Seq<Value<S>>) -> bool {
    &&& 0 <= from
    &&& from + values.len() <= params.len()
    &&& forall|i: int|
        0 <= i < values.len() ==> (#[trigger] params[from + i]).wf() && params[from + i]@.shape
            == values[i].shape
}

/// The values of tensors from a place on.
pub open spec fn loaded_values<S>(params: Seq<Tensor<S>>, from: int, n: nat) -> Seq<Value<S>> {
    Seq::new(n, |i: int| params[from + i]@)
}

/// Two linear layers of the same sizes.
pub open spec fn same_linear<S>(a: Linear<S>, b: Linear<S>) -> bool {
    &&& b.weight@.shape == a.weight@.shape
    &&& match (a.bias, b.bias) {
        (Some(x), Some(y)) => y@.shape == x@.shape,
        (None, None) => true,
        _ => false,
    }
}

/// Two layers that differ in the values of their parameters alone.
pub open spec fn same_layer<S: Real>(a: Layer<S>, b: Layer<S>) -> bool {
    match (a, b) {
        (Layer::Linear(x), Layer::Linear(y)) => same_linear(x, y),
        (Layer::LayerNorm(x), Layer::LayerNorm(y)) => x.eps == y.eps && x.num_features
            == y.num_features,
        (Layer::BatchNorm1D(x), Layer::BatchNorm1D(y)) => x.eps == y.eps && x.num_features
            == y.num_features,
        (Layer::CSA(x), Layer::CSA(y)) => same_linear(x.compression_layer, y.compression_layer)
            && x.group_size == y.group_size,
        (Layer::HCA(x), Layer::HCA(y)) => same_linear(x.compression_layer, y.compression_layer)
            && x.group_size == y.group_size,
        (Layer::Linear(x), _) => false,
        (Layer::LayerNorm(x), _) => false,
        (Layer::BatchNorm1D(x), _) => false,
        (Layer::CSA(x), _) => false,
        (Layer::HCA(x), _) => false,
        _ => a == b,
    }
}

/// Two models that differ in the values of their parameters alone.
pub open spec fn same_layers<S: Real>(a: Seq<Layer<S>>, b: Seq<Layer<S>>) -> bool {
    &&& a.len() == b.len()
    &&& forall|i: int| 0 <= i < a.len() ==> same_layer(#[trigger] a[i], b[i])
}

impl<S: Real> Linear<S> {
    /// Takes new values for its parameters.
    fn load(&mut self, params: &[Tensor<S>], from: usize)
        requires
            old(self).wf(),
            can_load(params@, from as int, old(self).values()),
        ensures
            final(self).wf(),
            same_linear(*old(self), *final(self)),
            final(self).values() == loaded_values(params@, from as int, old(self).values().len()),
    {
        let ghost values = self.values();
        proof {
            assert(params@[from + 0].wf() && params@[from + 0]@.shape == values[0].shape);
            if self.bias is Some {
                assert(params@[from + 1].wf() && params@[from + 1]@.shape == values[1].shape);
            }
        }
        self.weight = params[from].duplicate();
        let bias = match &self.bias {
            Some(_) => Some(params[from + 1].duplicate()),
            None => None,
        };
        self.bias = bias;
        assert(self.values() =~= loaded_values(params@, from as int, values.len()));
    }
}

impl<S: Real> Layer<S> {
    /// Takes new values for its parameters, from a place of the given ones on.
    pub fn load(&mut self, params: &[Tensor<S>], from: usize)
        requires
            old(self).wf(),
            can_load(params@, from as int, old(self).values()),
        ensures
            final(self).wf(),
            same_layer(*old(self), *final(self)),
            final(self).values() == loaded_values(params@, from as int, old(self).values().len()),
    {
        let ghost values = self.values();
        match self {
            Layer::Linear(l) => {
                l.load(params, from);
            },
            Layer::LayerNorm(l) => {
                proof {
                    assert(params@[from + 0].wf() && params@[from + 0]@.shape == values[0].shape);
                    assert(params@[from + 1].wf() && params@[from + 1]@.shape == values[1].shape);
                }
                l.gamma = params[from].duplicate();
                l.beta = params[from + 1].duplicate();
            },
            Layer::BatchNorm1D(l) => {
                proof {
                    assert(params@[from + 0].wf() && params@[from + 0]@.shape == values[0].shape);
                    assert(params@[from + 1].wf() && params@[from + 1]@.shape == values[1].shape);
                }
                l.gamma = params[from].duplicate();
                l.beta = params[from + 1].duplicate();
            },
            Layer::CSA(l) => {
                l.compression_layer.load(params, from);
            },
            Layer::HCA(l) => {
                l.compression_layer.load(params, from);
            },
            _ => {},
        }
        assert(self.values() =~= loaded_values(params@, from as int, values.len()));
    }
}

pub(crate) proof fn lemma_layer_values_len<S: Real, M: Module<S>>(layers: Seq<M>, n: int, m: int)
    requires
        0 <= n <= m,
    ensures
        layer_values::<S, M>(layers, n).len() <= layer_values::<S, M>(layers, m).len(),
    decreases m,
{
    if n < m {
        lemma_layer_values_len::<S, M>(layers, n, m - 1);
    }
}

/// The parameters of a layer stand behind those of the layers before it.
pub(crate) proof fn lemma_layer_values_at<S: Real, M: Module<S>>(
    layers: Seq<M>,
    n: int,
    m: int,
    k: int,
)
    requires
        0 <= n < m,
        0 <= k < layers[n].values().len(),
    ensures
        layer_values::<S, M>(layers, n).len() + k < layer_values::<S, M>(layers, m).len(),
        layer_values::<S, M>(layers, m)[layer_values::<S, M>(layers, n).len() + k]
            == layers[n].values()[k],
    decreases m,
{
    if n < m - 1 {
        lemma_layer_values_at::<S, M>(layers, n, m - 1, k);
    }
}

// ---- Layers that work by chance

/// A layer can be applied to a tensor; a dropout layer always can.
pub open spec fn layer_takes<S: Real>(l: Layer<S>, x: Value<S>) -> bool {
    match l {
        Layer::Dropout(_) => true,
        _ => l.accepts(x),
    }
}

/// What a layer may make of a tensor: a dropout layer in training, what it makes of it with some
/// random numbers; any other layer, its output.
pub open spec fn layer_may_give<S: Real>(l: Layer<S>, x: Value<S>, y: Value<S>) -> bool {
    match l {
        Layer::Dropout(d) => if d.is_random() {
            exists|draws: Seq<S>|
                #![trigger random::are_units(draws)]
                random::are_units(draws) && draws.len() == x.data.len() && y == dropped(
                    x,
                    d.p,
                    draws,
                )
        } else {
            y == d.output(x)
        },
        _ => y == l.output(x),
    }
}

/// The layers from a place on can be applied to a tensor, whatever chance brings.
pub open spec fn layers_take<S: Real>(layers: Seq<Layer<S>>, i: int, x: Value<S>) -> bool
    decreases layers.len() - i,
{
    if i < 0 || i >= layers.len() {
        true
    } else {
        &&& layer_takes(layers[i], x)
        &&& forall|y: Value<S>| #[trigger]
            layer_may_give(layers[i], x, y) && y.wf() ==> layers_take(layers, i + 1, y)
    }
}

/// What the first layers may make of a tensor.
pub open spec fn layers_may_give<S: Real>(
    layers: Seq<Layer<S>>,
    n: int,
    x: Value<S>,
    z: Value<S>,
) -> bool
    decreases n,
{
    if n <= 0 {
        z == x
    } else {
        exists|y: Value<S>|
            layers_may_give(layers, n - 1, x, y) && #[trigger] layer_may_give(layers[n - 1], y, z)
    }
}

proof fn lemma_may_give_next<S: Real>(
    layers: Seq<Layer<S>>,
    n: int,
    x: Value<S>,
    y: Value<S>,
    z: Value<S>,
)
    requires
        0 <= n,
        layers_may_give(layers, n, x, y),
        layer_may_give(layers[n], y, z),
    ensures
        layers_may_give(layers, n + 1, x, z),
{
    let m = n + 1;
    assert(layers_may_give(layers, m - 1, x, y) && layer_may_give(layers[m - 1], y, z));
}

/// A layer that needs no random numbers.
pub open spec fn is_certain<S: Real>(l: Layer<S>) -> bool {
    l matches Layer::Dropout(d) ==> !d.is_random()
}

/// Where no layer needs random numbers, there is one result: the output.
pub proof fn lemma_certain_layers<S: Real>(layers: Seq<Layer<S>>, n: int, x: Value<S>, z: Value<S>)
    requires
        0 <= n <= layers.len(),
        forall|i: int| 0 <= i < layers.len() ==> is_certain(#[trigger] layers[i]),
        layers_may_give(layers, n, x, z),
    ensures
        z == applied(layers, x, n),
    decreases n,
{
    if n > 0 {
        let y = choose|y: Value<S>|
            layers_may_give(layers, n - 1, x, y) && #[trigger] layer_may_give(layers[n - 1], y, z);
        lemma_certain_layers(layers, n - 1, x, y);
        assert(is_certain(layers[n - 1]));
    }
}

impl<S: Real> Layer<S> {
    /// Applies the layer, with random numbers where it needs them.
    pub fn forward_random(&self, input: &Tensor<S>) -> (r: Tensor<S>)
        requires
            self.wf(),
            input.wf(),
            layer_takes(*self, input@),
        ensures
            r.wf(),
            layer_may_give(*self, input@, r@),
    {
        match self {
            Layer::Dropout(d) => d.forward_random(input),
            _ => self.forward(input),
        }
    }
}

impl<S: Real> Sequential<Layer<S>> {
    /// Applies the layers, with random numbers where they need them: in training.
    pub fn forward_random(&self, input: &Tensor<S>) -> (r: Tensor<S>)
        requires
            self.wf(),
            input.wf(),
            layers_take(self.layers@, 0, input@),
        ensures
            r.wf(),
            layers_may_give(self.layers@, self.layers@.len() as int, input@, r@),
    {
        let mut x = input.duplicate();
        let n: usize = self.layers.len();
        for i in 0..n
            invariant
                self.wf(),
                n == self.layers@.len(),
                x.wf(),
                layers_take(self.layers@, i as int, x@),
                layers_may_give(self.layers@, i as int, input@, x@),
        {
            let y = self.layers[i].forward_random(&x);
            proof {
                lemma_may_give_next(self.layers@, i as int, input@, x@, y@);
            }
            x = y;
        }
        x
    }
}

impl<S: Real> Sequential<Layer<S>> {
    /// Takes new values for all parameters.
    pub fn load_parameters(&mut self, params: &[Tensor<S>])
        requires
            old(self).wf(),
            params@.len() == old(self).values().len(),
            can_load(params@, 0, old(self).values()),
        ensures
            final(self).wf(),
            same_layers(old(self).layers@, final(self).layers@),
            tensors_are(params@, final(self).values()),
    {
        let ghost before = self.layers@;
        let ghost all = layer_values(before, before.len() as int);
        let n: usize = self.layers.len();
        let plen: usize = params.len();
        let mut at: usize = 0;
        for i in 0..n
            invariant
                n == before.len(),
                self.layers@.len() == n,
                plen == params@.len(),
                plen == all.len(),
                all == layer_values(before, n as int),
                can_load(params@, 0, all),
                all_wf::<S, Layer<S>>(before),
                all_wf::<S, Layer<S>>(self.layers@),
                at == layer_values(before, i as int).len(),
                layer_values(self.layers@, i as int) =~= loaded_values(params@, 0, at as nat),
                forall|k: int| 0 <= k < i ==> same_layer(#[trigger] before[k], self.layers@[k]),
                forall|k: int| i <= k < n ==> #[trigger] self.layers@[k] == before[k],
        {
            let ghost own = before[i as int].values();
            proof {
                lemma_layer_values_len::<S, Layer<S>>(before, i + 1, n as int);
                assert forall|k: int| 0 <= k < own.len() implies (#[trigger] params@[at + k]).wf()
                    && params@[at + k]@.shape == own[k].shape by {
                    lemma_layer_values_at::<S, Layer<S>>(before, i as int, n as int, k);
                    assert(params@[0 + (at + k)].wf());
                }
            }
            let ghost prior = self.layers@;
            let count: usize = self.layers[i].parameters().len();
            self.layers[i].load(params, at);
            proof {
                lemma_values_agree::<S, Layer<S>>(prior, self.layers@, i as int);
                assert(self.layers@[i as int].values() =~= loaded_values(
                    params@,
                    at as int,
                    own.len(),
                ));
            }
            at = at + count;
        }
        proof {
            let now = layer_values(self.layers@, n as int);
            assert forall|i: int| 0 <= i < params@.len() implies (#[trigger] params@[i]).wf()
                && params@[i]@ == now[i] by {
                assert(params@[0 + i].wf());
            }
        }
    }
}

pub(crate) proof fn lemma_values_agree<S: Real, M: Module<S>>(a: Seq<M>, b: Seq<M>, n: int)
    requires
        forall|k: int| 0 <= k < n ==> #[trigger] a[k] == b[k],
    ensures
        layer_values::<S, M>(a, n) == layer_values::<S, M>(b, n),
    decreases n,
{
    if n > 0 {
        lemma_values_agree::<S, M>(a, b, n - 1);
        assert(a[n - 1] == b[n - 1]);
    }
}

/// Layers of the same sizes take the same shapes to the same shapes.
pub proof fn lemma_same_layer_shapes<S: Real>(a: Layer<S>, b: Layer<S>, x: Value<S>, y: Value<S>)
    requires
        a.wf(),
        b.wf(),
        same_layer(a, b),
        x.wf(),
        y.wf(),
        x.shape == y.shape,
        a.accepts(x),
    ensures
        b.accepts(y),
        a.output(x).wf(),
        b.output(y).wf(),
        b.output(y).shape == a.output(x).shape,
{
    tensor::lemma_volume_nonneg(x.shape);
    match (a, b) {
        (Layer::Linear(l), Layer::Linear(m)) => {
            lemma_linear_shape(l, x);
            lemma_linear_shape(m, y);
        },
        (Layer::Softmax(_), _) => {
            if x.shape.len() == 0 {
                tensor::lemma_volume_two(1, 1);
            }
        },
        (Layer::Flatten(_), _) => {
            if x.shape.len() > 1 {
                lemma_volume_first(x.shape);
                let (n, w) = (x.shape[0], tensor::volume(x.shape.skip(1)));
                tensor::lemma_volume_nonneg(x.shape.skip(1));
                tensor::lemma_volume_two(n, w as usize);
            }
        },
        (Layer::BatchNorm1D(l), Layer::BatchNorm1D(m)) => {
            lemma_batch_shape(l, x);
            lemma_batch_shape(m, y);
        },
        _ => {},
    }
}

proof fn lemma_batch_shape<S: Real>(l: BatchNorm1D<S>, x: Value<S>)
    requires
        l.wf(),
        x.wf(),
        l.accepts(x),
    ensures
        l.output(x).wf(),
        l.output(x).shape == x.shape,
{
    let n = batch_normed(x, l.eps);
    assert(n.wf());
    assert(l.gamma@.shape =~= seq![n.shape[1]]);
    lemma_bias_fits(n, l.gamma@);
    let s = tensor::zipped(Op::Mul, n, l.gamma@);
    assert(s.wf());
    lemma_bias_fits(s, l.beta@);
}

/// One module takes what the other takes, to outputs of the same shape.
pub open spec fn same_shapes<S: Real, M: Module<S>>(a: M, b: M, x: Value<S>, y: Value<S>) -> bool {
    x.wf() && y.wf() && x.shape == y.shape && a.accepts(x) ==> {
        &&& b.accepts(y)
        &&& a.output(x).wf()
        &&& b.output(y).wf()
        &&& b.output(y).shape == a.output(x).shape
    }
}

proof fn lemma_chain<S: Real, M: Module<S>>(a: Seq<M>, b: Seq<M>, x: Value<S>, n: int)
    requires
        a.len() == b.len(),
        forall|i: int, u: Value<S>, v: Value<S>|
            0 <= i < a.len() ==> #[trigger] same_shapes(a[i], b[i], u, v),
        x.wf(),
        applicable(a, x),
        0 <= n <= a.len(),
    ensures
        forall|i: int| 0 <= i < n ==> (#[trigger] b[i]).accepts(applied(b, x, i)),
        applied(a, x, n).wf(),
        applied(b, x, n).wf(),
        applied(b, x, n).shape == applied(a, x, n).shape,
    decreases n,
{
    if n > 0 {
        lemma_chain(a, b, x, n - 1);
        assert(a[n - 1].accepts(applied(a, x, n - 1)));
        assert(same_shapes(a[n - 1], b[n - 1], applied(a, x, n - 1), applied(b, x, n - 1)));
    }
}

/// Models of the same sizes take the same inputs, to outputs of the same shape.
pub proof fn lemma_same_layers_accept<S: Real>(a: Seq<Layer<S>>, b: Seq<Layer<S>>, x: Value<S>)
    requires
        all_wf::<S, Layer<S>>(a),
        all_wf::<S, Layer<S>>(b),
        same_layers(a, b),
        x.wf(),
        applicable(a, x),
    ensures
        applicable(b, x),
        applied(a, x, a.len() as int).wf(),
        applied(b, x, b.len() as int).wf(),
        applied(b, x, b.len() as int).shape == applied(a, x, a.len() as int).shape,
{
    assert forall|i: int, u: Value<S>, v: Value<S>| 0 <= i < a.len() implies #[trigger] same_shapes(
        a[i],
        b[i],
        u,
        v,
    ) by {
        assert(same_layer(a[i], b[i]));
        assert(a[i].wf() && b[i].wf());
        if u.wf() && v.wf() && u.shape == v.shape && a[i].accepts(u) {
            lemma_same_layer_shapes(a[i], b[i], u, v);
        }
    }
    lemma_chain(a, b, x, a.len() as int);
}

/// A module that is applied to its own output again and again.
#[derive(Debug, Clone)]
pub struct Recursive<M> {
    pub module: M,
    pub depth: usize,
}

/// The output after a number of rounds.
pub open spec fn repeated<S: Real, M: Module<S>>(m: M, x: Value<S>, n: int) -> Value<S>
    decreases n,
{
    if n <= 0 {
        x
    } else {
        m.output(repeated(m, x, n - 1))
    }
}

impl<M> Recursive<M> {
    pub fn new(module: M, depth: usize) -> (r: Self)
        ensures
            r.module == module,
            r.depth == depth,
    {
        Recursive { module, depth }
    }
}

impl<S: Real, M: Module<S>> Module<S> for Recursive<M> {
    open spec fn wf(&self) -> bool {
        self.module.wf()
    }

    open spec fn accepts(&self, x: Value<S>) -> bool {
        forall|i: int| 0 <= i < self.depth ==> self.module.accepts(#[trigger] repeated(self.module, x, i))
    }

    open spec fn output(&self, x: Value<S>) -> Value<S> {
        repeated(self.module, x, self.depth as int)
    }

    open spec fn values(&self) -> Seq<Value<S>> {
        self.module.values()
    }

    open spec fn switched(&self, new: &Self, training: bool) -> bool {
        *new == *self
    }

    fn forward(&self, input: &Tensor<S>) -> (r: Tensor<S>) {
        let mut out = input.duplicate();
        for i in 0..self.depth
            invariant
                self.wf(),
                self.accepts(input@),
                out.wf(),
                out@ == repeated(self.module, input@, i as int),
        {
            out = self.module.forward(&out);
        }
        out
    }

    fn parameters(&self) -> (r: Vec<Tensor<S>>) {
        self.module.parameters()
    }

    fn set_training(&mut self, training: bool) {
    }
}

// ---- Mixtures of experts

/// The sum of a tensor and the first of others.
pub open spec fn combined<S: Real>(first: Value<S>, rest: Seq<Value<S>>, n: int) -> Value<S>
    decreases n,
{
    if n <= 0 {
        first
    } else {
        tensor::zipped(Op::Add, combined(first, rest, n - 1), rest[n - 1])
    }
}

/// The sums can be formed.
pub open spec fn combinable<S: Real>(first: Value<S>, rest: Seq<Value<S>>) -> bool {
    forall|i: int| 0 <= i < rest.len() ==> tensor::zips(combined(first, rest, i), #[trigger] rest[i])
}

/// What each expert makes of a tensor.
pub open spec fn outputs<S: Real, M: Module<S>>(experts: Seq<M>, x: Value<S>) -> Seq<Value<S>> {
    Seq::new(experts.len(), |i: int| experts[i].output(x))
}

/// Each expert can be applied.
pub open spec fn all_accept<S: Real, M: Module<S>>(experts: Seq<M>, x: Value<S>) -> bool {
    forall|i: int| 0 <= i < experts.len() ==> (#[trigger] experts[i]).accepts(x)
}

pub open spec fn all_wf<S: Real, M: Module<S>>(experts: Seq<M>) -> bool {
    forall|i: int| 0 <= i < experts.len() ==> (#[trigger] experts[i]).wf()
}

/// Two layers with a rectifier between them, as drawn.
pub open spec fn drawn_expert<S: Real>(
    e: Sequential<Layer<S>>,
    features: usize,
    hidden: usize,
    draws: Seq<S>,
    at: int,
) -> bool {
    &&& e.layers@.len() == 3
    &&& e.layers@[0] matches Layer::Linear(l)
    &&& drawn_linear(l, features, hidden, true, draws, at)
    &&& e.layers@[1] is ReLU
    &&& e.layers@[2] matches Layer::Linear(l)
    &&& drawn_linear(l, hidden, features, true, draws, at + hidden * features)
}

/// The number of weights of an expert.
pub open spec fn expert_size(features: int, hidden: int) -> int {
    hidden * features + features * hidden
}

/// Experts as drawn one after the other.
pub open spec fn drawn_experts<S: Real>(
    experts: Seq<Sequential<Layer<S>>>,
    features: usize,
    hidden: usize,
    draws: Seq<S>,
    at: int,
) -> bool {
    forall|i: int|
        0 <= i < experts.len() ==> drawn_expert(
            #[trigger] experts[i],
            features,
            hidden,
            draws,
            at + i * expert_size(features as int, hidden as int),
        )
}

fn new_expert<S: Real>(features: usize, hidden: usize, draws: &mut Draws<S>) -> (r: Sequential<
    Layer<S>,
>)
    requires
        old(draws).wf(),
        expert_size(features as int, hidden as int) <= old(draws).left(),
    ensures
        old(draws).taken(final(draws), expert_size(features as int, hidden as int)),
        drawn_expert(r, features, hidden, old(draws).values@, old(draws).next as int),
        r.wf(),
{
    proof {
        assert(0 <= hidden * features && 0 <= features * hidden) by (nonlinear_arith);
    }
    let first = Linear::new(features, hidden, true, draws);
    let second = Linear::new(hidden, features, true, draws);
    Sequential::new().add(Layer::Linear(first)).add(Layer::ReLU(ReLU)).add(Layer::Linear(second))
}

proof fn lemma_share(i: int, n: int, e: int)
    requires
        0 <= i < n,
        0 <= e,
    ensures
        0 <= i * e,
        i * e + e <= n * e,
        i * e + e == (i + 1) * e,
{
    assert(0 <= i * e && i * e + e <= n * e && i * e + e == (i + 1) * e) by (nonlinear_arith)
        requires
            0 <= i < n,
            0 <= e,
    ;
}

fn new_experts<S: Real>(features: usize, hidden: usize, n: usize, draws: &mut Draws<S>) -> (r: Vec<
    Sequential<Layer<S>>,
>)
    requires
        old(draws).wf(),
        n * expert_size(features as int, hidden as int) <= old(draws).left(),
    ensures
        r@.len() == n,
        old(draws).taken(final(draws), n * expert_size(features as int, hidden as int)),
        drawn_experts(r@, features, hidden, old(draws).values@, old(draws).next as int),
        all_wf::<S, Sequential<Layer<S>>>(r@),
{
    let mut experts: Vec<Sequential<Layer<S>>> = Vec::new();
    let ghost e = expert_size(features as int, hidden as int);
    let ghost first = *draws;
    proof {
        assert(0 <= e) by {
            assert(0 <= hidden * features && 0 <= features * hidden) by (nonlinear_arith);
        }
        assert(0 * e == 0) by (nonlinear_arith);
    }
    for i in 0..n
        invariant
            0 <= e == expert_size(features as int, hidden as int),
            n * e <= first.left(),
            experts@.len() == i,
            first.taken(draws, i * e),
            drawn_experts(experts@, features, hidden, first.values@, first.next as int),
            all_wf::<S, Sequential<Layer<S>>>(experts@),
    {
        proof {
            lemma_share(i as int, n as int, e);
        }
        experts.push(new_expert(features, hidden, draws));
    }
    experts
}

/// Adds up what the experts make of a tensor.
fn add_experts<S: Real, M: Module<S>>(first: Tensor<S>, experts: &[M], input: &Tensor<S>) -> (r:
    Tensor<S>)
    requires
        first.wf(),
        input.wf(),
        all_wf::<S, M>(experts@),
        all_accept(experts@, input@),
        combinable(first@, outputs(experts@, input@)),
    ensures
        r.wf(),
        r@ == combined(first@, outputs(experts@, input@), experts@.len() as int),
{
    let ghost outs = outputs(experts@, input@);
    let ghost start = first@;
    let mut sum = first;
    for i in 0..experts.len()
        invariant
            input.wf(),
            all_wf::<S, M>(experts@),
            all_accept(experts@, input@),
            outs == outputs(experts@, input@),
            combinable(start, outs),
            sum.wf(),
            sum@ == combined(start, outs, i as int),
    {
        let out = experts[i].forward(input);
        assert(out@ == outs[i as int]);
        sum = sum.add(&out);
    }
    sum
}

/// Appends the parameters of experts.
pub fn push_experts<S: Real, M: Module<S>>(params: &mut Vec<Tensor<S>>, experts: &[M], Ghost(before): Ghost<
    Seq<Value<S>>,
>)
    requires
        tensors_are(old(params)@, before),
        all_wf::<S, M>(experts@),
    ensures
        tensors_are(final(params)@, before + layer_values(experts@, experts@.len() as int)),
{
    assert(before + layer_values::<S, M>(experts@, 0) =~= before);
    for i in 0..experts.len()
        invariant
            all_wf::<S, M>(experts@),
            tensors_are(params@, before + layer_values(experts@, i as int)),
    {
        let more = experts[i].parameters();
        push_tensors(
            params,
            more,
            Ghost(before + layer_values(experts@, i as int)),
            Ghost(experts@[i as int].values()),
        );
        assert((before + layer_values(experts@, i as int)) + experts@[i as int].values() =~= before
            + layer_values(experts@, i + 1));
    }
}

/// The sum of what all experts make of a tensor.
#[derive(Debug, Clone)]
pub struct NormalMoE<S> {
    pub gate: Linear<S>,
    pub experts: Vec<Sequential<Layer<S>>>,
}

impl<S: Real> NormalMoE<S> {
    pub open spec fn size(in_features: int, hidden_features: int, num_experts: int) -> int {
        num_experts * in_features + num_experts * expert_size(in_features, hidden_features)
    }

    pub fn new(
        in_features: usize,
        hidden_features: usize,
        num_experts: usize,
        draws: &mut Draws<S>,
    ) -> (r: Self)
        requires
            old(draws).wf(),
            Self::size(in_features as int, hidden_features as int, num_experts as int) <= old(draws).left(),
        ensures
            old(draws).taken(
                final(draws),
                Self::size(in_features as int, hidden_features as int, num_experts as int),
            ),
            drawn_linear(
                r.gate,
                in_features,
                num_experts,
                true,
                old(draws).values@,
                old(draws).next as int,
            ),
            r.experts@.len() == num_experts,
            drawn_experts(
                r.experts@,
                in_features,
                hidden_features,
                old(draws).values@,
                old(draws).next + num_experts * in_features,
            ),
            r.wf(),
    {
        proof {
            let e = expert_size(in_features as int, hidden_features as int);
            assert(0 <= e) by {
                assert(0 <= hidden_features * in_features && 0 <= in_features * hidden_features)
                    by (nonlinear_arith);
            }
            assert(0 <= num_experts * e && 0 <= num_experts * in_features) by (nonlinear_arith)
                requires
                    0 <= e,
            ;
        }
        let gate = Linear::new(in_features, num_experts, true, draws);
        let experts = new_experts(in_features, hidden_features, num_experts, draws);
        NormalMoE { gate, experts }
    }
}

impl<S: Real> Module<S> for NormalMoE<S> {
    open spec fn wf(&self) -> bool {
        self.gate.wf() && all_wf::<S, Sequential<Layer<S>>>(self.experts@)
    }

    open spec fn accepts(&self, x: Value<S>) -> bool {
        &&& self.gate.accepts(x)
        &&& self.experts@.len() > 0
        &&& all_accept(self.experts@, x)
        &&& combinable(self.experts@[0].output(x), outputs(self.experts@.skip(1), x))
    }

    open spec fn output(&self, x: Value<S>) -> Value<S> {
        combined(
            self.experts@[0].output(x),
            outputs(self.experts@.skip(1), x),
            self.experts@.len() - 1,
        )
    }

    open spec fn values(&self) -> Seq<Value<S>> {
        self.gate.values() + layer_values(self.experts@, self.experts@.len() as int)
    }

    open spec fn switched(&self, new: &Self, training: bool) -> bool {
        *new == *self
    }

    fn forward(&self, input: &Tensor<S>) -> (r: Tensor<S>) {
        let first = self.experts[0].forward(input);
        let rest = vstd::slice::slice_subrange(&self.experts, 1, self.experts.len());
        assert(rest@ =~= self.experts@.skip(1));
        assert forall|i: int| 0 <= i < rest@.len() implies (#[trigger] rest@[i]).wf()
            && rest@[i].accepts(input@) by {
            assert(rest@[i] == self.experts@[i + 1]);
        }
        add_experts(first, rest, input)
    }

    fn parameters(&self) -> (r: Vec<Tensor<S>>) {
        let mut params = self.gate.parameters();
        push_experts(&mut params, &self.experts, Ghost(self.gate.values()));
        params
    }

    fn set_training(&mut self, training: bool) {
    }
}

/// The sum of what a shared expert and the others make of a tensor.
#[derive(Debug, Clone)]
pub struct FineGrainedMoE<S> {
    pub gate: Linear<S>,
    pub shared_expert: Sequential<Layer<S>>,
    pub experts: Vec<Sequential<Layer<S>>>,
}

impl<S: Real> FineGrainedMoE<S> {
    pub open spec fn size(
        in_features: int,
        shared_hidden: int,
        expert_hidden: int,
        num_experts: int,
    ) -> int {
        num_experts * in_features + expert_size(in_features, shared_hidden) + num_experts
            * expert_size(in_features, expert_hidden)
    }

    pub fn new(
        in_features: usize,
        shared_hidden: usize,
        expert_hidden: usize,
        num_experts: usize,
        draws: &mut Draws<S>,
    ) -> (r: Self)
        requires
            old(draws).wf(),
            Self::size(
                in_features as int,
                shared_hidden as int,
                expert_hidden as int,
                num_experts as int,
            ) <= old(draws).left(),
        ensures
            old(draws).taken(
                final(draws),
                Self::size(
                    in_features as int,
                    shared_hidden as int,
                    expert_hidden as int,
                    num_experts as int,
                ),
            ),
            drawn_linear(
                r.gate,
                in_features,
                num_experts,
                true,
                old(draws).values@,
                old(draws).next as int,
            ),
            drawn_expert(
                r.shared_expert,
                in_features,
                shared_hidden,
                old(draws).values@,
                old(draws).next + num_experts * in_features,
            ),
            r.experts@.len() == num_experts,
            drawn_experts(
                r.experts@,
                in_features,
                expert_hidden,
                old(draws).values@,
                old(draws).next + num_experts * in_features + expert_size(
                    in_features as int,
                    shared_hidden as int,
                ),
            ),
            r.wf(),
    {
        proof {
            let e = expert_size(in_features as int, expert_hidden as int);
            let f = expert_size(in_features as int, shared_hidden as int);
            assert(0 <= e && 0 <= f) by {
                assert(0 <= expert_hidden * in_features && 0 <= in_features * expert_hidden)
                    by (nonlinear_arith);
                assert(0 <= shared_hidden * in_features && 0 <= in_features * shared_hidden)
                    by (nonlinear_arith);
            }
            assert(0 <= num_experts * e && 0 <= num_experts * in_features) by (nonlinear_arith)
                requires
                    0 <= e,
            ;
        }
        let gate = Linear::new(in_features, num_experts, true, draws);
        let shared_expert = new_expert(in_features, shared_hidden, draws);
        let experts = new_experts(in_features, expert_hidden, num_experts, draws);
        FineGrainedMoE { gate, shared_expert, experts }
    }
}

impl<S: Real> Module<S> for FineGrainedMoE<S> {
    open spec fn wf(&self) -> bool {
        self.gate.wf() && self.shared_expert.wf() && all_wf::<S, Sequential<Layer<S>>>(
            self.experts@,
        )
    }

    open spec fn accepts(&self, x: Value<S>) -> bool {
        &&& self.gate.accepts(x)
        &&& self.shared_expert.accepts(x)
        &&& all_accept(self.experts@, x)
        &&& combinable(self.shared_expert.output(x), outputs(self.experts@, x))
    }

    open spec fn output(&self, x: Value<S>) -> Value<S> {
        combined(
            self.shared_expert.output(x),
            outputs(self.experts@, x),
            self.experts@.len() as int,
        )
    }

    open spec fn values(&self) -> Seq<Value<S>> {
        self.gate.values() + self.shared_expert.values() + layer_values(
            self.experts@,
            self.experts@.len() as int,
        )
    }

    open spec fn switched(&self, new: &Self, training: bool) -> bool {
        *new == *self
    }

    fn forward(&self, input: &Tensor<S>) -> (r: Tensor<S>) {
        let first = self.shared_expert.forward(input);
        add_experts(first, &self.experts, input)
    }

    fn parameters(&self) -> (r: Vec<Tensor<S>>) {
        let mut params = self.gate.parameters();
        let more = self.shared_expert.parameters();
        push_tensors(
            &mut params,
            more,
            Ghost(self.gate.values()),
            Ghost(self.shared_expert.values()),
        );
        push_experts(
            &mut params,
            &self.experts,
            Ghost(self.gate.values() + self.shared_expert.values()),
        );
        params
    }

    fn set_training(&mut self, training: bool) {
    }
}

// ---- Recurrent cells

/// A cell with a hidden state.
#[derive(Debug, Clone)]
pub struct RNNCell<S> {
    pub weight_ih: Linear<S>,
    pub weight_hh: Linear<S>,
}

impl<S: Real> RNNCell<S> {
    pub fn new(input_size: usize, hidden_size: usize, draws: &mut Draws<S>) -> (r: Self)
        requires
            old(draws).wf(),
            hidden_size * input_size + hidden_size * hidden_size <= old(draws).left(),
        ensures
            old(draws).taken(
                final(draws),
                hidden_size * input_size + hidden_size * hidden_size,
            ),
            drawn_linear(
                r.weight_ih,
                input_size,
                hidden_size,
                true,
                old(draws).values@,
                old(draws).next as int,
            ),
            drawn_linear(
                r.weight_hh,
                hidden_size,
                hidden_size,
                true,
                old(draws).values@,
                old(draws).next + hidden_size * input_size,
            ),
            r.wf(),
    {
        proof {
            assert(0 <= hidden_size * input_size && 0 <= hidden_size * hidden_size)
                by (nonlinear_arith);
        }
        let weight_ih = Linear::new(input_size, hidden_size, true, draws);
        let weight_hh = Linear::new(hidden_size, hidden_size, true, draws);
        RNNCell { weight_ih, weight_hh }
    }

    /// An input and a hidden state fit the cell.
    pub open spec fn takes(&self, x: Value<S>, hidden: Value<S>) -> bool {
        &&& self.weight_ih.accepts(x)
        &&& self.weight_hh.accepts(hidden)
        &&& tensor::zips(self.weight_ih.output(x), self.weight_hh.output(hidden))
    }

    /// The next hidden state.
    pub open spec fn stepped(&self, x: Value<S>, hidden: Value<S>) -> Value<S> {
        activations::pointwise(
            Pointwise::Tanh,
            tensor::zipped(Op::Add, self.weight_ih.output(x), self.weight_hh.output(hidden)),
        )
    }

    /// The next hidden state.
    pub fn step(&self, input: &Tensor<S>, hidden: &Tensor<S>) -> (r: Tensor<S>)
        requires
            self.wf(),
            input.wf(),
            hidden.wf(),
            self.takes(input@, hidden@),
        ensures
            r.wf(),
            r@ == self.stepped(input@, hidden@),
    {
        let ih = self.weight_ih.forward(input);
        let hh = self.weight_hh.forward(hidden);
        apply(Pointwise::Tanh, &ih.add(&hh))
    }

    /// No hidden state yet.
    pub open spec fn at_rest(&self, x: Value<S>) -> Value<S> {
        Value {
            data: Seq::new(
                tensor::volume(seq![x.shape[0], self.weight_hh.weight@.shape[0]]) as nat,
                |i: int| S::spec_zero(),
            ),
            shape: seq![x.shape[0], self.weight_hh.weight@.shape[0]],
        }
    }
}

impl<S: Real> Module<S> for RNNCell<S> {
    open spec fn wf(&self) -> bool {
        self.weight_ih.wf() && self.weight_hh.wf()
    }

    open spec fn accepts(&self, x: Value<S>) -> bool {
        &&& self.takes(x, self.at_rest(x))
        &&& tensor::countable(self.at_rest(x).shape)
    }

    open spec fn output(&self, x: Value<S>) -> Value<S> {
        self.stepped(x, self.at_rest(x))
    }

    open spec fn values(&self) -> Seq<Value<S>> {
        self.weight_ih.values() + self.weight_hh.values()
    }

    open spec fn switched(&self, new: &Self, training: bool) -> bool {
        *new == *self
    }

    fn forward(&self, input: &Tensor<S>) -> (r: Tensor<S>) {
        let batch_size: usize = input.shape[0];
        let hidden_size: usize = self.weight_hh.weight.shape[0];
        let shape: Vec<usize> = vec![batch_size, hidden_size];
        assert(shape@ =~= seq![batch_size, hidden_size]);
        let hidden = Tensor::zeros(&shape);
        assert(hidden@ =~= self.at_rest(input@));
        self.step(input, &hidden)
    }

    fn parameters(&self) -> (r: Vec<Tensor<S>>) {
        let mut params = self.weight_ih.parameters();
        let more = self.weight_hh.parameters();
        push_tensors(
            &mut params,
            more,
            Ghost(self.weight_ih.values()),
            Ghost(self.weight_hh.values()),
        );
        params
    }

    fn set_training(&mut self, training: bool) {
    }
}

// ---- Attention

/// The sum of the products of numbers at the same places.
pub open spec fn inner<S: Real>(a: Seq<S>, b: Seq<S>) -> S {
    number::sum_n(|p: int| a[p].spec_times(b[p]), a.len() as int)
}

/// How well a query fits each of the keys of its batch.
pub open spec fn scores<S: Real>(query: Seq<S>, k: Seq<S>, first: int, keys: int, scale: S) -> Seq<S> {
    Seq::new(
        keys as nat,
        |j: int|
            inner(query, activations::row_at(k, query.len() as int, first + j)).spec_times(scale),
    )
}

/// The values of a batch, weighted.
pub open spec fn weighted<S: Real>(
    weights: Seq<S>,
    v: Seq<S>,
    first: int,
    width: int,
    c: int,
) -> S {
    number::sum_n(
        |j: int| weights[j].spec_times(activations::row_at(v, width, first + j)[c]),
        weights.len() as int,
    )
}

/// What a query takes from the values of its batch.
pub open spec fn attended<S: Real>(
    query: Seq<S>,
    k: Seq<S>,
    v: Seq<S>,
    first: int,
    keys: int,
    scale: S,
) -> Seq<S> {
    let weights = activations::softmax_row(scores(query, k, first, keys, scale));
    Seq::new(query.len(), |c: int| weighted(weights, v, first, query.len() as int, c))
}

/// Queries, keys and values of the same batches and the same width, as many values as keys.
pub open spec fn attention_fits<S>(q: Value<S>, k: Value<S>, v: Value<S>) -> bool {
    &&& q.shape.len() == 3
    &&& k.shape.len() == 3
    &&& v.shape == k.shape
    &&& k.shape[0] == q.shape[0]
    &&& k.shape[2] == q.shape[2]
}

/// The values, weighted by how well the keys fit each query.
pub open spec fn attention_value<S: Real>(
    q: Value<S>,
    k: Value<S>,
    v: Value<S>,
    scale: S,
) -> Value<S> {
    let (s, n, d) = (q.shape[1] as int, k.shape[1] as int, q.shape[2] as int);
    Value {
        data: Seq::new(
            q.data.len(),
            |x: int|
                attended(
                    activations::row_at(q.data, d, blas::row_of(x, d)),
                    k.data,
                    v.data,
                    blas::row_of(blas::row_of(x, d), s) * n,
                    n,
                    scale,
                )[blas::col_of(x, d)],
        ),
        shape: q.shape,
    }
}

/// The volume of a shape of three axes.
pub proof fn lemma_volume_three(a: usize, b: usize, c: usize)
    ensures
        tensor::volume(seq![a, b, c]) == a * b * c,
        a * b <= usize::MAX && a * b * c <= usize::MAX ==> tensor::countable(seq![a, b, c]),
{
    assert(seq![a, b, c].drop_last() =~= seq![a, b]);
    tensor::lemma_volume_two(a, b);
}

/// The sum of the products of numbers at the same places.
pub fn inner_of<S: Real>(a: &[S], b: &[S]) -> (r: S)
    requires
        a@.len() == b@.len(),
    ensures
        r == inner(a@, b@),
{
    let mut s = S::zero();
    let ghost f = |p: int| a@[p].spec_times(b@[p]);
    for p in 0..a.len()
        invariant
            a@.len() == b@.len(),
            f == (|p: int| a@[p].spec_times(b@[p])),
            s == number::sum_n(f, p as int),
    {
        s = s.plus(a[p].times(b[p]));
    }
    s
}

/// A row lies within the rows.
pub proof fn lemma_row_in(i: int, rows: int, w: int, len: int)
    requires
        0 <= i < rows,
        0 <= w,
        len == rows * w,
    ensures
        0 <= i * w,
        i * w + w <= len,
{
    assert(0 <= i * w && i * w + w <= rows * w) by (nonlinear_arith)
        requires
            0 <= i < rows,
            0 <= w,
    ;
}

/// What a query takes from the values of its batch.
fn attend<S: Real>(query: &[S], k: &[S], v: &[S], first: usize, keys: usize, scale: S) -> (r: Vec<S>)
    requires
        first + keys <= usize::MAX,
        (first + keys) * query@.len() <= k@.len(),
        k@.len() == v@.len(),
    ensures
        r@ == attended(query@, k@, v@, first as int, keys as int, scale),
{
    let w: usize = query.len();
    let len: usize = k.len();
    let ghost wi = w as int;
    let ghost want = scores(query@, k@, first as int, keys as int, scale);
    let mut fits: Vec<S> = Vec::new();
    for j in 0..keys
        invariant
            w == query@.len(),
            wi == w,
            first + keys <= usize::MAX,
            (first + keys) * wi <= k@.len(),
            k@.len() == len,
            want == scores(query@, k@, first as int, keys as int, scale),
            fits@ =~= want.take(j as int),
    {
        proof {
            lemma_row_in(first + j, first + keys, wi, (first + keys) * wi);
        }
        let row = vstd::slice::slice_subrange(k, (first + j) * w, (first + j) * w + w);
        assert(row@ =~= activations::row_at(k@, wi, first + j));
        fits.push(inner_of(query, row).times(scale));
    }
    assert(fits@ =~= want);
    let weights = activations::softmax_of(&fits);
    let ghost out = attended(query@, k@, v@, first as int, keys as int, scale);
    let mut r: Vec<S> = Vec::new();
    for c in 0..w
        invariant
            w == query@.len(),
            wi == w,
            weights@.len() == keys,
            first + keys <= usize::MAX,
            (first + keys) * wi <= v@.len(),
            v@.len() == len,
            forall|i: int|
                0 <= i < w ==> #[trigger] out[i] == weighted(weights@, v@, first as int, wi, i),
            out.len() == w,
            r@ =~= out.take(c as int),
    {
        let mut s = S::zero();
        let ghost f = |j: int|
            weights@[j].spec_times(activations::row_at(v@, wi, first + j)[c as int]);
        for j in 0..keys
            invariant
                c < w,
                wi == w,
                weights@.len() == keys,
                first + keys <= usize::MAX,
                (first + keys) * wi <= v@.len(),
                v@.len() == len,
                f == (|j: int|
                    weights@[j].spec_times(activations::row_at(v@, wi, first + j)[c as int])),
                s == number::sum_n(f, j as int),
        {
            proof {
                lemma_row_in(first + j, first + keys, wi, (first + keys) * wi);
            }
            s = s.plus(weights[j].times(v[(first + j) * w + c]));
        }
        r.push(s);
    }
    assert(r@ =~= out);
    r
}

/// The values, weighted by how well the keys fit each query.
#[verifier::loop_isolation(false)]
pub fn scaled_attention<S: Real>(q: &Tensor<S>, k: &Tensor<S>, v: &Tensor<S>, scale: S) -> (r:
    Tensor<S>)
    requires
        q.wf(),
        k.wf(),
        v.wf(),
        attention_fits(q@, k@, v@),
    ensures
        r.wf(),
        r@ == attention_value(q@, k@, v@, scale),
        r.requires_grad == (q.requires_grad || k.requires_grad || v.requires_grad),
{
    let batch: usize = q.shape[0];
    let s: usize = q.shape[1];
    let d: usize = q.shape[2];
    let n: usize = k.shape[1];
    let ghost (bi, si, di, ni) = (batch as int, s as int, d as int, n as int);
    let ghost want = attention_value(q@, k@, v@, scale).data;
    proof {
        assert(q.shape@ =~= seq![batch, s, d]);
        assert(k.shape@ =~= seq![batch, n, d]);
        reveal_with_fuel(tensor::countable, 3);
        lemma_volume_three(batch, s, d);
        lemma_volume_three(batch, n, d);
        assert(seq![batch, n, d].drop_last() =~= seq![batch, n]);
        assert(seq![batch, s, d].drop_last() =~= seq![batch, s]);
        tensor::lemma_volume_two(batch, n);
        tensor::lemma_volume_two(batch, s);
        assert(0 * si == 0) by (nonlinear_arith);
        assert(0 * di == 0) by (nonlinear_arith);
    }
    let vlen: usize = v.data.len();
    let qlen: usize = q.data.len();
    let mut data: Vec<S> = Vec::new();
    for b in 0..batch
        invariant
            data@.len() == (b * si) * di,
            forall|x: int| 0 <= x < (b * si) * di ==> #[trigger] data@[x] == want[x],
    {
        proof {
            lemma_row_in(b as int, bi, ni, bi * ni);
            lemma_row_in(b as int, bi, si, bi * si);
        }
        let first: usize = b * n;
        assert((first + ni) * di <= (bi * ni) * di) by (nonlinear_arith)
            requires
                first + ni <= bi * ni,
                0 <= di,
        ;
        for i in 0..s
            invariant
                data@.len() == (b * si + i) * di,
                forall|x: int| 0 <= x < (b * si + i) * di ==> #[trigger] data@[x] == want[x],
        {
            let t: usize = b * s + i;
            proof {
                lemma_row_in(t as int, bi * si, di, (bi * si) * di);
                blas::lemma_cell(b as int, i as int, si);
            }
            let query = vstd::slice::slice_subrange(&q.data, t * d, t * d + d);
            assert(query@ =~= activations::row_at(q.data@, di, t as int));
            let out = attend(query, &k.data, &v.data, first, n, scale);
            for c in 0..d
                invariant
                    data@.len() == t * di + c,
                    forall|x: int| 0 <= x < t * di + c ==> #[trigger] data@[x] == want[x],
            {
                proof {
                    blas::lemma_cell(t as int, c as int, di);
                }
                data.push(out[c]);
            }
            assert(t * di + di == (t + 1) * di) by (nonlinear_arith);
        }
        assert(b * si + si == (b + 1) * si) by (nonlinear_arith);
    }
    assert(data@ =~= want);
    Tensor {
        data,
        shape: copy_slice(&q.shape),
        requires_grad: q.requires_grad || k.requires_grad || v.requires_grad,
        grad: None,
    }
}

/// The reciprocal of the square root of a width.
pub open spec fn width_scale<S: Real>(d: usize) -> S {
    S::spec_one().spec_over(S::spec_count(d).spec_sqrt())
}

/// The softmax of the scaled products of queries and keys, applied to the values.
pub fn attention<S: Real>(q: &Tensor<S>, k: &Tensor<S>, v: &Tensor<S>) -> (r: Tensor<S>)
    requires
        q.wf(),
        k.wf(),
        v.wf(),
        attention_fits(q@, k@, v@),
    ensures
        r.wf(),
        r@ == attention_value(q@, k@, v@, width_scale(q@.shape[2])),
        r.requires_grad == (q.requires_grad || k.requires_grad || v.requires_grad),
{
    let d: usize = q.shape[2];
    scaled_attention(q, k, v, S::one().over(S::count(d).sqrt()))
}

/// The same as [`attention`], without ever holding all scores at once.
pub fn flash_attention<S: Real>(q: &Tensor<S>, k: &Tensor<S>, v: &Tensor<S>) -> (r: Tensor<S>)
    requires
        q.wf(),
        k.wf(),
        v.wf(),
        attention_fits(q@, k@, v@),
    ensures
        r.wf(),
        r@ == attention_value(q@, k@, v@, width_scale(q@.shape[2])),
        r.requires_grad == (q.requires_grad || k.requires_grad || v.requires_grad),
{
    let d: usize = q.shape[2];
    scaled_attention(q, k, v, S::one().over(S::count(d).sqrt()))
}

} // verus!
