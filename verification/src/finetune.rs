//! Fine-tuning: low-rank adapters, learning rate schedules and a training loop.
use vstd::prelude::*;
use crate::blas;
use crate::blas::Transpose;
use crate::distributed;
use crate::distributed::{grad_norm, scale_gradients};
use crate::nn;
use crate::nn::{Draws, Layer, Linear, Module, Sequential};
use crate::number::Real;
use crate::optim;
use crate::optim::fraction;
use crate::tensor;
use crate::tensor::{Op, Tensor, Value};

verus! {

// ---- Low-rank adapters

/// A linear layer with fixed weights, to which the product of two small matrices is added.
#[derive(Debug, Clone)]
pub struct LoraAdapter<S> {
    /// The weights that stay, with a row for each output.
    pub frozen_weight: Tensor<S>,
    /// From the inputs to the few.
    pub lora_a: Tensor<S>,
    /// From the few to the outputs.
    pub lora_b: Tensor<S>,
    pub bias: Option<Tensor<S>>,
    pub rank: usize,
    pub alpha: S,
    pub in_features: usize,
    pub out_features: usize,
}

/// A random number between zero and one as a small one of either sign.
pub open spec fn jitter<S: Real>(d: S) -> S {
    d.spec_times(optim::ratio(2, 100)).spec_minus(optim::ratio(1, 100))
}

/// A matrix as a value.
pub open spec fn matrix<S>(data: Seq<S>, rows: usize, cols: usize) -> Value<S> {
    Value { data, shape: seq![rows, cols] }
}

fn matrix_tensor<S: Real>(data: Vec<S>, rows: usize, cols: usize, requires_grad: bool) -> (r: Tensor<S>)
    requires
        data@.len() == rows * cols,
    ensures
        r.wf(),
        r@ == matrix(data@, rows, cols),
        r.requires_grad == requires_grad,
{
    let len: usize = data.len();
    let shape: Vec<usize> = vec![rows, cols];
    proof {
        assert(shape@ =~= seq![rows, cols]);
        tensor::lemma_volume_two(rows, cols);
    }
    Tensor::new(data, shape, requires_grad)
}

fn zero_matrix<S: Real>(rows: usize, cols: usize) -> (r: Tensor<S>)
    requires
        rows * cols <= usize::MAX,
    ensures
        r.wf(),
        r@ == matrix(Seq::new((rows * cols) as nat, |i: int| S::spec_zero()), rows, cols),
{
    let shape: Vec<usize> = vec![rows, cols];
    proof {
        assert(shape@ =~= seq![rows, cols]);
        tensor::lemma_volume_two(rows, cols);
    }
    Tensor::zeros(&shape)
}

/// A tensor of one number.
pub open spec fn single<S>(v: S) -> Value<S> {
    Value { data: seq![v], shape: seq![1usize] }
}

fn single_tensor<S: Real>(v: S) -> (r: Tensor<S>)
    ensures
        r.wf(),
        r@ == single(v),
{
    let data: Vec<S> = vec![v];
    let shape: Vec<usize> = vec![1];
    proof {
        tensor::lemma_volume_two(1, 1);
        assert(data@ =~= seq![v]);
        assert(shape@ =~= seq![1usize]);
    }
    Tensor::from_vec(data, shape)
}

/// A single number can be combined with a matrix and keeps its shape.
proof fn lemma_single_fits<S: Real>(m: Value<S>, v: S)
    requires
        m.wf(),
        m.shape.len() == 2,
    ensures
        tensor::zips(m, single(v)),
        tensor::broadcast(m.shape, single(v).shape) == m.shape,
{
    reveal_with_fuel(tensor::broadcastable, 3);
    let (a, b) = (m.shape, seq![1usize]);
    let empty = Seq::<usize>::empty();
    assert(b.drop_last() =~= empty);
    assert(tensor::broadcast(a.drop_last(), empty) == a.drop_last());
    assert(tensor::broadcast(a, b) =~= a);
}

impl<S: Real> LoraAdapter<S> {
    /// A new adapter: small weights into the few, no weights out of them, and drawn weights that
    /// stay.
    pub open spec fn fresh(
        &self,
        in_features: usize,
        out_features: usize,
        rank: usize,
        alpha: S,
        draws: Seq<S>,
        at: int,
    ) -> bool {
        &&& self.is_fresh_pair(in_features, out_features, rank, alpha, draws, at)
        &&& self.frozen_weight@ == matrix(
            draws.subrange(
                at + rank * in_features,
                at + rank * in_features + out_features * in_features,
            ),
            out_features,
            in_features,
        )
        &&& self.bias matches Some(b)
        &&& b@ == (Value::<S> {
            data: Seq::new(out_features as nat, |i: int| S::spec_zero()),
            shape: seq![out_features],
        })
    }

    /// The two small matrices are new.
    pub open spec fn is_fresh_pair(
        &self,
        in_features: usize,
        out_features: usize,
        rank: usize,
        alpha: S,
        draws: Seq<S>,
        at: int,
    ) -> bool {
        &&& self.in_features == in_features
        &&& self.out_features == out_features
        &&& self.rank == rank
        &&& self.alpha == alpha
        &&& self.lora_a@ == matrix(
            Seq::new((rank * in_features) as nat, |i: int| jitter(draws[at + i])),
            rank,
            in_features,
        )
        &&& self.lora_a.requires_grad
        &&& self.lora_b@ == matrix(
            Seq::new((out_features * rank) as nat, |i: int| S::spec_zero()),
            out_features,
            rank,
        )
    }

    pub fn new(
        in_features: usize,
        out_features: usize,
        rank: usize,
        alpha: S,
        draws: &mut Draws<S>,
    ) -> (r: Self)
        requires
            old(draws).wf(),
            out_features * rank <= usize::MAX,
            rank * in_features + out_features * in_features <= old(draws).left(),
        ensures
            old(draws).taken(
                final(draws),
                rank * in_features + out_features * in_features,
            ),
            r.fresh(
                in_features,
                out_features,
                rank,
                alpha,
                old(draws).values@,
                old(draws).next as int,
            ),
            r.wf(),
    {
        proof {
            assert(0 <= rank * in_features && 0 <= out_features * in_features)
                by (nonlinear_arith);
        }
        let len: usize = draws.values.len();
        let ghost at = draws.next as int;
        let n: usize = rank * in_features;
        let raw = draws.take(n);
        let mut a_data: Vec<S> = Vec::new();
        for i in 0..n
            invariant
                n == raw@.len(),
                raw@ == draws.values@.subrange(at, at + n),
                0 <= at,
                at + n <= draws.values@.len(),
                a_data@ =~= Seq::new(i as nat, |k: int| jitter(draws.values@[at + k])),
        {
            a_data.push(raw[i].times(fraction(2, 100)).minus(fraction(1, 100)));
        }
        let lora_a = matrix_tensor(a_data, rank, in_features, true);
        let lora_b = zero_matrix(out_features, rank);
        let w = draws.take(out_features * in_features);
        let frozen_weight = matrix_tensor(w, out_features, in_features, true);
        let one: Vec<usize> = vec![out_features];
        proof {
            assert(one@ =~= seq![out_features]);
            tensor::lemma_volume_two(out_features, 1);
        }
        let b = Tensor::zeros(&one);
        assert(b@.data =~= Seq::new(out_features as nat, |i: int| S::spec_zero()));
        LoraAdapter {
            frozen_weight,
            lora_a,
            lora_b,
            bias: Some(b),
            rank,
            alpha,
            in_features,
            out_features,
        }
    }

    /// An adapter for a layer, whose weights stay.
    pub fn from_linear(layer: &Linear<S>, rank: usize, alpha: S, draws: &mut Draws<S>) -> (r: Self)
        requires
            layer.wf(),
            old(draws).wf(),
            layer.weight@.shape[0] * rank <= usize::MAX,
            rank * layer.weight@.shape[1] + layer.weight@.shape[0] * layer.weight@.shape[1]
                <= old(draws).left(),
        ensures
            old(draws).taken(
                final(draws),
                rank * layer.weight@.shape[1] + layer.weight@.shape[0] * layer.weight@.shape[1],
            ),
            r.wf(),
            r.is_fresh_pair(
                layer.weight@.shape[1],
                layer.weight@.shape[0],
                rank,
                alpha,
                old(draws).values@,
                old(draws).next as int,
            ),
            r.frozen_weight@ == layer.weight@,
            match (r.bias, layer.bias) {
                (Some(a), Some(b)) => a@ == b@,
                (None, None) => true,
                _ => false,
            },
    {
        let out_f: usize = layer.weight.shape[0];
        let in_f: usize = layer.weight.shape[1];
        assert(layer.weight@.shape =~= seq![out_f, in_f]);
        let mut adapter = Self::new(in_f, out_f, rank, alpha, draws);
        adapter.frozen_weight = layer.weight.duplicate();
        adapter.bias = match &layer.bias {
            Some(b) => Some(b.duplicate()),
            None => None,
        };
        adapter
    }

    /// How strongly the small matrices count.
    pub open spec fn scale(&self) -> S {
        self.alpha.spec_over(S::spec_count(self.rank))
    }

    /// What the fixed weights make of the input.
    pub open spec fn base(&self, x: Value<S>) -> Value<S> {
        let p = tensor::matmul_value(x, tensor::transpose_value(self.frozen_weight@));
        match self.bias {
            Some(b) => tensor::zipped(Op::Add, p, b@),
            None => p,
        }
    }

    /// What the small matrices make of the input.
    pub open spec fn detour(&self, x: Value<S>) -> Value<S> {
        tensor::zipped(
            Op::Mul,
            tensor::matmul_value(
                tensor::matmul_value(x, tensor::transpose_value(self.lora_a@)),
                tensor::transpose_value(self.lora_b@),
            ),
            single(self.scale()),
        )
    }

    /// The two small matrices.
    pub fn trainable_parameters(&self) -> (r: Vec<Tensor<S>>)
        requires
            self.wf(),
        ensures
            nn::tensors_are(r@, seq![self.lora_a@, self.lora_b@]),
    {
        vec![self.lora_a.duplicate(), self.lora_b.duplicate()]
    }

    /// What the small matrices add to the fixed weights.
    pub open spec fn delta(&self) -> Value<S> {
        tensor::zipped(
            Op::Mul,
            tensor::matmul_value(self.lora_b@, self.lora_a@),
            single(self.scale()),
        )
    }

    /// The product of the small matrices can be counted.
    pub open spec fn merges(&self) -> bool {
        self.out_features * self.in_features <= usize::MAX
    }

    /// What the small matrices add to the fixed weights.
    pub fn weight_delta(&self) -> (r: Tensor<S>)
        requires
            self.wf(),
            self.merges(),
        ensures
            r.wf(),
            r@ == self.delta(),
            r@.shape == seq![self.out_features, self.in_features],
    {
        let scale = self.alpha.over(S::count(self.rank));
        let delta = self.lora_b.matmul(&self.lora_a);
        proof {
            lemma_single_fits(delta@, scale);
            assert(delta@.shape =~= seq![self.out_features, self.in_features]);
        }
        delta.mul(&single_tensor(scale))
    }

    /// The fixed weights with what the small matrices add.
    pub fn merge(&self) -> (r: Tensor<S>)
        requires
            self.wf(),
            self.merges(),
        ensures
            r.wf(),
            r@ == tensor::zipped(Op::Add, self.frozen_weight@, self.delta()),
            r@.shape == self.frozen_weight@.shape,
    {
        let delta = self.weight_delta();
        proof {
            tensor::lemma_zip_same_shape(Op::Add, self.frozen_weight@, delta@);
        }
        self.frozen_weight.add(&delta)
    }
}

/// An adapter that has no weights out of the few adds nothing: what it merges is what stays.
pub proof fn lemma_fresh_adds_nothing<S: Real>(l: LoraAdapter<S>)
    requires
        blas::zero_absorbs::<S>(),
        l.wf(),
        l.merges(),
        forall|i: int| 0 <= i < l.lora_b@.data.len() ==> #[trigger] l.lora_b@.data[i] == S::spec_zero(),
    ensures
        l.delta().shape == l.frozen_weight@.shape,
        forall|i: int|
            0 <= i < l.delta().data.len() ==> #[trigger] l.delta().data[i] == S::spec_zero(),
        tensor::zipped(Op::Add, l.frozen_weight@, l.delta()) == l.frozen_weight@,
{
    let (m, k, n) = (l.out_features as int, l.rank as int, l.in_features as int);
    let (b, a) = (l.lora_b@, l.lora_a@);
    let p = tensor::matmul_value(b, a);
    tensor::lemma_volume_two(l.out_features, l.rank);
    tensor::lemma_volume_two(l.out_features, l.in_features);
    assert(p.shape =~= seq![l.out_features, l.in_features]);
    assert forall|x: int| 0 <= x < m * n implies #[trigger] p.data[x] == S::spec_zero() by {
        assert(0 < n) by (nonlinear_arith)
            requires
                0 <= x < m * n,
                0 <= n,
        ;
        let i = blas::row_of(x, n);
        vstd::arithmetic::div_mod::lemma_div_pos_is_pos(x, n);
        vstd::arithmetic::div_mod::lemma_multiply_divide_lt(x, n, m);
        assert forall|t: int| 0 <= t < k implies #[trigger] b.mat()(i, t) == S::spec_zero() by {
            nn::lemma_row_in(i, m, k, m * k);
            assert(b.data[i * k + t] == S::spec_zero());
        }
        blas::lemma_zero_row(Transpose::NoTrans, m, n, k, b.mat(), a.mat(), i, blas::col_of(x, n));
    }
    lemma_single_fits(p, l.scale());
    let d = l.delta();
    assert forall|x: int| 0 <= x < d.data.len() implies #[trigger] d.data[x] == S::spec_zero() by {
        tensor::lemma_source_identity(x, p.shape);
    }
    let w = l.frozen_weight@;
    tensor::lemma_zip_same_shape(Op::Add, w, d);
    assert(tensor::zipped(Op::Add, w, d).data =~= w.data);
}

impl<S: Real> Module<S> for LoraAdapter<S> {
    open spec fn wf(&self) -> bool {
        &&& self.frozen_weight.wf()
        &&& self.frozen_weight@.shape == seq![self.out_features, self.in_features]
        &&& self.lora_a.wf()
        &&& self.lora_a@.shape == seq![self.rank, self.in_features]
        &&& self.lora_b.wf()
        &&& self.lora_b@.shape == seq![self.out_features, self.rank]
        &&& self.bias matches Some(b) ==> b.wf() && b@.shape == seq![self.out_features]
    }

    /// A matrix with a column for each input, of sizes that can be counted.
    open spec fn accepts(&self, x: Value<S>) -> bool {
        let n = x.shape[0];
        &&& x.shape.len() == 2
        &&& x.shape[1] == self.in_features
        &&& n * self.out_features <= usize::MAX
        &&& n * self.rank <= usize::MAX
    }

    open spec fn output(&self, x: Value<S>) -> Value<S> {
        tensor::zipped(Op::Add, self.base(x), self.detour(x))
    }

    open spec fn values(&self) -> Seq<Value<S>> {
        seq![self.lora_a@, self.lora_b@]
    }

    open spec fn switched(&self, new: &Self, training: bool) -> bool {
        *new == *self
    }

    fn forward(&self, input: &Tensor<S>) -> (r: Tensor<S>) {
        let scale = self.alpha.over(S::count(self.rank));
        let w_t = self.frozen_weight.transpose();
        let out = input.matmul(&w_t);
        let out = match &self.bias {
            Some(b) => {
                proof {
                    nn::lemma_bias_fits(out@, b@);
                }
                out.add(b)
            },
            None => out,
        };
        let a_t = self.lora_a.transpose();
        let b_t = self.lora_b.transpose();
        let lora_out = input.matmul(&a_t).matmul(&b_t);
        proof {
            lemma_single_fits(lora_out@, scale);
        }
        let scaled = lora_out.mul(&single_tensor(scale));
        proof {
            assert(scaled@.shape =~= out@.shape);
            tensor::lemma_zip_same_shape(Op::Add, out@, scaled@);
        }
        out.add(&scaled)
    }

    fn parameters(&self) -> (r: Vec<Tensor<S>>) {
        self.trainable_parameters()
    }

    fn set_training(&mut self, training: bool) {
    }
}

/// A layer of a model with adapters: one in place of a linear layer, or a layer that stays.
#[derive(Debug, Clone)]
pub enum Adapted<S> {
    Adapter(LoraAdapter<S>),
    Frozen(Layer<S>),
}

impl<S: Real> Module<S> for Adapted<S> {
    open spec fn wf(&self) -> bool {
        match self {
            Adapted::Adapter(l) => l.wf(),
            Adapted::Frozen(l) => l.wf(),
        }
    }

    open spec fn accepts(&self, x: Value<S>) -> bool {
        match self {
            Adapted::Adapter(l) => l.accepts(x),
            Adapted::Frozen(l) => l.accepts(x),
        }
    }

    open spec fn output(&self, x: Value<S>) -> Value<S> {
        match self {
            Adapted::Adapter(l) => l.output(x),
            Adapted::Frozen(l) => l.output(x),
        }
    }

    /// The small matrices alone.
    open spec fn values(&self) -> Seq<Value<S>> {
        match self {
            Adapted::Adapter(l) => l.values(),
            Adapted::Frozen(_) => Seq::empty(),
        }
    }

    open spec fn switched(&self, new: &Self, training: bool) -> bool {
        match (self, new) {
            (Adapted::Adapter(l), Adapted::Adapter(m)) => l.switched(m, training),
            (Adapted::Frozen(l), Adapted::Frozen(m)) => l.switched(m, training),
            _ => false,
        }
    }

    fn forward(&self, input: &Tensor<S>) -> (r: Tensor<S>) {
        match self {
            Adapted::Adapter(l) => l.forward(input),
            Adapted::Frozen(l) => l.forward(input),
        }
    }

    fn parameters(&self) -> (r: Vec<Tensor<S>>) {
        match self {
            Adapted::Adapter(l) => l.parameters(),
            Adapted::Frozen(_) => Vec::new(),
        }
    }

    fn set_training(&mut self, training: bool) {
        match self {
            Adapted::Adapter(l) => {
                l.set_training(training);
            },
            Adapted::Frozen(l) => {
                l.set_training(training);
            },
        }
    }
}

/// How many random numbers the adapter of a layer takes.
pub open spec fn adapter_size<S>(l: Layer<S>, rank: usize) -> int {
    match l {
        Layer::Linear(l) => rank * l.weight@.shape[1] + l.weight@.shape[0] * l.weight@.shape[1],
        _ => 0,
    }
}

/// How many random numbers the adapters of the first layers take.
pub open spec fn adapter_sizes<S>(layers: Seq<Layer<S>>, rank: usize, n: int) -> int
    decreases n,
{
    if n <= 0 {
        0
    } else {
        adapter_sizes(layers, rank, n - 1) + adapter_size(layers[n - 1], rank)
    }
}

/// A linear layer has a new adapter, around the weights that it has; any other layer stays.
pub open spec fn is_adapted<S: Real>(
    a: Adapted<S>,
    l: Layer<S>,
    rank: usize,
    alpha: S,
    draws: Seq<S>,
    at: int,
) -> bool {
    match l {
        Layer::Linear(l) => {
            &&& a matches Adapted::Adapter(r)
            &&& r.is_fresh_pair(
                l.weight@.shape[1],
                l.weight@.shape[0],
                rank,
                alpha,
                draws,
                at,
            )
            &&& r.frozen_weight@ == l.weight@
            &&& match (r.bias, l.bias) {
                (Some(a), Some(b)) => a@ == b@,
                (None, None) => true,
                _ => false,
            }
        },
        _ => a matches Adapted::Frozen(m) && m == l,
    }
}

/// Nothing but the small matrices differs.
pub open spec fn same_frozen<S: Real>(a: Adapted<S>, b: Adapted<S>) -> bool {
    match (a, b) {
        (Adapted::Adapter(l), Adapted::Adapter(m)) => m == (LoraAdapter {
            lora_a: m.lora_a,
            lora_b: m.lora_b,
            ..l
        }),
        (Adapted::Frozen(l), Adapted::Frozen(m)) => m == l,
        _ => false,
    }
}

proof fn lemma_sizes_grow<S: Real>(layers: Seq<Layer<S>>, rank: usize, n: int, m: int)
    requires
        0 <= n <= m,
    ensures
        0 <= adapter_sizes(layers, rank, n) <= adapter_sizes(layers, rank, m),
    decreases m,
{
    if m > 0 {
        match layers[m - 1] {
            Layer::Linear(l) => {
                let (a, b) = (l.weight@.shape[1], l.weight@.shape[0]);
                assert(0 <= rank * a && 0 <= b * a) by (nonlinear_arith);
            },
            _ => {},
        }
        if n < m {
            lemma_sizes_grow(layers, rank, n, m - 1);
        } else {
            lemma_sizes_grow(layers, rank, n - 1, m - 1);
        }
    }
}

impl<S: Real> Adapted<S> {
    /// Takes new values for the small matrices, from a place of the given ones on.
    pub fn load(&mut self, params: &[Tensor<S>], from: usize)
        requires
            old(self).wf(),
            nn::can_load(params@, from as int, old(self).values()),
        ensures
            final(self).wf(),
            same_frozen(*old(self), *final(self)),
            final(self).values() == nn::loaded_values(
                params@,
                from as int,
                old(self).values().len(),
            ),
    {
        let ghost values = self.values();
        match self {
            Adapted::Adapter(l) => {
                proof {
                    assert(params@[from + 0].wf() && params@[from + 0]@.shape == values[0].shape);
                    assert(params@[from + 1].wf() && params@[from + 1]@.shape == values[1].shape);
                }
                l.lora_a = params[from].duplicate();
                l.lora_b = params[from + 1].duplicate();
            },
            Adapted::Frozen(_) => {},
        }
        assert(self.values() =~= nn::loaded_values(params@, from as int, values.len()));
    }
}

impl<S: Real> Sequential<Adapted<S>> {
    /// Takes new values for all small matrices. All else stays as it is.
    pub fn load_adapters(&mut self, params: &[Tensor<S>])
        requires
            old(self).wf(),
            params@.len() == old(self).values().len(),
            nn::can_load(params@, 0, old(self).values()),
        ensures
            final(self).wf(),
            final(self).layers@.len() == old(self).layers@.len(),
            forall|i: int|
                0 <= i < old(self).layers@.len() ==> same_frozen(
                    #[trigger] old(self).layers@[i],
                    final(self).layers@[i],
                ),
            nn::tensors_are(params@, final(self).values()),
    {
        let ghost before = self.layers@;
        let ghost all = nn::layer_values::<S, Adapted<S>>(before, before.len() as int);
        let n: usize = self.layers.len();
        let plen: usize = params.len();
        let mut at: usize = 0;
        for i in 0..n
            invariant
                n == before.len(),
                self.layers@.len() == n,
                plen == params@.len(),
                plen == all.len(),
                all == nn::layer_values::<S, Adapted<S>>(before, n as int),
                nn::can_load(params@, 0, all),
                forall|k: int| 0 <= k < n ==> (#[trigger] before[k]).wf(),
                forall|k: int| 0 <= k < n ==> (#[trigger] self.layers@[k]).wf(),
                at == nn::layer_values::<S, Adapted<S>>(before, i as int).len(),
                nn::layer_values::<S, Adapted<S>>(self.layers@, i as int) =~= nn::loaded_values(
                    params@,
                    0,
                    at as nat,
                ),
                forall|k: int| 0 <= k < i ==> same_frozen(#[trigger] before[k], self.layers@[k]),
                forall|k: int| i <= k < n ==> #[trigger] self.layers@[k] == before[k],
        {
            let ghost own = before[i as int].values();
            proof {
                nn::lemma_layer_values_len::<S, Adapted<S>>(before, i + 1, n as int);
                assert forall|k: int| 0 <= k < own.len() implies (#[trigger] params@[at + k]).wf()
                    && params@[at + k]@.shape == own[k].shape by {
                    nn::lemma_layer_values_at::<S, Adapted<S>>(before, i as int, n as int, k);
                    assert(params@[0 + (at + k)].wf());
                }
            }
            let ghost prior = self.layers@;
            let count: usize = self.layers[i].parameters().len();
            self.layers[i].load(params, at);
            proof {
                nn::lemma_values_agree::<S, Adapted<S>>(prior, self.layers@, i as int);
                assert(self.layers@[i as int].values() =~= nn::loaded_values(
                    params@,
                    at as int,
                    own.len(),
                ));
            }
            at = at + count;
        }
        proof {
            let now = nn::layer_values::<S, Adapted<S>>(self.layers@, n as int);
            assert forall|i: int| 0 <= i < params@.len() implies (#[trigger] params@[i]).wf()
                && params@[i]@ == now[i] by {
                assert(params@[0 + i].wf());
            }
        }
    }
}

// ---- Learning rates

/// How the learning rate changes with the steps.
#[derive(Debug, Clone, Copy)]
pub enum LrSchedule<S> {
    Constant,
    /// Grows to `base_lr` and stays.
    Warmup { warmup_steps: usize, base_lr: S },
    /// Grows to `base_lr`, falls along a cosine to `min_lr`, and stays.
    CosineWithWarmup { warmup_steps: usize, total_steps: usize, base_lr: S, min_lr: S },
}

/// A part of a rate.
pub open spec fn warming<S: Real>(base_lr: S, step: usize, warmup_steps: usize) -> S {
    base_lr.spec_times(S::spec_count(step).spec_over(S::spec_count(warmup_steps)))
}

impl<S: Real> LrSchedule<S> {
    /// The rate at a step.
    pub open spec fn rate(&self, step: usize) -> S {
        match self {
            LrSchedule::Constant => optim::ratio(1, 1000),
            LrSchedule::Warmup { warmup_steps, base_lr } => if step < *warmup_steps {
                warming(*base_lr, step, *warmup_steps)
            } else {
                *base_lr
            },
            LrSchedule::CosineWithWarmup { warmup_steps, total_steps, base_lr, min_lr } => if step
                < *warmup_steps {
                warming(*base_lr, step, *warmup_steps)
            } else if *total_steps <= step {
                *min_lr
            } else {
                let progress = S::spec_count((step - *warmup_steps) as usize).spec_over(
                    S::spec_count((*total_steps - *warmup_steps) as usize),
                );
                let cosine = optim::ratio::<S>(1, 2).spec_times(
                    S::spec_one().spec_plus(
                        optim::ratio::<S>(13176795, 4194304).spec_times(progress).spec_cos(),
                    ),
                );
                min_lr.spec_plus(base_lr.spec_minus(*min_lr).spec_times(cosine))
            },
        }
    }

    /// The rate at a step.
    pub fn lr(&self, step: usize) -> (r: S)
        ensures
            r == self.rate(step),
    {
        match self {
            LrSchedule::Constant => fraction(1, 1000),
            LrSchedule::Warmup { warmup_steps, base_lr } => if step < *warmup_steps {
                base_lr.times(S::count(step).over(S::count(*warmup_steps)))
            } else {
                *base_lr
            },
            LrSchedule::CosineWithWarmup { warmup_steps, total_steps, base_lr, min_lr } => {
                if step < *warmup_steps {
                    base_lr.times(S::count(step).over(S::count(*warmup_steps)))
                } else if *total_steps <= step {
                    *min_lr
                } else {
                    let progress = S::count(step - *warmup_steps).over(
                        S::count(*total_steps - *warmup_steps),
                    );
                    let pi: S = fraction(13176795, 4194304);
                    let half: S = fraction(1, 2);
                    let cosine = half.times(S::one().plus(pi.times(progress).cos()));
                    min_lr.plus(base_lr.minus(*min_lr).times(cosine))
                }
            },
        }
    }
}

// ---- Training

/// How to train.
#[derive(Debug, Clone)]
pub struct FastTrainConfig<S> {
    pub epochs: usize,
    pub micro_batch_size: usize,
    /// How many batches share a step.
    pub grad_accum_steps: usize,
    pub base_lr: S,
    pub lr_schedule: LrSchedule<S>,
    /// The greatest norm of the gradients; zero for no limit.
    pub grad_clip: S,
    pub use_lora: bool,
    pub lora_rank: usize,
    pub lora_alpha: S,
    pub log_every: usize,
}

impl<S: Real> Default for FastTrainConfig<S> {
    fn default() -> (r: Self)
        ensures
            r == (FastTrainConfig::<S> {
                epochs: 10,
                micro_batch_size: 32,
                grad_accum_steps: 1,
                base_lr: optim::ratio(1, 1000),
                lr_schedule: LrSchedule::CosineWithWarmup {
                    warmup_steps: 100,
                    total_steps: 1000,
                    base_lr: optim::ratio(1, 1000),
                    min_lr: optim::ratio(1, 10000),
                },
                grad_clip: S::spec_one(),
                use_lora: false,
                lora_rank: 8,
                lora_alpha: S::spec_count(16),
                log_every: 10,
            }),
    {
        FastTrainConfig {
            epochs: 10,
            micro_batch_size: 32,
            grad_accum_steps: 1,
            base_lr: fraction(1, 1000),
            lr_schedule: LrSchedule::CosineWithWarmup {
                warmup_steps: 100,
                total_steps: 1000,
                base_lr: fraction(1, 1000),
                min_lr: fraction(1, 10000),
            },
            grad_clip: S::one(),
            use_lora: false,
            lora_rank: 8,
            lora_alpha: S::count(16),
            log_every: 10,
        }
    }
}

impl<S: Real> FastTrainConfig<S> {
    /// How many samples share a step.
    pub fn effective_batch_size(&self) -> (r: usize)
        requires
            self.micro_batch_size * self.grad_accum_steps <= usize::MAX,
        ensures
            r == self.micro_batch_size * self.grad_accum_steps,
    {
        self.micro_batch_size * self.grad_accum_steps
    }

    pub fn with_lora(self, rank: usize, alpha: S) -> (r: Self)
        ensures
            r == (FastTrainConfig { use_lora: true, lora_rank: rank, lora_alpha: alpha, ..self }),
    {
        let mut c = self;
        c.use_lora = true;
        c.lora_rank = rank;
        c.lora_alpha = alpha;
        c
    }

    pub fn with_accum(self, steps: usize) -> (r: Self)
        ensures
            r == (FastTrainConfig { grad_accum_steps: steps, ..self }),
    {
        let mut c = self;
        c.grad_accum_steps = steps;
        c
    }

    pub fn with_grad_clip(self, clip: S) -> (r: Self)
        ensures
            r == (FastTrainConfig { grad_clip: clip, ..self }),
    {
        let mut c = self;
        c.grad_clip = clip;
        c
    }
}

/// A point of the training history.
#[derive(Debug, Clone, Copy)]
pub struct TrainPoint<S> {
    pub epoch: usize,
    pub step: usize,
    pub loss: S,
    pub lr: S,
    pub elapsed_secs: S,
}

/// Where a run stands.
#[derive(Debug, Clone, Copy)]
pub struct FitState<S> {
    pub epoch: usize,
    /// The steps of the run.
    pub step: usize,
    /// The batches since the last step.
    pub accum_count: usize,
    pub epoch_loss: S,
    pub num_batches: usize,
}

/// A batch that has been through the model and back: its loss, the size of its input, and the time
/// since the start.
#[derive(Debug, Clone, Copy)]
pub struct BatchDone<S> {
    pub loss: S,
    pub input_len: usize,
    pub elapsed_secs: S,
}

/// What to do after a batch or at the end of an epoch. Where `step` is set, the gradients are
/// clipped first if `clip` is set too, the optimizer takes a step at the given rate, and the
/// gradients are cleared.
#[derive(Debug, Clone, Copy)]
pub struct Deed<S> {
    pub step: bool,
    pub clip: bool,
    /// The learning rate of the step.
    pub rate: Option<S>,
    pub point: Option<TrainPoint<S>>,
}

/// The start of an epoch.
pub open spec fn epoch_start<S: Real>(epoch: usize, step: usize) -> FitState<S> {
    FitState { epoch, step, accum_count: 0, epoch_loss: S::spec_zero(), num_batches: 0 }
}

/// Whether the gradients are enough for a step after one more batch.
pub open spec fn is_due<S: Real>(c: FastTrainConfig<S>, s: FitState<S>) -> bool {
    s.accum_count + 1 >= c.grad_accum_steps
}

/// The state after a batch.
pub open spec fn after_batch<S: Real>(c: FastTrainConfig<S>, s: FitState<S>, b: BatchDone<S>) -> FitState<
    S,
> {
    FitState {
        epoch: s.epoch,
        step: (s.step + (if is_due(c, s) {
            1int
        } else {
            0
        })) as usize,
        accum_count: (if is_due(c, s) {
            0
        } else {
            s.accum_count + 1
        }) as usize,
        epoch_loss: s.epoch_loss.spec_plus(b.loss.spec_over(S::spec_count(b.input_len))),
        num_batches: (s.num_batches + 1) as usize,
    }
}

/// What to do after a batch.
pub open spec fn deed_of<S: Real>(c: FastTrainConfig<S>, s: FitState<S>, b: BatchDone<S>) -> Deed<S> {
    let new = after_batch(c, s, b);
    let due = is_due(c, s);
    Deed {
        step: due,
        clip: due && S::spec_zero().spec_below(c.grad_clip),
        rate: if due {
            Some(c.lr_schedule.rate(s.step))
        } else {
            None
        },
        point: if due && c.log_every > 0 && new.step as int % c.log_every as int == 0 {
            Some(
                TrainPoint {
                    epoch: s.epoch,
                    step: new.step,
                    loss: new.epoch_loss.spec_over(S::spec_count(new.num_batches)),
                    lr: c.lr_schedule.rate(s.step),
                    elapsed_secs: b.elapsed_secs,
                },
            )
        } else {
            None
        },
    }
}

/// The state after the first batches of an epoch.
pub open spec fn after_batches<S: Real>(
    c: FastTrainConfig<S>,
    s: FitState<S>,
    v: Seq<BatchDone<S>>,
    n: int,
) -> FitState<S>
    decreases n,
{
    if n <= 0 {
        s
    } else {
        after_batch(c, after_batches(c, s, v, n - 1), v[n - 1])
    }
}

/// The points of the first batches of an epoch.
pub open spec fn points_of<S: Real>(
    c: FastTrainConfig<S>,
    s: FitState<S>,
    v: Seq<BatchDone<S>>,
    n: int,
) -> Seq<TrainPoint<S>>
    decreases n,
{
    if n <= 0 {
        Seq::empty()
    } else {
        let before = points_of(c, s, v, n - 1);
        match deed_of(c, after_batches(c, s, v, n - 1), v[n - 1]).point {
            Some(p) => before.push(p),
            None => before,
        }
    }
}

/// The steps before the first epochs are over, where none fails.
pub open spec fn steps_before<S: Real>(
    c: FastTrainConfig<S>,
    epochs: Seq<Vec<BatchDone<S>>>,
    n: int,
) -> usize
    decreases n,
{
    if n <= 0 {
        0
    } else {
        let s = epoch_start((n - 1) as usize, steps_before(c, epochs, n - 1));
        after_batches(c, s, epochs[n - 1]@, epochs[n - 1]@.len() as int).step
    }
}

/// The points of the first epochs.
pub open spec fn history_of<S: Real>(
    c: FastTrainConfig<S>,
    epochs: Seq<Vec<BatchDone<S>>>,
    n: int,
) -> Seq<TrainPoint<S>>
    decreases n,
{
    if n <= 0 {
        Seq::empty()
    } else {
        let s = epoch_start((n - 1) as usize, steps_before(c, epochs, n - 1));
        history_of(c, epochs, n - 1) + points_of(
            c,
            s,
            epochs[n - 1]@,
            epochs[n - 1]@.len() as int,
        )
    }
}

/// The batches of the first epochs.
pub open spec fn batches_before<S>(epochs: Seq<Vec<BatchDone<S>>>, n: int) -> int
    decreases n,
{
    if n <= 0 {
        0
    } else {
        batches_before(epochs, n - 1) + epochs[n - 1]@.len()
    }
}

/// A step is taken after every so many batches of an epoch.
pub proof fn lemma_steps_of_epoch<S: Real>(
    c: FastTrainConfig<S>,
    s: FitState<S>,
    v: Seq<BatchDone<S>>,
    n: int,
)
    requires
        0 <= n <= v.len(),
        s.accum_count == 0,
        s.step + n <= usize::MAX,
        s.num_batches + n <= usize::MAX,
    ensures
        ({
            let every: int = if c.grad_accum_steps < 1 {
                1
            } else {
                c.grad_accum_steps as int
            };
            let t = after_batches(c, s, v, n);
            &&& t.step == s.step + n / every
            &&& t.accum_count == n % every
            &&& t.num_batches == s.num_batches + n
            &&& t.epoch == s.epoch
        }),
    decreases n,
{
    let every: int = if c.grad_accum_steps < 1 {
        1
    } else {
        c.grad_accum_steps as int
    };
    if n > 0 {
        lemma_steps_of_epoch(c, s, v, n - 1);
        lemma_next_share(n - 1, every);
        lemma_share_bound(n - 1, every);
    } else {
        assert(0int / every == 0 && 0int % every == 0) by (nonlinear_arith)
            requires
                every > 0,
        ;
    }
}

proof fn lemma_share_bound(n: int, k: int)
    requires
        0 <= n,
        0 < k,
    ensures
        0 <= n / k <= n,
        0 <= n % k < k,
{
    vstd::arithmetic::div_mod::lemma_div_pos_is_pos(n, k);
    vstd::arithmetic::div_mod::lemma_mod_bound(n, k);
    vstd::arithmetic::div_mod::lemma_div_nonincreasing(n, k);
}

proof fn lemma_next_share(n: int, k: int)
    requires
        0 <= n,
        0 < k,
    ensures
        n % k + 1 == k ==> (n + 1) / k == n / k + 1 && (n + 1) % k == 0,
        n % k + 1 < k ==> (n + 1) / k == n / k && (n + 1) % k == n % k + 1,
{
    let (q, r) = (n / k, n % k);
    vstd::arithmetic::div_mod::lemma_fundamental_div_mod(n, k);
    vstd::arithmetic::div_mod::lemma_mod_bound(n, k);
    if r + 1 == k {
        assert(n + 1 == k * (q + 1) + 0) by (nonlinear_arith)
            requires
                n == k * q + r,
                r + 1 == k,
        ;
        vstd::arithmetic::div_mod::lemma_fundamental_div_mod_converse(n + 1, k, q + 1, 0);
    } else {
        vstd::arithmetic::div_mod::lemma_fundamental_div_mod_converse(n + 1, k, q, r + 1);
    }
}

/// Steps never outnumber batches.
proof fn lemma_steps_bounded<S: Real>(c: FastTrainConfig<S>, epochs: Seq<Vec<BatchDone<S>>>, n: int)
    requires
        0 <= n <= epochs.len(),
        batches_before(epochs, n) <= usize::MAX,
    ensures
        0 <= steps_before(c, epochs, n) <= batches_before(epochs, n),
    decreases n,
{
    if n > 0 {
        lemma_steps_bounded(c, epochs, n - 1);
        let v = epochs[n - 1]@;
        let s = epoch_start::<S>((n - 1) as usize, steps_before(c, epochs, n - 1));
        lemma_steps_of_epoch(c, s, v, v.len() as int);
        lemma_share_bound(
            v.len() as int,
            if c.grad_accum_steps < 1 {
                1
            } else {
                c.grad_accum_steps as int
            },
        );
    }
}

proof fn lemma_batches_grow<S>(epochs: Seq<Vec<BatchDone<S>>>, n: int, m: int)
    requires
        0 <= n <= m <= epochs.len(),
    ensures
        0 <= batches_before(epochs, n) <= batches_before(epochs, m),
    decreases m,
{
    if m > 0 {
        if n < m {
            lemma_batches_grow(epochs, n, m - 1);
        } else {
            lemma_batches_grow(epochs, n - 1, m - 1);
        }
    }
}

/// Trains a model batch by batch, with shared steps, clipping and a learning rate schedule.
#[derive(Debug, Clone)]
pub struct FastTrainer<S, M> {
    pub model: M,
    pub config: FastTrainConfig<S>,
    pub history: Vec<TrainPoint<S>>,
    pub total_steps: usize,
}

impl<S: Real> FastTrainer<S, Sequential<Adapted<S>>> {
    /// A trainer of adapters alone: each linear layer gets one around the weights that it has, and
    /// nothing else has parameters.
    pub fn new_lora(
        model: Sequential<Layer<S>>,
        rank: usize,
        alpha: S,
        config: FastTrainConfig<S>,
        draws: &mut Draws<S>,
    ) -> (r: Self)
        requires
            model.wf(),
            old(draws).wf(),
            adapter_sizes(model.layers@, rank, model.layers@.len() as int) <= old(draws).left(),
            forall|i: int|
                0 <= i < model.layers@.len() ==> (#[trigger] model.layers@[i] matches Layer::Linear(
                    l,
                ) ==> l.weight@.shape[0] * rank <= usize::MAX),
        ensures
            old(draws).taken(
                final(draws),
                adapter_sizes(model.layers@, rank, model.layers@.len() as int),
            ),
            r.model.wf(),
            r.model.layers@.len() == model.layers@.len(),
            forall|i: int|
                0 <= i < model.layers@.len() ==> is_adapted(
                    #[trigger] r.model.layers@[i],
                    model.layers@[i],
                    rank,
                    alpha,
                    old(draws).values@,
                    old(draws).next + adapter_sizes(model.layers@, rank, i),
                ),
            r.config == (FastTrainConfig {
                use_lora: true,
                lora_rank: rank,
                lora_alpha: alpha,
                ..config
            }),
            r.history@ == Seq::<TrainPoint<S>>::empty(),
            r.total_steps == 0,
    {
        let ghost all = model.layers@;
        let ghost at = draws.next as int;
        let mut rest = model.layers;
        let n: usize = rest.len();
        let mut layers: Vec<Adapted<S>> = Vec::new();
        for i in 0..n
            invariant
                n == all.len(),
                rest@ =~= all.skip(i as int),
                forall|k: int| 0 <= k < n ==> (#[trigger] all[k]).wf(),
                forall|k: int|
                    0 <= k < n ==> (#[trigger] all[k] matches Layer::Linear(l) ==> l.weight@.shape[0]
                        * rank <= usize::MAX),
                old(draws).wf(),
                at == old(draws).next,
                old(draws).taken(draws, adapter_sizes(all, rank, i as int)),
                adapter_sizes(all, rank, n as int) <= old(draws).left(),
                layers@.len() == i,
                forall|k: int|
                    0 <= k < i ==> (#[trigger] layers@[k]).wf() && is_adapted(
                        layers@[k],
                        all[k],
                        rank,
                        alpha,
                        old(draws).values@,
                        at + adapter_sizes(all, rank, k),
                    ),
        {
            proof {
                lemma_sizes_grow(all, rank, i as int, i + 1);
                lemma_sizes_grow(all, rank, i + 1, n as int);
                assert(rest@[0] == all[i as int]);
            }
            let layer = rest.remove(0);
            let adapted = match layer {
                Layer::Linear(l) => Adapted::Adapter(
                    LoraAdapter::from_linear(&l, rank, alpha, draws),
                ),
                other => Adapted::Frozen(other),
            };
            layers.push(adapted);
        }
        FastTrainer::new(Sequential { layers }, config.with_lora(rank, alpha))
    }
}

impl<S: Real, M> FastTrainer<S, M> {
    pub fn new(model: M, config: FastTrainConfig<S>) -> (r: Self)
        ensures
            r.model == model,
            r.config == config,
            r.history@ == Seq::<TrainPoint<S>>::empty(),
            r.total_steps == 0,
    {
        FastTrainer { model, config, history: Vec::new(), total_steps: 0 }
    }

    /// The learning rate of the next step: that of the schedule after so many steps.
    pub fn step_rate(&self, state: &FitState<S>) -> (r: S)
        ensures
            r == self.config.lr_schedule.rate(state.step),
    {
        self.config.lr_schedule.lr(state.step)
    }

    /// The state at the start of an epoch, before which the gradients are cleared.
    pub fn start_epoch(&self, epoch: usize, step: usize) -> (r: FitState<S>)
        ensures
            r == epoch_start::<S>(epoch, step),
    {
        FitState { epoch, step, accum_count: 0, epoch_loss: S::zero(), num_batches: 0 }
    }

    /// Takes in a batch and says what to do next.
    pub fn finish_batch(&mut self, state: &mut FitState<S>, batch: BatchDone<S>) -> (r: Deed<S>)
        requires
            old(self).total_steps < usize::MAX,
            old(state).step < usize::MAX,
            old(state).accum_count < usize::MAX,
            old(state).num_batches < usize::MAX,
        ensures
            *final(state) == after_batch(old(self).config, *old(state), batch),
            r == deed_of(old(self).config, *old(state), batch),
            final(self).model == old(self).model,
            final(self).config == old(self).config,
            final(self).total_steps == old(self).total_steps + (if r.step {
                1int
            } else {
                0
            }),
            final(self).history@ == match r.point {
                Some(p) => old(self).history@.push(p),
                None => old(self).history@,
            },
    {
        let loss = batch.loss.over(S::count(batch.input_len));
        state.epoch_loss = state.epoch_loss.plus(loss);
        state.num_batches = state.num_batches + 1;
        state.accum_count = state.accum_count + 1;
        if state.accum_count < self.config.grad_accum_steps {
            return Deed { step: false, clip: false, rate: None, point: None };
        }
        let clip = S::zero().below(self.config.grad_clip);
        state.accum_count = 0;
        let lr = self.step_rate(state);
        state.step = state.step + 1;
        self.total_steps = self.total_steps + 1;
        let every: usize = self.config.log_every;
        if every > 0 && state.step % every == 0 {
            let point = TrainPoint {
                epoch: state.epoch,
                step: state.step,
                loss: state.epoch_loss.over(S::count(state.num_batches)),
                lr,
                elapsed_secs: batch.elapsed_secs,
            };
            self.history.push(point);
            Deed { step: true, clip, rate: Some(lr), point: Some(point) }
        } else {
            Deed { step: true, clip, rate: Some(lr), point: None }
        }
    }

    /// What to do at the end of an epoch, and its mean loss. A step is left where there are batches
    /// since the last one.
    pub fn finish_epoch(&self, state: &FitState<S>) -> (r: (Deed<S>, S))
        ensures
            r.0 == (Deed::<S> {
                step: state.accum_count > 0,
                clip: state.accum_count > 0 && S::spec_zero().spec_below(self.config.grad_clip),
                rate: if state.accum_count > 0 {
                    Some(self.config.lr_schedule.rate(state.step))
                } else {
                    None
                },
                point: None,
            }),
            r.1 == (if state.num_batches > 0 {
                state.epoch_loss.spec_over(S::spec_count(state.num_batches))
            } else {
                S::spec_zero()
            }),
    {
        let left = state.accum_count > 0;
        let clip = left && S::zero().below(self.config.grad_clip);
        let mean = if state.num_batches > 0 {
            state.epoch_loss.over(S::count(state.num_batches))
        } else {
            S::zero()
        };
        let rate = if left {
            Some(self.step_rate(state))
        } else {
            None
        };
        (Deed { step: left, clip, rate, point: None }, mean)
    }

    /// Takes in all batches of a run, epoch by epoch, and returns the history.
    pub fn fit(&mut self, epochs: &[Vec<BatchDone<S>>]) -> (r: Vec<TrainPoint<S>>)
        requires
            epochs@.len() == old(self).config.epochs,
            old(self).total_steps + batches_before(epochs@, epochs@.len() as int) <= usize::MAX,
        ensures
            final(self).model == old(self).model,
            final(self).config == old(self).config,
            final(self).history@ == old(self).history@ + history_of(
                old(self).config,
                epochs@,
                epochs@.len() as int,
            ),
            final(self).total_steps == old(self).total_steps + steps_before(
                old(self).config,
                epochs@,
                epochs@.len() as int,
            ),
            r@ == final(self).history@,
    {
        let ghost c = self.config;
        let ghost first = self.history@;
        let ghost base = self.total_steps as int;
        let mut step: usize = 0;
        let n: usize = epochs.len();
        for e in 0..n
            invariant
                n == epochs@.len(),
                self.config == c,
                self.model == old(self).model,
                base + batches_before(epochs@, n as int) <= usize::MAX,
                step == steps_before(c, epochs@, e as int),
                base >= 0,
                self.total_steps == base + step,
                self.history@ =~= first + history_of(c, epochs@, e as int),
        {
            let mut state = self.start_epoch(e, step);
            let ghost start = state;
            let ghost before = self.history@;
            let m: usize = epochs[e].len();
            proof {
                lemma_batches_grow(epochs@, e as int, n as int);
                lemma_batches_grow(epochs@, e + 1, n as int);
                lemma_steps_bounded(c, epochs@, e as int);
            }
            for b in 0..m
                invariant
                    e < n,
                    n == epochs@.len(),
                    m == epochs@[e as int]@.len(),
                    self.config == c,
                    self.model == old(self).model,
                    base + step + m <= usize::MAX,
                    base >= 0,
                    start == epoch_start::<S>(e, step),
                    state == after_batches(c, start, epochs@[e as int]@, b as int),
                    self.total_steps == base + state.step,
                    state.step <= step + b,
                    state.accum_count <= b,
                    state.num_batches == b,
                    self.history@ =~= before + points_of(c, start, epochs@[e as int]@, b as int),
            {
                self.finish_batch(&mut state, epochs[e][b]);
            }
            step = state.step;
            assert(before + points_of(c, start, epochs@[e as int]@, m as int) =~= first
                + history_of(c, epochs@, e + 1));
        }
        let mut r: Vec<TrainPoint<S>> = Vec::new();
        for i in 0..self.history.len()
            invariant
                r@ =~= self.history@.take(i as int),
        {
            r.push(self.history[i]);
        }
        r
    }

    pub fn history(&self) -> (r: &[TrainPoint<S>])
        ensures
            r@ == self.history@,
    {
        &self.history
    }

    pub fn total_steps(&self) -> (r: usize)
        ensures
            r == self.total_steps,
    {
        self.total_steps
    }

    pub fn model(&self) -> (r: &M)
        ensures
            *r == self.model,
    {
        &self.model
    }
}

/// Shrinks gradients whose norm together is greater than `max_norm`.
pub fn clip_grad_norm<S: Real>(params: &mut Vec<Tensor<S>>, max_norm: S)
    ensures
        ({
            let norm = distributed::norm_squared(old(params)@).spec_sqrt();
            if max_norm.spec_below(norm) && S::spec_zero().spec_below(norm) {
                distributed::scaled_grads(
                    old(params)@,
                    final(params)@,
                    max_norm.spec_over(norm),
                    old(params)@.len() as int,
                )
            } else {
                final(params)@ == old(params)@
            }
        }),
{
    let total_norm = grad_norm(params);
    if max_norm.below(total_norm) && S::zero().below(total_norm) {
        let scale = max_norm.over(total_norm);
        scale_gradients(params, scale);
    }
}

} // verus!
