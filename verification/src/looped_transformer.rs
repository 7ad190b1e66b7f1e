//! Transformers, and transformers that apply one block again and again.
use vstd::prelude::*;
use crate::activations;
use crate::blas;
use crate::diffusion;
use crate::diffusion::sinusoidal_embedding;
use crate::nn;
use crate::nn::{scaled_attention, Draws, Layer, LayerNorm, Linear, Module, Sequential, GELU};
use crate::number;
use crate::number::Real;
use crate::optim;
use crate::optim::fraction;
use crate::tensor;
use crate::tensor::{Op, Tensor, Value};

verus! {

// ---- Heads

/// Where an element comes from, where the two middle ones of four axes change places. The new
/// lengths of the middle axes are `p` and `q`.
pub open spec fn swapped(x: int, p: int, q: int, d: int) -> int {
    let c = blas::col_of(x, d);
    let r = blas::row_of(x, d);
    let j = blas::col_of(r, q);
    let t = blas::row_of(r, q);
    let i = blas::col_of(t, p);
    let a = blas::row_of(t, p);
    ((a * q + j) * p + i) * d + c
}

/// The numbers with the two middle ones of four axes exchanged.
pub open spec fn exchanged<S>(v: Seq<S>, p: int, q: int, d: int) -> Seq<S> {
    Seq::new(v.len(), |x: int| v[swapped(x, p, q, d)])
}

/// The parts of a place along four axes.
proof fn lemma_four(x: int, n: int, p: int, q: int, d: int)
    requires
        0 <= x < ((n * p) * q) * d,
        0 <= n,
        0 <= p,
        0 <= q,
        0 <= d,
    ensures
        0 < p,
        0 < q,
        0 < d,
        0 <= blas::col_of(x, d) < d,
        0 <= blas::row_of(x, d) < (n * p) * q,
        x == blas::row_of(x, d) * d + blas::col_of(x, d),
        0 <= blas::col_of(blas::row_of(x, d), q) < q,
        0 <= blas::row_of(blas::row_of(x, d), q) < n * p,
        blas::row_of(x, d) == blas::row_of(blas::row_of(x, d), q) * q + blas::col_of(
            blas::row_of(x, d),
            q,
        ),
        0 <= blas::col_of(blas::row_of(blas::row_of(x, d), q), p) < p,
        0 <= blas::row_of(blas::row_of(blas::row_of(x, d), q), p) < n,
        blas::row_of(blas::row_of(x, d), q) == blas::row_of(
            blas::row_of(blas::row_of(x, d), q),
            p,
        ) * p + blas::col_of(blas::row_of(blas::row_of(x, d), q), p),
{
    lemma_parts(x, (n * p) * q, d);
    lemma_parts(blas::row_of(x, d), n * p, q);
    lemma_parts(blas::row_of(blas::row_of(x, d), q), n, p);
}

proof fn lemma_parts(x: int, rows: int, w: int)
    requires
        0 <= x < rows * w,
        0 <= w,
    ensures
        0 < w,
        0 <= blas::col_of(x, w) < w,
        0 <= blas::row_of(x, w) < rows,
        x == blas::row_of(x, w) * w + blas::col_of(x, w),
{
    if w == 0 {
        assert(rows * 0 == 0) by (nonlinear_arith);
    }
    vstd::arithmetic::div_mod::lemma_fundamental_div_mod(x, w);
    vstd::arithmetic::div_mod::lemma_mod_bound(x, w);
    vstd::arithmetic::div_mod::lemma_div_pos_is_pos(x, w);
    let (r, c) = (x / w, x % w);
    assert(w * r == r * w) by (nonlinear_arith);
    assert(r < rows) by (nonlinear_arith)
        requires
            x < rows * w,
            x == r * w + c,
            0 <= c,
            0 < w,
    ;
}

/// The source of an element lies within the numbers, and its source is the element.
pub proof fn lemma_swapped(x: int, n: int, p: int, q: int, d: int)
    requires
        0 <= x < ((n * p) * q) * d,
        0 <= n,
        0 <= p,
        0 <= q,
        0 <= d,
    ensures
        0 <= swapped(x, p, q, d) < ((n * q) * p) * d,
        swapped(swapped(x, p, q, d), q, p, d) == x,
{
    lemma_four(x, n, p, q, d);
    let c = blas::col_of(x, d);
    let r = blas::row_of(x, d);
    let j = blas::col_of(r, q);
    let t = blas::row_of(r, q);
    let i = blas::col_of(t, p);
    let a = blas::row_of(t, p);
    nn::lemma_row_in(a, n, q, n * q);
    let u = a * q + j;
    nn::lemma_row_in(u, n * q, p, (n * q) * p);
    let v = u * p + i;
    nn::lemma_row_in(v, (n * q) * p, d, ((n * q) * p) * d);
    blas::lemma_cell(v, c, d);
    blas::lemma_cell(u, i, p);
    blas::lemma_cell(a, j, q);
}

proof fn lemma_four_volume(n: int, p: int, q: int, d: int)
    ensures
        ((n * p) * q) * d == ((n * q) * p) * d,
{
    assert((n * p) * q == (n * q) * p) by (nonlinear_arith);
}

/// Attention by several heads, each on its part of the features.
#[derive(Debug, Clone)]
pub struct MultiHeadAttention<S> {
    pub q_proj: Linear<S>,
    pub k_proj: Linear<S>,
    pub v_proj: Linear<S>,
    pub out_proj: Linear<S>,
    pub num_heads: usize,
    pub head_dim: usize,
    pub d_model: usize,
}

/// The numbers with the two middle ones of four axes exchanged.
fn exchange<S: Real>(v: &[S], n: usize, p: usize, q: usize, d: usize) -> (r: Vec<S>)
    requires
        v@.len() == ((n * p) * q) * d,
    ensures
        r@ == exchanged(v@, p as int, q as int, d as int),
{
    let len: usize = v.len();
    let ghost want = exchanged(v@, p as int, q as int, d as int);
    let mut out: Vec<S> = Vec::new();
    for x in 0..len
        invariant
            len == v@.len(),
            len == ((n * p) * q) * d,
            want == exchanged(v@, p as int, q as int, d as int),
            out@ =~= want.take(x as int),
    {
        proof {
            lemma_four(x as int, n as int, p as int, q as int, d as int);
            lemma_swapped(x as int, n as int, p as int, q as int, d as int);
            lemma_four_volume(n as int, p as int, q as int, d as int);
        }
        let c: usize = x % d;
        let row: usize = x / d;
        let j: usize = row % q;
        let t: usize = row / q;
        let i: usize = t % p;
        let a: usize = t / p;
        proof {
            let (ai, ji, ii, ci) = (a as int, j as int, i as int, c as int);
            let (qi, pi, di) = (q as int, p as int, d as int);
            assert(0 <= ai * qi) by (nonlinear_arith)
                requires
                    0 <= ai,
                    0 <= qi,
            ;
            assert(ai * qi + ji <= (ai * qi + ji) * pi) by (nonlinear_arith)
                requires
                    0 <= ai * qi + ji,
                    1 <= pi,
            ;
            assert((ai * qi + ji) * pi + ii <= ((ai * qi + ji) * pi + ii) * di)
                by (nonlinear_arith)
                requires
                    0 <= (ai * qi + ji) * pi + ii,
                    1 <= di,
            ;
        }
        out.push(v[((a * q + j) * p + i) * d + c]);
    }
    assert(out@ =~= want);
    out
}

impl<S: Real> MultiHeadAttention<S> {
    pub open spec fn drawn(&self, d_model: usize, num_heads: usize, draws: Seq<S>, at: int) -> bool {
        let n = d_model * d_model;
        &&& self.d_model == d_model
        &&& self.num_heads == num_heads
        &&& self.head_dim == d_model / num_heads
        &&& nn::drawn_linear(self.q_proj, d_model, d_model, true, draws, at)
        &&& nn::drawn_linear(self.k_proj, d_model, d_model, true, draws, at + n)
        &&& nn::drawn_linear(self.v_proj, d_model, d_model, true, draws, at + 2 * n)
        &&& nn::drawn_linear(self.out_proj, d_model, d_model, true, draws, at + 3 * n)
    }

    pub fn new(d_model: usize, num_heads: usize, draws: &mut Draws<S>) -> (r: Self)
        requires
            num_heads > 0,
            d_model % num_heads == 0,
            old(draws).wf(),
            4 * (d_model * d_model) <= old(draws).left(),
        ensures
            old(draws).taken(final(draws), 4 * (d_model * d_model)),
            r.drawn(d_model, num_heads, old(draws).values@, old(draws).next as int),
            r.wf(),
    {
        proof {
            assert(0 <= d_model * d_model) by (nonlinear_arith);
            vstd::arithmetic::div_mod::lemma_fundamental_div_mod(d_model as int, num_heads as int);
        }
        let head_dim: usize = d_model / num_heads;
        let q_proj = Linear::new(d_model, d_model, true, draws);
        let k_proj = Linear::new(d_model, d_model, true, draws);
        let v_proj = Linear::new(d_model, d_model, true, draws);
        let out_proj = Linear::new(d_model, d_model, true, draws);
        MultiHeadAttention { q_proj, k_proj, v_proj, out_proj, num_heads, head_dim, d_model }
    }

    /// The features of each head as a batch of their own.
    pub open spec fn split(&self, v: Value<S>, batch: usize, seq: usize) -> Value<S> {
        Value {
            data: exchanged(
                v.data,
                self.num_heads as int,
                seq as int,
                self.head_dim as int,
            ),
            shape: seq![(batch * self.num_heads) as usize, seq, self.head_dim],
        }
    }

    /// The features of all heads side by side.
    pub open spec fn merged(&self, v: Value<S>, batch: usize, seq: usize) -> Value<S> {
        Value {
            data: exchanged(
                v.data,
                seq as int,
                self.num_heads as int,
                self.head_dim as int,
            ),
            shape: seq![batch, seq, self.d_model],
        }
    }

    /// The sizes allow the features to be split.
    pub open spec fn splits(&self, batch: usize, seq: usize) -> bool {
        &&& batch * self.num_heads <= usize::MAX
        &&& (batch * self.num_heads) * seq <= usize::MAX
    }

    /// From `[batch, seq, d_model]` to `[batch * num_heads, seq, head_dim]`.
    pub fn split_heads(&self, t: &Tensor<S>, batch: usize, seq: usize) -> (r: Tensor<S>)
        requires
            self.wf(),
            t.wf(),
            t@.shape == seq![batch, seq, self.d_model],
            self.splits(batch, seq),
        ensures
            r.wf(),
            r@ == self.split(t@, batch, seq),
            r.requires_grad == t.requires_grad,
    {
        let n: usize = batch * self.num_heads;
        proof {
            self.lemma_volumes(batch, seq);
        }
        let data = exchange(&t.data, batch, self.num_heads, seq, self.head_dim);
        let shape: Vec<usize> = vec![n, seq, self.head_dim];
        assert(shape@ =~= seq![n, seq, self.head_dim]);
        Tensor::new(data, shape, t.requires_grad)
    }

    /// From `[batch * num_heads, seq, head_dim]` to `[batch, seq, d_model]`.
    pub fn merge_heads(&self, t: &Tensor<S>, batch: usize, seq: usize) -> (r: Tensor<S>)
        requires
            self.wf(),
            t.wf(),
            self.splits(batch, seq),
            t@.shape == seq![(batch * self.num_heads) as usize, seq, self.head_dim],
            batch * seq <= usize::MAX,
        ensures
            r.wf(),
            r@ == self.merged(t@, batch, seq),
            r.requires_grad == t.requires_grad,
    {
        proof {
            self.lemma_volumes(batch, seq);
        }
        let data = exchange(&t.data, batch, seq, self.num_heads, self.head_dim);
        let shape: Vec<usize> = vec![batch, seq, self.d_model];
        assert(shape@ =~= seq![batch, seq, self.d_model]);
        Tensor::new(data, shape, t.requires_grad)
    }

    proof fn lemma_volumes(&self, batch: usize, seq: usize)
        requires
            self.wf(),
            batch * self.num_heads <= usize::MAX,
            (batch * self.num_heads) * seq <= usize::MAX,
        ensures
            ({
                let (b, s, h, d) = (
                    batch as int,
                    seq as int,
                    self.num_heads as int,
                    self.head_dim as int,
                );
                let n = (batch * self.num_heads) as usize;
                let big = ((b * h) * s) * d;
                &&& tensor::volume(seq![batch, seq, self.d_model]) == big
                &&& tensor::volume(seq![n, seq, self.head_dim]) == big
                &&& big == ((b * s) * h) * d
                &&& big <= usize::MAX ==> tensor::countable(seq![n, seq, self.head_dim])
                &&& big <= usize::MAX && b * s <= usize::MAX ==> tensor::countable(
                    seq![batch, seq, self.d_model],
                )
            }),
    {
        let (b, s, h, d) = (batch as int, seq as int, self.num_heads as int, self.head_dim as int);
        assert(0 <= b * h) by (nonlinear_arith)
            requires
                0 <= b,
                0 <= h,
        ;
        nn::lemma_volume_three(batch, seq, self.d_model);
        nn::lemma_volume_three((batch * self.num_heads) as usize, seq, self.head_dim);
        assert((b * s) * (h * d) == ((b * h) * s) * d && ((b * h) * s) * d == ((b * s) * h) * d)
            by (nonlinear_arith);
    }

    /// What each head sees of a projection of the input.
    pub open spec fn heads(&self, proj: Linear<S>, x: Value<S>) -> Value<S> {
        self.split(proj.output(x), x.shape[0], x.shape[1])
    }

    /// What all heads attend to, side by side.
    pub open spec fn gathered(&self, x: Value<S>) -> Value<S> {
        self.merged(
            nn::attention_value(
                self.heads(self.q_proj, x),
                self.heads(self.k_proj, x),
                self.heads(self.v_proj, x),
                nn::width_scale(self.head_dim),
            ),
            x.shape[0],
            x.shape[1],
        )
    }
}

/// Splitting into heads and merging them gives the features back.
pub proof fn lemma_heads_round_trip<S: Real>(
    m: MultiHeadAttention<S>,
    v: Value<S>,
    batch: usize,
    seq: usize,
)
    requires
        m.wf(),
        v.wf(),
        v.shape == seq![batch, seq, m.d_model],
        m.splits(batch, seq),
    ensures
        m.merged(m.split(v, batch, seq), batch, seq) == v,
{
    m.lemma_volumes(batch, seq);
    let (b, s, h, d) = (batch as int, seq as int, m.num_heads as int, m.head_dim as int);
    let back = m.merged(m.split(v, batch, seq), batch, seq);
    assert forall|x: int| 0 <= x < v.data.len() implies back.data[x] == v.data[x] by {
        lemma_swapped(x, b, s, h, d);
    }
    assert(back.data =~= v.data);
}

/// Merging heads and splitting again gives the heads back.
pub proof fn lemma_features_round_trip<S: Real>(
    m: MultiHeadAttention<S>,
    v: Value<S>,
    batch: usize,
    seq: usize,
)
    requires
        m.wf(),
        v.wf(),
        m.splits(batch, seq),
        v.shape == seq![(batch * m.num_heads) as usize, seq, m.head_dim],
    ensures
        m.split(m.merged(v, batch, seq), batch, seq) == v,
{
    m.lemma_volumes(batch, seq);
    let (b, s, h, d) = (batch as int, seq as int, m.num_heads as int, m.head_dim as int);
    let back = m.split(m.merged(v, batch, seq), batch, seq);
    assert forall|x: int| 0 <= x < v.data.len() implies back.data[x] == v.data[x] by {
        lemma_swapped(x, b, h, s, d);
    }
    assert(back.data =~= v.data);
}

impl<S: Real> Module<S> for MultiHeadAttention<S> {
    open spec fn wf(&self) -> bool {
        &&& self.q_proj.wf()
        &&& self.k_proj.wf()
        &&& self.v_proj.wf()
        &&& self.out_proj.wf()
        &&& self.q_proj.weight@.shape[0] == self.d_model
        &&& self.k_proj.weight@.shape[0] == self.d_model
        &&& self.v_proj.weight@.shape[0] == self.d_model
        &&& self.d_model == self.num_heads * self.head_dim
    }

    open spec fn accepts(&self, x: Value<S>) -> bool {
        &&& x.shape.len() == 3
        &&& self.q_proj.accepts(x)
        &&& self.k_proj.accepts(x)
        &&& self.v_proj.accepts(x)
        &&& self.splits(x.shape[0], x.shape[1])
        &&& self.out_proj.accepts(self.gathered(x))
    }

    open spec fn output(&self, x: Value<S>) -> Value<S> {
        self.out_proj.output(self.gathered(x))
    }

    open spec fn values(&self) -> Seq<Value<S>> {
        self.q_proj.values() + self.k_proj.values() + self.v_proj.values()
            + self.out_proj.values()
    }

    open spec fn switched(&self, new: &Self, training: bool) -> bool {
        *new == *self
    }

    fn forward(&self, input: &Tensor<S>) -> (r: Tensor<S>) {
        let batch: usize = input.shape[0];
        let seq: usize = input.shape[1];
        let qp = self.q_proj.forward(input);
        let kp = self.k_proj.forward(input);
        let vp = self.v_proj.forward(input);
        proof {
            nn::lemma_linear_shape(self.q_proj, input@);
            nn::lemma_linear_shape(self.k_proj, input@);
            nn::lemma_linear_shape(self.v_proj, input@);
            assert(qp@.shape =~= seq![batch, seq, self.d_model]);
            assert(kp@.shape =~= seq![batch, seq, self.d_model]);
            assert(vp@.shape =~= seq![batch, seq, self.d_model]);
            reveal_with_fuel(tensor::countable, 3);
            assert(input.shape@.drop_last() =~= seq![batch, seq]);
            tensor::lemma_volume_two(batch, seq);
        }
        let q = self.split_heads(&qp, batch, seq);
        let k = self.split_heads(&kp, batch, seq);
        let v = self.split_heads(&vp, batch, seq);
        let scale = S::one().over(S::count(self.head_dim).sqrt());
        let attn = scaled_attention(&q, &k, &v, scale);
        let merged = self.merge_heads(&attn, batch, seq);
        self.out_proj.forward(&merged)
    }

    fn parameters(&self) -> (r: Vec<Tensor<S>>) {
        let mut p = self.q_proj.parameters();
        let k = self.k_proj.parameters();
        let v = self.v_proj.parameters();
        let o = self.out_proj.parameters();
        nn::push_tensors(&mut p, k, Ghost(self.q_proj.values()), Ghost(self.k_proj.values()));
        nn::push_tensors(
            &mut p,
            v,
            Ghost(self.q_proj.values() + self.k_proj.values()),
            Ghost(self.v_proj.values()),
        );
        nn::push_tensors(
            &mut p,
            o,
            Ghost(self.q_proj.values() + self.k_proj.values() + self.v_proj.values()),
            Ghost(self.out_proj.values()),
        );
        p
    }

    fn set_training(&mut self, training: bool) {
    }
}

// ---- Blocks

/// Two layers with a smooth rectifier between them, as drawn.
pub open spec fn drawn_mlp<S: Real>(
    m: Sequential<Layer<S>>,
    features: usize,
    hidden: usize,
    draws: Seq<S>,
    at: int,
) -> bool {
    &&& m.layers@.len() == 3
    &&& diffusion::drawn_layer(m.layers@[0], features, hidden, draws, at)
    &&& m.layers@[1] is GELU
    &&& diffusion::drawn_layer(m.layers@[2], hidden, features, draws, at + hidden * features)
}

fn new_mlp<S: Real>(features: usize, hidden: usize, draws: &mut Draws<S>) -> (r: Sequential<
    Layer<S>,
>)
    requires
        old(draws).wf(),
        nn::expert_size(features as int, hidden as int) <= old(draws).left(),
    ensures
        old(draws).taken(final(draws), nn::expert_size(features as int, hidden as int)),
        drawn_mlp(r, features, hidden, old(draws).values@, old(draws).next as int),
        r.wf(),
{
    proof {
        assert(0 <= hidden * features && 0 <= features * hidden) by (nonlinear_arith);
    }
    let first = Linear::new(features, hidden, true, draws);
    let second = Linear::new(hidden, features, true, draws);
    Sequential::new().add(Layer::Linear(first)).add(Layer::GELU(GELU)).add(Layer::Linear(second))
}

/// Attention and a network, each on the normalized input and added to it.
#[derive(Debug, Clone)]
pub struct TransformerBlock<S> {
    pub ln1: LayerNorm<S>,
    pub attn: MultiHeadAttention<S>,
    pub ln2: LayerNorm<S>,
    pub ff: Sequential<Layer<S>>,
    pub d_model: usize,
    pub ff_dim: usize,
}

/// A normalization that changes nothing but the scale.
pub open spec fn fresh_norm<S: Real>(l: LayerNorm<S>, n: usize) -> bool {
    &&& nn::is_uniform(l.gamma, n, S::spec_one())
    &&& nn::is_uniform(l.beta, n, S::spec_zero())
    &&& l.eps == optim::ratio::<S>(1, 100000)
    &&& l.num_features == n
}

impl<S: Real> TransformerBlock<S> {
    pub open spec fn size(d_model: int, ff_dim: int) -> int {
        nn::expert_size(d_model, ff_dim) + 4 * (d_model * d_model)
    }

    pub open spec fn drawn(
        &self,
        d_model: usize,
        num_heads: usize,
        ff_dim: usize,
        draws: Seq<S>,
        at: int,
    ) -> bool {
        &&& self.d_model == d_model
        &&& self.ff_dim == ff_dim
        &&& fresh_norm(self.ln1, d_model)
        &&& fresh_norm(self.ln2, d_model)
        &&& drawn_mlp(self.ff, d_model, ff_dim, draws, at)
        &&& self.attn.drawn(
            d_model,
            num_heads,
            draws,
            at + nn::expert_size(d_model as int, ff_dim as int),
        )
    }

    pub fn new(d_model: usize, num_heads: usize, ff_dim: usize, draws: &mut Draws<S>) -> (r: Self)
        requires
            num_heads > 0,
            d_model % num_heads == 0,
            old(draws).wf(),
            Self::size(d_model as int, ff_dim as int) <= old(draws).left(),
        ensures
            old(draws).taken(final(draws), Self::size(d_model as int, ff_dim as int)),
            r.drawn(d_model, num_heads, ff_dim, old(draws).values@, old(draws).next as int),
            r.wf(),
    {
        proof {
            assert(0 <= ff_dim * d_model && 0 <= d_model * ff_dim && 0 <= d_model * d_model)
                by (nonlinear_arith);
        }
        let ff = new_mlp(d_model, ff_dim, draws);
        let attn = MultiHeadAttention::new(d_model, num_heads, draws);
        TransformerBlock {
            ln1: LayerNorm::new(d_model),
            attn,
            ln2: LayerNorm::new(d_model),
            ff,
            d_model,
            ff_dim,
        }
    }

    /// The input with what the heads attend to.
    pub open spec fn attentive(&self, x: Value<S>) -> Value<S> {
        tensor::zipped(Op::Add, x, self.attn.output(self.ln1.output(x)))
    }
}

impl<S: Real> Module<S> for TransformerBlock<S> {
    open spec fn wf(&self) -> bool {
        self.ln1.wf() && self.attn.wf() && self.ln2.wf() && self.ff.wf()
    }

    open spec fn accepts(&self, x: Value<S>) -> bool {
        let h = self.attentive(x);
        &&& self.ln1.accepts(x)
        &&& self.attn.accepts(self.ln1.output(x))
        &&& tensor::zips(x, self.attn.output(self.ln1.output(x)))
        &&& self.ln2.accepts(h)
        &&& self.ff.accepts(self.ln2.output(h))
        &&& tensor::zips(h, self.ff.output(self.ln2.output(h)))
    }

    open spec fn output(&self, x: Value<S>) -> Value<S> {
        let h = self.attentive(x);
        tensor::zipped(Op::Add, h, self.ff.output(self.ln2.output(h)))
    }

    open spec fn values(&self) -> Seq<Value<S>> {
        self.ln1.values() + self.attn.values() + self.ln2.values() + self.ff.values()
    }

    open spec fn switched(&self, new: &Self, training: bool) -> bool {
        *new == *self
    }

    fn forward(&self, input: &Tensor<S>) -> (r: Tensor<S>) {
        let normed = self.ln1.forward(input);
        let attn_out = self.attn.forward(&normed);
        let h = input.add(&attn_out);
        let normed2 = self.ln2.forward(&h);
        let ff_out = self.ff.forward(&normed2);
        h.add(&ff_out)
    }

    fn parameters(&self) -> (r: Vec<Tensor<S>>) {
        let mut p = self.ln1.parameters();
        let a = self.attn.parameters();
        let l = self.ln2.parameters();
        let f = self.ff.parameters();
        nn::push_tensors(&mut p, a, Ghost(self.ln1.values()), Ghost(self.attn.values()));
        nn::push_tensors(
            &mut p,
            l,
            Ghost(self.ln1.values() + self.attn.values()),
            Ghost(self.ln2.values()),
        );
        nn::push_tensors(
            &mut p,
            f,
            Ghost(self.ln1.values() + self.attn.values() + self.ln2.values()),
            Ghost(self.ff.values()),
        );
        p
    }

    fn set_training(&mut self, training: bool) {
    }
}

// ---- Loops

/// One block that is applied again and again, each time with the number of the loop added.
#[derive(Debug, Clone)]
pub struct LoopedTransformer<S> {
    pub embed: Linear<S>,
    pub block: TransformerBlock<S>,
    pub ln_final: LayerNorm<S>,
    pub head: Linear<S>,
    pub time_proj: Sequential<Layer<S>>,
    /// Predicts from the state whether to stop; used where `adaptive` is set.
    pub halt_unit: Linear<S>,
    pub num_loops: usize,
    pub d_model: usize,
    pub adaptive: bool,
    /// The sum of stop probabilities beyond which the loop ends.
    pub halt_threshold: S,
}

impl<S: Real> LoopedTransformer<S> {
    pub open spec fn size(input_dim: int, d_model: int, ff_dim: int, output_dim: int) -> int {
        d_model * input_dim + TransformerBlock::<S>::size(d_model, ff_dim) + output_dim * d_model
            + nn::expert_size(d_model, d_model) + 1 * d_model
    }

    pub fn new(
        input_dim: usize,
        d_model: usize,
        num_heads: usize,
        ff_dim: usize,
        output_dim: usize,
        num_loops: usize,
        draws: &mut Draws<S>,
    ) -> (r: Self)
        requires
            num_heads > 0,
            d_model % num_heads == 0,
            old(draws).wf(),
            Self::size(input_dim as int, d_model as int, ff_dim as int, output_dim as int)
                <= old(draws).left(),
        ensures
            old(draws).taken(
                final(draws),
                Self::size(input_dim as int, d_model as int, ff_dim as int, output_dim as int),
            ),
            r.wf(),
            ({
                let draws_ = old(draws).values@;
                let a = old(draws).next as int;
                let b = a + d_model * input_dim;
                let c = b + TransformerBlock::<S>::size(d_model as int, ff_dim as int);
                let d = c + output_dim * d_model;
                let e = d + nn::expert_size(d_model as int, d_model as int);
                &&& nn::drawn_linear(r.embed, input_dim, d_model, true, draws_, a)
                &&& r.block.drawn(d_model, num_heads, ff_dim, draws_, b)
                &&& fresh_norm(r.ln_final, d_model)
                &&& nn::drawn_linear(r.head, d_model, output_dim, true, draws_, c)
                &&& drawn_mlp(r.time_proj, d_model, d_model, draws_, d)
                &&& nn::drawn_linear(r.halt_unit, d_model, 1, true, draws_, e)
            }),
            r.num_loops == num_loops,
            r.d_model == d_model,
            !r.adaptive,
            r.halt_threshold == optim::ratio::<S>(9, 10),
    {
        proof {
            assert(0 <= d_model * input_dim && 0 <= ff_dim * d_model && 0 <= d_model * ff_dim && 0
                <= d_model * d_model && 0 <= output_dim * d_model) by (nonlinear_arith);
        }
        let embed = Linear::new(input_dim, d_model, true, draws);
        let block = TransformerBlock::new(d_model, num_heads, ff_dim, draws);
        let ln_final = LayerNorm::new(d_model);
        let head = Linear::new(d_model, output_dim, true, draws);
        let time_proj = new_mlp(d_model, d_model, draws);
        let halt_unit = Linear::new(d_model, 1, true, draws);
        LoopedTransformer {
            embed,
            block,
            ln_final,
            head,
            time_proj,
            halt_unit,
            num_loops,
            d_model,
            adaptive: false,
            halt_threshold: fraction(9, 10),
        }
    }

    /// Lets the loop end early, where the sum of stop probabilities exceeds the threshold.
    pub fn with_adaptive_halting(self, threshold: S) -> (r: Self)
        ensures
            r == (LoopedTransformer { adaptive: true, halt_threshold: threshold, ..self }),
    {
        LoopedTransformer {
            adaptive: true,
            halt_threshold: threshold,
            embed: self.embed,
            block: self.block,
            ln_final: self.ln_final,
            head: self.head,
            time_proj: self.time_proj,
            halt_unit: self.halt_unit,
            num_loops: self.num_loops,
            d_model: self.d_model,
        }
    }

    /// The embedding of the number of a loop.
    pub open spec fn tick(&self, t: int) -> Value<S> {
        diffusion::embedding(S::spec_count(t as usize), self.d_model)
    }

    /// What a loop adds to the state for the block.
    pub open spec fn condition(&self, t: int) -> Value<S> {
        Value { data: self.time_proj.output(self.tick(t)).data, shape: seq![self.d_model] }
    }

    /// The state after some loops. Each adds to the state what the block makes of the state and the
    /// number of the loop.
    pub open spec fn state(&self, x: Value<S>, t: int) -> Value<S>
        decreases t,
    {
        if t <= 0 {
            self.embed.output(x)
        } else {
            let h = self.state(x, t - 1);
            let c = tensor::zipped(Op::Add, h, self.condition(t - 1));
            tensor::zipped(Op::Add, h, self.block.output(c))
        }
    }

    /// The sizes allow a loop.
    pub open spec fn loops(&self, x: Value<S>, t: int) -> bool {
        let c = tensor::zipped(Op::Add, self.state(x, t), self.condition(t));
        &&& self.time_proj.accepts(self.tick(t))
        &&& tensor::volume(self.time_proj.output(self.tick(t)).shape) == self.d_model
        &&& tensor::zips(self.state(x, t), self.condition(t))
        &&& self.block.accepts(c)
        &&& tensor::zips(self.state(x, t), self.block.output(c))
        &&& self.adaptive ==> self.halt_unit.accepts(self.state(x, t + 1))
    }

    /// The probability to stop after a loop.
    pub open spec fn stop(&self, x: Value<S>, t: int) -> S {
        let logits = self.halt_unit.output(self.state(x, t + 1)).data;
        activations::sigmoid_of(
            if logits.len() > 0 {
                logits[0]
            } else {
                S::spec_zero()
            },
        )
    }

    /// The sum of the stop probabilities of the first loops.
    pub open spec fn stops(&self, x: Value<S>, t: int) -> S {
        number::sum_n(|k: int| self.stop(x, k), t)
    }

    /// How many loops are used, where some have gone by without an end.
    pub open spec fn used(&self, x: Value<S>, t: int) -> int
        decreases self.num_loops - t,
    {
        if !self.adaptive || t >= self.num_loops {
            self.num_loops as int
        } else if self.halt_threshold.spec_below(self.stops(x, t + 1)) {
            t + 1
        } else {
            self.used(x, t + 1)
        }
    }

    proof fn lemma_used(&self, x: Value<S>, t: int)
        requires
            0 <= t <= self.num_loops,
        ensures
            t <= self.used(x, t) <= self.num_loops,
        decreases self.num_loops - t,
    {
        if self.adaptive && t < self.num_loops && !self.halt_threshold.spec_below(
            self.stops(x, t + 1),
        ) {
            self.lemma_used(x, t + 1);
        }
    }

    /// The output, and how many loops were used.
    pub fn forward_with_loops(&self, input: &Tensor<S>) -> (r: (Tensor<S>, usize))
        requires
            self.wf(),
            input.wf(),
            self.accepts(input@),
        ensures
            r.0.wf(),
            r.0@ == self.output(input@),
            r.1 == self.used(input@, 0),
            r.1 <= self.num_loops,
    {
        let mut h = self.embed.forward(input);
        let mut used: usize = self.num_loops;
        let mut cumulative = S::zero();
        let mut t: usize = 0;
        let ghost f = |k: int| self.stop(input@, k);
        proof {
            self.lemma_used(input@, 0);
        }
        while t < used
            invariant
                self.wf(),
                self.accepts(input@),
                f == (|k: int| self.stop(input@, k)),
                h.wf(),
                t <= used <= self.num_loops,
                h@ == self.state(input@, t as int),
                t <= self.used(input@, 0) <= self.num_loops,
                if t < used {
                    used == self.num_loops && self.used(input@, 0) == self.used(input@, t as int)
                } else {
                    used == self.used(input@, 0)
                },
                self.adaptive && t < used ==> cumulative == number::sum_n(f, t as int),
            decreases used - t,
        {
            proof {
                self.lemma_used(input@, t as int + 1);
                if !self.adaptive {
                    assert(self.used(input@, 0) == self.num_loops);
                }
                assert(self.loops(input@, t as int));
            }
            let temb = sinusoidal_embedding(S::count(t), self.d_model);
            let projected = self.time_proj.forward(&temb);
            let one: Vec<usize> = vec![self.d_model];
            proof {
                assert(one@ =~= seq![self.d_model]);
                tensor::lemma_volume_two(self.d_model, 1);
            }
            let tcond = projected.reshape(&one);
            let conditioned = h.add(&tcond);
            let block_out = self.block.forward(&conditioned);
            h = h.add(&block_out);
            if self.adaptive {
                let halt = self.halt_unit.forward(&h);
                let logit = if halt.data.len() > 0 {
                    halt.data[0]
                } else {
                    S::zero()
                };
                let p = S::one().over(S::one().plus(logit.neg().exp()));
                assert(p == self.stop(input@, t as int));
                cumulative = cumulative.plus(p);
                assert(cumulative == self.stops(input@, t + 1));
                if self.halt_threshold.below(cumulative) {
                    used = t + 1;
                }
            }
            t += 1;
        }
        let h = self.ln_final.forward(&h);
        (self.head.forward(&h), used)
    }
}

impl<S: Real> Module<S> for LoopedTransformer<S> {
    open spec fn wf(&self) -> bool {
        &&& self.embed.wf()
        &&& self.block.wf()
        &&& self.ln_final.wf()
        &&& self.head.wf()
        &&& self.time_proj.wf()
        &&& self.halt_unit.wf()
    }

    open spec fn accepts(&self, x: Value<S>) -> bool {
        let last = self.state(x, self.used(x, 0));
        &&& self.embed.accepts(x)
        &&& forall|t: int| 0 <= t < self.used(x, 0) ==> #[trigger] self.loops(x, t)
        &&& self.ln_final.accepts(last)
        &&& self.head.accepts(self.ln_final.output(last))
    }

    open spec fn output(&self, x: Value<S>) -> Value<S> {
        self.head.output(self.ln_final.output(self.state(x, self.used(x, 0))))
    }

    open spec fn values(&self) -> Seq<Value<S>> {
        let all = self.embed.values() + self.block.values() + self.ln_final.values()
            + self.head.values() + self.time_proj.values();
        if self.adaptive {
            all + self.halt_unit.values()
        } else {
            all
        }
    }

    open spec fn switched(&self, new: &Self, training: bool) -> bool {
        *new == *self
    }

    fn forward(&self, input: &Tensor<S>) -> (r: Tensor<S>) {
        self.forward_with_loops(input).0
    }

    fn parameters(&self) -> (r: Vec<Tensor<S>>) {
        let mut p = self.embed.parameters();
        let ghost mut so_far = self.embed.values();
        let more = self.block.parameters();
        nn::push_tensors(&mut p, more, Ghost(so_far), Ghost(self.block.values()));
        proof {
            so_far = so_far + self.block.values();
        }
        let more = self.ln_final.parameters();
        nn::push_tensors(&mut p, more, Ghost(so_far), Ghost(self.ln_final.values()));
        proof {
            so_far = so_far + self.ln_final.values();
        }
        let more = self.head.parameters();
        nn::push_tensors(&mut p, more, Ghost(so_far), Ghost(self.head.values()));
        proof {
            so_far = so_far + self.head.values();
        }
        let more = self.time_proj.parameters();
        nn::push_tensors(&mut p, more, Ghost(so_far), Ghost(self.time_proj.values()));
        proof {
            so_far = so_far + self.time_proj.values();
        }
        if self.adaptive {
            let more = self.halt_unit.parameters();
            nn::push_tensors(&mut p, more, Ghost(so_far), Ghost(self.halt_unit.values()));
        }
        p
    }

    fn set_training(&mut self, training: bool) {
    }
}

/// The loop of a model that halts early ends as soon as the sum of the stop probabilities exceeds
/// the threshold, and not before.
pub proof fn lemma_halts_in_time<S: Real>(m: LoopedTransformer<S>, x: Value<S>, t: int, k: int)
    requires
        m.adaptive,
        0 <= t <= k < m.used(x, t),
        t <= m.num_loops,
    ensures
        m.used(x, t) <= m.num_loops,
        k + 1 < m.used(x, t) ==> !m.halt_threshold.spec_below(m.stops(x, k + 1)),
        m.used(x, t) < m.num_loops ==> m.halt_threshold.spec_below(m.stops(x, m.used(x, t))),
    decreases m.num_loops - t,
{
    m.lemma_used(x, t);
    if t < m.num_loops && !m.halt_threshold.spec_below(m.stops(x, t + 1)) {
        m.lemma_used(x, t + 1);
        if t < k {
            lemma_halts_in_time(m, x, t + 1, k);
        } else if t + 1 < m.used(x, t + 1) {
            lemma_halts_in_time(m, x, t + 1, t + 1);
        } else if t + 1 < m.num_loops {
            m.lemma_used(x, t + 2);
        }
    }
}

// ---- Stacks

/// Blocks that are applied one after the other, each with weights of its own.
#[derive(Debug, Clone)]
pub struct Transformer<S> {
    pub embed: Linear<S>,
    pub blocks: Vec<TransformerBlock<S>>,
    pub ln_final: LayerNorm<S>,
    pub head: Linear<S>,
}

impl<S: Real> Transformer<S> {
    pub open spec fn size(
        input_dim: int,
        d_model: int,
        ff_dim: int,
        output_dim: int,
        num_layers: int,
    ) -> int {
        d_model * input_dim + num_layers * TransformerBlock::<S>::size(d_model, ff_dim)
            + output_dim * d_model
    }

    pub fn new(
        input_dim: usize,
        d_model: usize,
        num_heads: usize,
        ff_dim: usize,
        output_dim: usize,
        num_layers: usize,
        draws: &mut Draws<S>,
    ) -> (r: Self)
        requires
            num_heads > 0,
            d_model % num_heads == 0,
            old(draws).wf(),
            Self::size(
                input_dim as int,
                d_model as int,
                ff_dim as int,
                output_dim as int,
                num_layers as int,
            ) <= old(draws).left(),
        ensures
            old(draws).taken(
                final(draws),
                Self::size(
                    input_dim as int,
                    d_model as int,
                    ff_dim as int,
                    output_dim as int,
                    num_layers as int,
                ),
            ),
            r.wf(),
            nn::drawn_linear(
                r.embed,
                input_dim,
                d_model,
                true,
                old(draws).values@,
                old(draws).next as int,
            ),
            r.blocks@.len() == num_layers,
            forall|i: int|
                0 <= i < num_layers ==> (#[trigger] r.blocks@[i]).drawn(
                    d_model,
                    num_heads,
                    ff_dim,
                    old(draws).values@,
                    old(draws).next + d_model * input_dim + i * TransformerBlock::<S>::size(
                        d_model as int,
                        ff_dim as int,
                    ),
                ),
            fresh_norm(r.ln_final, d_model),
            nn::drawn_linear(
                r.head,
                d_model,
                output_dim,
                true,
                old(draws).values@,
                old(draws).next + d_model * input_dim + num_layers * TransformerBlock::<S>::size(
                    d_model as int,
                    ff_dim as int,
                ),
            ),
    {
        let ghost e = TransformerBlock::<S>::size(d_model as int, ff_dim as int);
        proof {
            assert(0 <= e) by {
                assert(0 <= ff_dim * d_model && 0 <= d_model * ff_dim && 0 <= d_model * d_model)
                    by (nonlinear_arith);
            }
            assert(0 <= d_model * input_dim && 0 <= output_dim * d_model && 0 <= num_layers * e)
                by (nonlinear_arith)
                requires
                    0 <= e,
            ;
            assert(0 * e == 0) by (nonlinear_arith);
        }
        let ghost values = draws.values@;
        let ghost at = draws.next + d_model * input_dim;
        let embed = Linear::new(input_dim, d_model, true, draws);
        let ghost first = *draws;
        let mut blocks: Vec<TransformerBlock<S>> = Vec::new();
        for i in 0..num_layers
            invariant
                num_heads > 0,
                d_model % num_heads == 0,
                0 <= e == TransformerBlock::<S>::size(d_model as int, ff_dim as int),
                num_layers * e <= first.left(),
                first.values@ == values,
                first.next == at,
                first.taken(draws, i * e),
                blocks@.len() == i,
                nn::all_wf::<S, TransformerBlock<S>>(blocks@),
                forall|k: int|
                    0 <= k < i ==> (#[trigger] blocks@[k]).drawn(
                        d_model,
                        num_heads,
                        ff_dim,
                        values,
                        at + k * e,
                    ),
        {
            proof {
                assert(i * e + e <= num_layers * e && 0 <= i * e && i * e + e == (i + 1) * e)
                    by (nonlinear_arith)
                    requires
                        i < num_layers,
                        0 <= e,
                ;
            }
            blocks.push(TransformerBlock::new(d_model, num_heads, ff_dim, draws));
        }
        let head = Linear::new(d_model, output_dim, true, draws);
        Transformer { embed, blocks, ln_final: LayerNorm::new(d_model), head }
    }

    /// The state before the last layers.
    pub open spec fn state(&self, x: Value<S>) -> Value<S> {
        nn::applied(self.blocks@, self.embed.output(x), self.blocks@.len() as int)
    }
}

impl<S: Real> Module<S> for Transformer<S> {
    open spec fn wf(&self) -> bool {
        &&& self.embed.wf()
        &&& nn::all_wf::<S, TransformerBlock<S>>(self.blocks@)
        &&& self.ln_final.wf()
        &&& self.head.wf()
    }

    open spec fn accepts(&self, x: Value<S>) -> bool {
        &&& self.embed.accepts(x)
        &&& nn::applicable(self.blocks@, self.embed.output(x))
        &&& self.ln_final.accepts(self.state(x))
        &&& self.head.accepts(self.ln_final.output(self.state(x)))
    }

    open spec fn output(&self, x: Value<S>) -> Value<S> {
        self.head.output(self.ln_final.output(self.state(x)))
    }

    open spec fn values(&self) -> Seq<Value<S>> {
        self.embed.values() + nn::layer_values(self.blocks@, self.blocks@.len() as int)
            + self.ln_final.values() + self.head.values()
    }

    open spec fn switched(&self, new: &Self, training: bool) -> bool {
        *new == *self
    }

    fn forward(&self, input: &Tensor<S>) -> (r: Tensor<S>) {
        let h = self.embed.forward(input);
        let h = nn::run_layers(&self.blocks, &h);
        let h = self.ln_final.forward(&h);
        self.head.forward(&h)
    }

    fn parameters(&self) -> (r: Vec<Tensor<S>>) {
        let mut p = self.embed.parameters();
        nn::push_experts(&mut p, &self.blocks, Ghost(self.embed.values()));
        let ghost so_far = self.embed.values() + nn::layer_values(
            self.blocks@,
            self.blocks@.len() as int,
        );
        let more = self.ln_final.parameters();
        nn::push_tensors(&mut p, more, Ghost(so_far), Ghost(self.ln_final.values()));
        let more = self.head.parameters();
        nn::push_tensors(
            &mut p,
            more,
            Ghost(so_far + self.ln_final.values()),
            Ghost(self.head.values()),
        );
        p
    }

    fn set_training(&mut self, training: bool) {
    }
}

} // verus!
