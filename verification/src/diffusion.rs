//! Denoising diffusion: noise schedules, a network that predicts noise, and sampling.
use vstd::prelude::*;
use crate::nn;
use crate::nn::{Draws, Layer, Linear, Module, Sequential, SiLU};
use crate::number::Real;
use crate::optim;
use crate::optim::fraction;
use crate::random;
use crate::random::{normal_number, random_below, random_units};
use crate::tensor;
use crate::tensor::{copy_slice, Op, Tensor, Value};

verus! {

// ---- Noise schedules

#[derive(Debug, Clone, Copy, PartialEq, Eq, Structural)]
pub enum ScheduleType {
    Linear,
    Cosine,
}

/// How much noise there is at each step.
#[derive(Debug, Clone)]
pub struct NoiseSchedule<S> {
    pub timesteps: usize,
    pub betas: Vec<S>,
    pub alphas: Vec<S>,
    pub alpha_cumprod: Vec<S>,
    pub sqrt_alpha_cumprod: Vec<S>,
    pub sqrt_one_minus_alpha_cumprod: Vec<S>,
}

/// Noise that grows by the same amount at each step.
pub open spec fn linear_beta<S: Real>(i: int, timesteps: usize) -> S {
    let start = optim::ratio::<S>(1, 10000);
    let stop = optim::ratio::<S>(2, 100);
    start.spec_plus(
        stop.spec_minus(start).spec_times(S::spec_count(i as usize)).spec_over(
            S::spec_count((timesteps - 1) as usize),
        ),
    )
}

/// The squared cosine of a part of a right angle.
pub open spec fn cosine_level<S: Real>(i: int, timesteps: usize) -> S {
    S::spec_count(i as usize).spec_over(S::spec_count(timesteps)).spec_times(
        optim::ratio(13176795, 4194304),
    ).spec_over(S::spec_count(2)).spec_cos().spec_powi(2)
}

/// Noise by which the level follows the squared cosine, held below one.
pub open spec fn cosine_beta<S: Real>(t: int, timesteps: usize) -> S {
    let b = S::spec_one().spec_minus(
        cosine_level::<S>(t + 1, timesteps).spec_over(cosine_level(t, timesteps)),
    ).spec_smaller(optim::ratio(999, 1000));
    let least = optim::ratio::<S>(1, 1000000);
    if t == 0 && b.spec_below(least) {
        least
    } else {
        b
    }
}

/// The noise at each step.
pub open spec fn betas_of<S: Real>(schedule: ScheduleType, timesteps: usize) -> Seq<S> {
    match schedule {
        ScheduleType::Linear => Seq::new(
            timesteps as nat,
            |i: int| linear_beta(i, timesteps),
        ),
        ScheduleType::Cosine => Seq::new(
            timesteps as nat,
            |i: int| cosine_beta(i, timesteps),
        ),
    }
}

/// What is left of the data after a step.
pub open spec fn alphas_of<S: Real>(betas: Seq<S>) -> Seq<S> {
    Seq::new(betas.len(), |i: int| S::spec_one().spec_minus(betas[i]))
}

/// The product of the first numbers.
pub open spec fn product_n<S: Real>(v: Seq<S>, n: int) -> S
    decreases n,
{
    if n <= 0 {
        S::spec_one()
    } else {
        product_n(v, n - 1).spec_times(v[n - 1])
    }
}

/// The least that is ever left of the data.
pub open spec fn least_left<S: Real>() -> S {
    optim::ratio::<S>(1, 1000000).spec_over(S::spec_count(1000000))
}

/// What is left of the data after all steps up to each.
pub open spec fn levels_of<S: Real>(alphas: Seq<S>) -> Seq<S> {
    Seq::new(alphas.len(), |i: int| product_n(alphas, i + 1).spec_larger(least_left()))
}

impl<S: Real> NoiseSchedule<S> {
    /// The tables have an entry for each step.
    pub open spec fn wf(&self) -> bool {
        &&& self.betas@.len() == self.timesteps
        &&& self.alphas@.len() == self.timesteps
        &&& self.alpha_cumprod@.len() == self.timesteps
        &&& self.sqrt_alpha_cumprod@.len() == self.timesteps
        &&& self.sqrt_one_minus_alpha_cumprod@.len() == self.timesteps
    }

    /// The tables are those of the given noise.
    pub open spec fn follows(&self, betas: Seq<S>) -> bool {
        let levels = levels_of(alphas_of(betas));
        &&& self.betas@ == betas
        &&& self.alphas@ == alphas_of(betas)
        &&& self.alpha_cumprod@ == levels
        &&& self.sqrt_alpha_cumprod@ == Seq::new(levels.len(), |i: int| levels[i].spec_sqrt())
        &&& self.sqrt_one_minus_alpha_cumprod@ == Seq::new(
            levels.len(),
            |i: int| S::spec_one().spec_minus(levels[i]).spec_sqrt(),
        )
    }

    fn level_at(i: usize, timesteps: usize) -> (r: S)
        ensures
            r == cosine_level::<S>(i as int, timesteps),
    {
        S::count(i).over(S::count(timesteps)).times(fraction(13176795, 4194304)).over(
            S::count(2),
        ).cos().powi(2)
    }

    pub fn new(schedule: ScheduleType, timesteps: usize) -> (r: Self)
        requires
            schedule == ScheduleType::Cosine ==> timesteps > 0,
        ensures
            r.wf(),
            r.timesteps == timesteps,
            r.follows(betas_of(schedule, timesteps)),
    {
        let ghost want = betas_of::<S>(schedule, timesteps);
        let mut betas: Vec<S> = Vec::new();
        for t in 0..timesteps
            invariant
                want == betas_of::<S>(schedule, timesteps),
                betas@ =~= want.take(t as int),
        {
            let b = match schedule {
                ScheduleType::Linear => {
                    let start: S = fraction(1, 10000);
                    let stop: S = fraction(2, 100);
                    start.plus(stop.minus(start).times(S::count(t)).over(S::count(timesteps - 1)))
                },
                ScheduleType::Cosine => {
                    let least: S = fraction(1, 1000000);
                    let b = S::one().minus(
                        Self::level_at(t + 1, timesteps).over(Self::level_at(t, timesteps)),
                    ).smaller(fraction(999, 1000));
                    if t == 0 && b.below(least) {
                        least
                    } else {
                        b
                    }
                },
            };
            betas.push(b);
        }
        assert(betas@ =~= want);
        let ghost alphas_want = alphas_of(want);
        let ghost levels = levels_of(alphas_want);
        let mut alphas: Vec<S> = Vec::new();
        let mut alpha_cumprod: Vec<S> = Vec::new();
        let mut roots: Vec<S> = Vec::new();
        let mut rests: Vec<S> = Vec::new();
        let mut acc = S::one();
        let least = fraction::<S>(1, 1000000).over(S::count(1000000));
        for t in 0..timesteps
            invariant
                betas@ == want,
                want.len() == timesteps,
                alphas_want == alphas_of(want),
                levels == levels_of(alphas_want),
                least == least_left::<S>(),
                acc == product_n(alphas_want, t as int),
                alphas@ =~= alphas_want.take(t as int),
                alpha_cumprod@ =~= levels.take(t as int),
                roots@ =~= Seq::new(t as nat, |i: int| levels[i].spec_sqrt()),
                rests@ =~= Seq::new(
                    t as nat,
                    |i: int| S::spec_one().spec_minus(levels[i]).spec_sqrt(),
                ),
        {
            let a = S::one().minus(betas[t]);
            alphas.push(a);
            acc = acc.times(a);
            let level = acc.larger(least);
            assert(level == levels[t as int]);
            alpha_cumprod.push(level);
            roots.push(level.sqrt());
            rests.push(S::one().minus(level).sqrt());
        }
        assert(alphas@ =~= alphas_want);
        assert(alpha_cumprod@ =~= levels);
        NoiseSchedule {
            timesteps,
            betas,
            alphas,
            alpha_cumprod,
            sqrt_alpha_cumprod: roots,
            sqrt_one_minus_alpha_cumprod: rests,
        }
    }
}

// ---- Embeddings of steps

/// The frequency of a pair of dimensions.
pub open spec fn step_frequency<S: Real>(i: int, half: int) -> S {
    S::spec_count(10000).spec_ln().spec_neg().spec_times(S::spec_count(i as usize)).spec_over(
        S::spec_count(
            (if half < 1 {
                1
            } else {
                half
            }) as usize,
        ),
    ).spec_exp()
}

/// Sines and cosines in turn, and a zero at the end where the dimension is odd.
pub open spec fn embedding<S: Real>(t: S, dim: usize) -> Value<S> {
    let half = (dim / 2) as int;
    Value {
        data: Seq::new(
            dim as nat,
            |c: int|
                if c >= 2 * half {
                    S::spec_zero()
                } else if c % 2 == 0 {
                    t.spec_times(step_frequency(c / 2, half)).spec_sin()
                } else {
                    t.spec_times(step_frequency(c / 2, half)).spec_cos()
                },
        ),
        shape: seq![1usize, dim],
    }
}

/// The embedding of a step.
pub fn sinusoidal_embedding<S: Real>(t: S, dim: usize) -> (r: Tensor<S>)
    ensures
        r.wf(),
        r@ == embedding(t, dim),
        !r.requires_grad,
{
    let half: usize = dim / 2;
    let parts: usize = if half < 1 {
        1
    } else {
        half
    };
    let ghost want = embedding(t, dim).data;
    let mut emb: Vec<S> = Vec::new();
    for i in 0..half
        invariant
            half == dim / 2,
            parts == (if half < 1 {
                1
            } else {
                half as int
            }),
            want == embedding(t, dim).data,
            emb@ =~= want.take(2 * i),
    {
        let f = S::count(10000).ln().neg().times(S::count(i)).over(S::count(parts)).exp();
        let arg = t.times(f);
        assert((2 * i) / 2 == i && (2 * i + 1) / 2 == i);
        emb.push(arg.sin());
        emb.push(arg.cos());
    }
    if emb.len() < dim {
        emb.push(S::zero());
    }
    assert(emb@ =~= want);
    let shape: Vec<usize> = vec![1, dim];
    proof {
        assert(shape@ =~= seq![1usize, dim]);
        tensor::lemma_volume_two(1, dim);
        assert(1 * dim == dim) by (nonlinear_arith);
    }
    Tensor::from_vec(emb, shape)
}

// ---- The network

/// A network that predicts the noise in its input at a step.
#[derive(Debug, Clone)]
pub struct DenoiseNet<S> {
    pub data_dim: usize,
    pub time_embed_dim: usize,
    pub time_proj: Sequential<Layer<S>>,
    pub net: Sequential<Layer<S>>,
}

/// A layer of a stack is a linear one, as drawn.
pub open spec fn drawn_layer<S: Real>(
    l: Layer<S>,
    in_features: usize,
    out_features: usize,
    draws: Seq<S>,
    at: int,
) -> bool {
    l matches Layer::Linear(l) && nn::drawn_linear(l, in_features, out_features, true, draws, at)
}

/// A layer of a stack is a linear one with a bias, of the given sizes.
pub open spec fn sized_layer<S: Real>(
    l: Layer<S>,
    in_features: usize,
    out_features: usize,
) -> bool {
    l matches Layer::Linear(l) && l.wf() && l.weight@.shape == seq![out_features, in_features]
}

impl<S: Real> DenoiseNet<S> {
    /// The number of weights of the projection of the step.
    pub open spec fn time_size(data: int, hidden: int, time: int) -> int {
        hidden * time + data * hidden
    }

    /// The number of weights.
    pub open spec fn size(data: int, hidden: int, time: int) -> int {
        Self::time_size(data, hidden, time) + hidden * data + hidden * hidden + data * hidden
    }

    /// The network as drawn.
    pub open spec fn drawn(
        &self,
        data_dim: usize,
        hidden_dim: usize,
        time_embed_dim: usize,
        draws: Seq<S>,
        at: int,
    ) -> bool {
        let p = self.time_proj.layers@;
        let n = self.net.layers@;
        let m = at + Self::time_size(data_dim as int, hidden_dim as int, time_embed_dim as int);
        &&& self.data_dim == data_dim
        &&& self.time_embed_dim == time_embed_dim
        &&& p.len() == 3
        &&& drawn_layer(p[0], time_embed_dim, hidden_dim, draws, at)
        &&& p[1] is SiLU
        &&& drawn_layer(p[2], hidden_dim, data_dim, draws, at + hidden_dim * time_embed_dim)
        &&& n.len() == 5
        &&& drawn_layer(n[0], data_dim, hidden_dim, draws, m)
        &&& n[1] is SiLU
        &&& drawn_layer(n[2], hidden_dim, hidden_dim, draws, m + hidden_dim * data_dim)
        &&& n[3] is SiLU
        &&& drawn_layer(
            n[4],
            hidden_dim,
            data_dim,
            draws,
            m + hidden_dim * data_dim + hidden_dim * hidden_dim,
        )
    }

    pub fn new(
        data_dim: usize,
        hidden_dim: usize,
        time_embed_dim: usize,
        draws: &mut Draws<S>,
    ) -> (r: Self)
        requires
            old(draws).wf(),
            Self::size(data_dim as int, hidden_dim as int, time_embed_dim as int)
                <= old(draws).left(),
        ensures
            old(draws).taken(
                final(draws),
                Self::size(data_dim as int, hidden_dim as int, time_embed_dim as int),
            ),
            r.drawn(
                data_dim,
                hidden_dim,
                time_embed_dim,
                old(draws).values@,
                old(draws).next as int,
            ),
            r.wf(),
            r.shaped(),
            r.hidden() == hidden_dim,
    {
        proof {
            assert(0 <= hidden_dim * time_embed_dim && 0 <= data_dim * hidden_dim && 0 <= hidden_dim
                * data_dim && 0 <= hidden_dim * hidden_dim) by (nonlinear_arith);
        }
        let p0 = Linear::new(time_embed_dim, hidden_dim, true, draws);
        let p2 = Linear::new(hidden_dim, data_dim, true, draws);
        let n0 = Linear::new(data_dim, hidden_dim, true, draws);
        let n2 = Linear::new(hidden_dim, hidden_dim, true, draws);
        let n4 = Linear::new(hidden_dim, data_dim, true, draws);
        let time_proj = Sequential::new().add(Layer::Linear(p0)).add(Layer::SiLU(SiLU)).add(
            Layer::Linear(p2),
        );
        let net = Sequential::new().add(Layer::Linear(n0)).add(Layer::SiLU(SiLU)).add(
            Layer::Linear(n2),
        ).add(Layer::SiLU(SiLU)).add(Layer::Linear(n4));
        DenoiseNet { data_dim, time_embed_dim, time_proj, net }
    }

    /// The width of the layers inside.
    pub open spec fn hidden(&self) -> usize {
        self.net.layers@[0]->Linear_0.weight@.shape[0]
    }

    /// The layers have the kinds and the sizes that a new network has, whatever their weights.
    pub open spec fn shaped(&self) -> bool {
        let p = self.time_proj.layers@;
        let n = self.net.layers@;
        let h = self.hidden();
        &&& p.len() == 3
        &&& sized_layer(p[0], self.time_embed_dim, h)
        &&& p[1] is SiLU
        &&& sized_layer(p[2], h, self.data_dim)
        &&& n.len() == 5
        &&& sized_layer(n[0], self.data_dim, h)
        &&& n[1] is SiLU
        &&& sized_layer(n[2], h, h)
        &&& n[3] is SiLU
        &&& sized_layer(n[4], h, self.data_dim)
    }

    /// What the layers make of so many rows can be counted.
    pub open spec fn counts(&self, rows: usize) -> bool {
        let (d, h, t) = (self.data_dim as int, self.hidden() as int, self.time_embed_dim as int);
        &&& fits_in(1, h, t)
        &&& fits_in(1, d, h)
        &&& fits_in(rows as int, h, d)
        &&& fits_in(rows as int, h, h)
        &&& fits_in(rows as int, d, h)
    }

    /// What a step adds to the input.
    pub open spec fn condition(&self, t: usize) -> Value<S> {
        Value {
            data: self.time_proj.output(embedding(S::spec_count(t), self.time_embed_dim)).data,
            shape: seq![self.data_dim],
        }
    }

    /// The sizes allow a prediction.
    pub open spec fn predicts(&self, x: Value<S>, t: usize) -> bool {
        let e = embedding(S::spec_count(t), self.time_embed_dim);
        &&& self.time_proj.accepts(e)
        &&& tensor::volume(self.time_proj.output(e).shape) == self.data_dim
        &&& tensor::zips(x, self.condition(t))
        &&& self.net.accepts(tensor::zipped(Op::Add, x, self.condition(t)))
    }

    /// The predicted noise.
    pub open spec fn prediction(&self, x: Value<S>, t: usize) -> Value<S> {
        self.net.output(tensor::zipped(Op::Add, x, self.condition(t)))
    }

    /// The noise that is predicted in `x_t` at step `t`.
    pub fn predict(&self, x_t: &Tensor<S>, t: usize) -> (r: Tensor<S>)
        requires
            self.wf(),
            x_t.wf(),
            self.predicts(x_t@, t),
        ensures
            r.wf(),
            r@ == self.prediction(x_t@, t),
    {
        let temb = sinusoidal_embedding(S::count(t), self.time_embed_dim);
        let projected = self.time_proj.forward(&temb);
        let one: Vec<usize> = vec![self.data_dim];
        proof {
            assert(one@ =~= seq![self.data_dim]);
            tensor::lemma_volume_two(self.data_dim, 1);
        }
        let tcond = projected.reshape(&one);
        let conditioned = x_t.add(&tcond);
        self.net.forward(&conditioned)
    }
}

impl<S: Real> Module<S> for DenoiseNet<S> {
    open spec fn wf(&self) -> bool {
        self.time_proj.wf() && self.net.wf()
    }

    open spec fn accepts(&self, x: Value<S>) -> bool {
        self.net.accepts(x)
    }

    open spec fn output(&self, x: Value<S>) -> Value<S> {
        self.net.output(x)
    }

    open spec fn values(&self) -> Seq<Value<S>> {
        self.time_proj.values() + self.net.values()
    }

    open spec fn switched(&self, new: &Self, training: bool) -> bool {
        *new == *self
    }

    /// Runs the part for the data only.
    fn forward(&self, input: &Tensor<S>) -> (r: Tensor<S>) {
        self.net.forward(input)
    }

    fn parameters(&self) -> (r: Vec<Tensor<S>>) {
        let mut params = self.time_proj.parameters();
        let more = self.net.parameters();
        nn::push_tensors(
            &mut params,
            more,
            Ghost(self.time_proj.values()),
            Ghost(self.net.values()),
        );
        params
    }

    fn set_training(&mut self, training: bool) {
    }
}

/// A size that can be counted, also times another.
pub open spec fn fits_in(lead: int, out: int, inner: int) -> bool {
    lead * out <= usize::MAX && lead * out * inner <= usize::MAX
}

/// A network with the sizes of a new one makes a prediction of the shape of its input for each
/// batch that can be counted.
pub proof fn lemma_prediction_shape<S: Real>(net: DenoiseNet<S>, x: Value<S>, t: usize)
    requires
        net.shaped(),
        x.wf(),
        x.shape.len() == 2,
        x.shape[1] == net.data_dim,
        net.counts(x.shape[0]),
    ensures
        net.predicts(x, t),
        net.prediction(x, t).wf(),
        net.prediction(x, t).shape == x.shape,
{
    let (data_dim, hidden_dim, time_embed_dim) = (net.data_dim, net.hidden(), net.time_embed_dim);
    let e = embedding(S::spec_count(t), time_embed_dim);
    let p = net.time_proj.layers@;
    let n = net.net.layers@;
    reveal_with_fuel(nn::applied, 6);
    tensor::lemma_volume_two(1, time_embed_dim);
    assert(1 * time_embed_dim == time_embed_dim) by (nonlinear_arith);
    assert(e.wf());
    // The projection of the step.
    lemma_two_axes(e, 1, time_embed_dim);
    let e1 = p[0].output(e);
    nn::lemma_linear_shape(p[0]->Linear_0, e);
    assert(e1.shape =~= seq![1usize, hidden_dim]);
    let e2 = p[1].output(e1);
    lemma_two_axes(e2, 1, hidden_dim);
    nn::lemma_linear_shape(p[2]->Linear_0, e2);
    let e3 = p[2].output(e2);
    assert(e3.shape =~= seq![1usize, data_dim]);
    tensor::lemma_volume_two(1, data_dim);
    assert(1 * data_dim == data_dim) by (nonlinear_arith);
    assert(nn::applied(p, e, 1) == e1 && nn::applied(p, e, 2) == e2 && nn::applied(p, e, 3) == e3);
    assert(net.time_proj.accepts(e));
    // The input with the step added.
    let c = net.condition(t);
    assert(x.shape =~= seq![x.shape[0], data_dim]);
    nn::lemma_bias_fits(x, c);
    let y = tensor::zipped(Op::Add, x, c);
    assert(y.wf());
    // The data.
    let b = x.shape[0];
    lemma_two_axes(y, b, data_dim);
    nn::lemma_linear_shape(n[0]->Linear_0, y);
    let y1 = n[0].output(y);
    assert(y1.shape =~= seq![b, hidden_dim]);
    let y2 = n[1].output(y1);
    lemma_two_axes(y2, b, hidden_dim);
    nn::lemma_linear_shape(n[2]->Linear_0, y2);
    let y3 = n[2].output(y2);
    assert(y3.shape =~= seq![b, hidden_dim]);
    let y4 = n[3].output(y3);
    lemma_two_axes(y4, b, hidden_dim);
    nn::lemma_linear_shape(n[4]->Linear_0, y4);
    let y5 = n[4].output(y4);
    assert(y5.shape =~= seq![b, data_dim]);
    assert(nn::applied(n, y, 1) == y1 && nn::applied(n, y, 2) == y2 && nn::applied(n, y, 3) == y3
        && nn::applied(n, y, 4) == y4 && nn::applied(n, y, 5) == y5);
    assert(net.net.accepts(y));
}

proof fn lemma_two_axes<S>(v: Value<S>, a: usize, b: usize)
    requires
        v.shape == seq![a, b],
    ensures
        tensor::volume(v.shape.drop_last()) == a,
        v.shape.last() == b,
{
    assert(v.shape.drop_last() =~= seq![a]);
    tensor::lemma_volume_two(a, b);
}

// ---- The model

/// A noise schedule and a network that predicts noise.
#[derive(Debug, Clone)]
pub struct DDPM<S> {
    pub data_dim: usize,
    pub schedule: NoiseSchedule<S>,
    pub denoise: DenoiseNet<S>,
}

/// A number held between two bounds.
pub open spec fn held(n: usize, low: usize, high: usize) -> usize {
    if n < low {
        low
    } else if n > high {
        high
    } else {
        n
    }
}

/// Data mixed with noise.
pub open spec fn noised<S: Real>(x: Value<S>, noise: Value<S>, c1: S, c2: S) -> Value<S> {
    Value {
        data: Seq::new(
            x.data.len(),
            |i: int| x.data[i].spec_times(c1).spec_plus(noise.data[i].spec_times(c2)),
        ),
        shape: x.shape,
    }
}

impl<S: Real> DDPM<S> {
    pub fn new(
        data_dim: usize,
        hidden_dim: usize,
        timesteps: usize,
        schedule: ScheduleType,
        draws: &mut Draws<S>,
    ) -> (r: Self)
        requires
            schedule == ScheduleType::Cosine ==> timesteps > 0,
            old(draws).wf(),
            DenoiseNet::<S>::size(
                data_dim as int,
                hidden_dim as int,
                held(data_dim, 16, 128) as int,
            ) <= old(draws).left(),
        ensures
            old(draws).taken(
                final(draws),
                DenoiseNet::<S>::size(
                    data_dim as int,
                    hidden_dim as int,
                    held(data_dim, 16, 128) as int,
                ),
            ),
            r.wf(),
            r.denoise.shaped(),
            r.denoise.hidden() == hidden_dim,
            r.data_dim == data_dim,
            r.schedule.timesteps == timesteps,
            r.schedule.follows(betas_of(schedule, timesteps)),
            r.denoise.drawn(
                data_dim,
                hidden_dim,
                held(data_dim, 16, 128),
                old(draws).values@,
                old(draws).next as int,
            ),
    {
        let schedule = NoiseSchedule::new(schedule, timesteps);
        let time: usize = if data_dim < 16 {
            16
        } else if data_dim > 128 {
            128
        } else {
            data_dim
        };
        let denoise = DenoiseNet::new(data_dim, hidden_dim, time, draws);
        DDPM { data_dim, schedule, denoise }
    }

    /// The data with the noise of step `t`.
    pub open spec fn noised_at(&self, x_0: Value<S>, t: int, noise: Value<S>) -> Value<S> {
        noised(
            x_0,
            noise,
            self.schedule.sqrt_alpha_cumprod@[t],
            self.schedule.sqrt_one_minus_alpha_cumprod@[t],
        )
    }

    /// Mixes data with noise as step `t` does.
    pub fn q_sample(&self, x_0: &Tensor<S>, t: usize, noise: &Tensor<S>) -> (r: Tensor<S>)
        requires
            self.wf(),
            t < self.schedule.timesteps,
            x_0.wf(),
            noise.wf(),
            x_0@.shape == noise@.shape,
        ensures
            r.wf(),
            r@ == self.noised_at(x_0@, t as int, noise@),
            r.requires_grad == x_0.requires_grad,
    {
        let c1 = self.schedule.sqrt_alpha_cumprod[t];
        let c2 = self.schedule.sqrt_one_minus_alpha_cumprod[t];
        let ghost want = noised(x_0@, noise@, c1, c2);
        let mut data: Vec<S> = Vec::new();
        for i in 0..x_0.data.len()
            invariant
                x_0.data@.len() == noise.data@.len(),
                want == noised(x_0@, noise@, c1, c2),
                data@ =~= want.data.take(i as int),
        {
            data.push(x_0.data[i].times(c1).plus(noise.data[i].times(c2)));
        }
        assert(data@ =~= want.data);
        Tensor {
            data,
            shape: copy_slice(&x_0.shape),
            requires_grad: x_0.requires_grad,
            grad: None,
        }
    }

    pub fn predict_noise(&self, x_t: &Tensor<S>, t: usize) -> (r: Tensor<S>)
        requires
            self.wf(),
            x_t.wf(),
            self.denoise.predicts(x_t@, t),
        ensures
            r.wf(),
            r@ == self.denoise.prediction(x_t@, t),
    {
        self.denoise.predict(x_t, t)
    }

    /// The differences of the predicted noise from the noise.
    pub open spec fn misses(&self, x_0: Value<S>, t: usize, noise: Value<S>) -> Value<S> {
        tensor::zipped(
            Op::Sub,
            self.denoise.prediction(self.noised_at(x_0, t as int, noise), t),
            noise,
        )
    }

    /// The sum of the squared differences of the predicted noise from the noise.
    pub open spec fn noise_loss(&self, x_0: Value<S>, t: usize, noise: Value<S>) -> S {
        let d = self.misses(x_0, t, noise);
        tensor::sum_of(tensor::zipped(Op::Mul, d, d).data)
    }

    /// The model has the sizes of a new one, and the batch is one of its rows that can be counted.
    pub open spec fn trains(&self, x_0: Value<S>) -> bool {
        &&& self.denoise.shaped()
        &&& x_0.shape.len() == 2
        &&& x_0.shape[1] == self.denoise.data_dim
        &&& self.denoise.counts(x_0.shape[0])
        &&& 2 * x_0.data.len() <= usize::MAX
    }

    /// Normal noise from random numbers between zero and one.
    pub open spec fn noise_of(shape: Seq<usize>, draws: Seq<S>) -> Value<S> {
        Value {
            data: Seq::new(draws.len() / 2, |i: int| random::gaussian_at(draws, i)),
            shape,
        }
    }

    /// Mixes a batch with random normal noise as a random step does and predicts the noise. The
    /// first result is the loss to follow the gradient of, the second the loss for each element.
    pub fn train_batch(&self, x_0: &Tensor<S>) -> (r: (Tensor<S>, S))
        requires
            self.wf(),
            self.schedule.timesteps > 0,
            x_0.wf(),
            self.trains(x_0@),
        ensures
            r.0.wf(),
            exists|t: usize, draws: Seq<S>|
                #![trigger self.noise_loss(x_0@, t, Self::noise_of(x_0@.shape, draws))]
                t < self.schedule.timesteps && draws.len() == 2 * x_0@.data.len()
                    && random::are_units(draws) && r.0@.data == seq![
                    self.noise_loss(x_0@, t, Self::noise_of(x_0@.shape, draws)),
                ] && r.1 == self.noise_loss(
                    x_0@,
                    t,
                    Self::noise_of(x_0@.shape, draws),
                ).spec_over(S::spec_count(x_0@.data.len() as usize)),
            r.0@.shape == seq![1usize],
    {
        let t: usize = random_below(self.schedule.timesteps);
        let n: usize = x_0.data.len();
        let draws: Vec<S> = random_units(2 * n);
        let ghost want = Self::noise_of(x_0@.shape, draws@);
        let mut data: Vec<S> = Vec::new();
        let len: usize = draws.len();
        for i in 0..n
            invariant
                len == draws@.len(),
                2 * n == len,
                want == Self::noise_of(x_0@.shape, draws@),
                data@ =~= want.data.take(i as int),
        {
            data.push(normal_number(draws[2 * i], draws[2 * i + 1]));
        }
        assert(data@ =~= want.data);
        let noise = Tensor::from_vec(data, copy_slice(&x_0.shape));
        assert(noise@ =~= want);
        let ghost loss = self.noise_loss(x_0@, t, want);
        proof {
            let x_t = self.noised_at(x_0@, t as int, noise@);
            lemma_prediction_shape(self.denoise, x_t, t);
            tensor::lemma_zip_same_shape(Op::Sub, self.denoise.prediction(x_t, t), noise@);
        }
        self.train_batch_with(x_0, t, &noise)
    }

    /// Mixes a batch with noise as step `t` does and predicts the noise. The first result is the
    /// loss to follow the gradient of, the second the loss for each element.
    pub fn train_batch_with(&self, x_0: &Tensor<S>, t: usize, noise: &Tensor<S>) -> (r: (Tensor<S>, S))
        requires
            self.wf(),
            t < self.schedule.timesteps,
            x_0.wf(),
            noise.wf(),
            x_0@.shape == noise@.shape,
            self.denoise.predicts(self.noised_at(x_0@, t as int, noise@), t),
            tensor::zips(
                self.denoise.prediction(self.noised_at(x_0@, t as int, noise@), t),
                noise@,
            ),
        ensures
            r.0.wf(),
            r.0@.data == seq![self.noise_loss(x_0@, t, noise@)],
            r.0@.shape == seq![1usize],
            r.1 == self.noise_loss(x_0@, t, noise@).spec_over(
                S::spec_count(x_0@.data.len() as usize),
            ),
    {
        let n: usize = x_0.data.len();
        let x_t = self.q_sample(x_0, t, noise);
        let predicted = self.predict_noise(&x_t, t);
        let diff = predicted.sub(noise);
        proof {
            tensor::lemma_zip_same_shape(Op::Mul, diff@, diff@);
        }
        let loss = diff.mul(&diff).sum();
        let mean = loss.data[0].over(S::count(n));
        (loss, mean)
    }

    /// The value of a batch.
    pub open spec fn batch(&self, data: Seq<S>, batch_size: usize) -> Value<S> {
        Value { data, shape: seq![batch_size, self.data_dim] }
    }

    /// An element after a step backwards, from the predicted noise and a normal number.
    pub open spec fn denoised(&self, x: S, noise: S, t: int, z: S) -> S {
        let alpha = self.schedule.alphas@[t];
        let level = self.schedule.alpha_cumprod@[t];
        let beta = self.schedule.betas@[t];
        let mean = S::spec_one().spec_over(alpha.spec_sqrt()).spec_times(
            x.spec_minus(
                beta.spec_over(S::spec_one().spec_minus(level).spec_sqrt()).spec_times(noise),
            ),
        );
        if t > 0 {
            mean.spec_plus(beta.spec_sqrt().spec_times(z))
        } else {
            mean
        }
    }

    /// The batch after some steps backwards. The normal numbers, each from two random ones, are
    /// used in order: those of the start and then those of each step.
    pub open spec fn after(&self, batch_size: usize, draws: Seq<S>, k: int) -> Seq<S>
        decreases k,
    {
        let total = batch_size * self.data_dim;
        if k <= 0 {
            Seq::new(total as nat, |i: int| random::gaussian_at(draws, i))
        } else {
            let x = self.after(batch_size, draws, k - 1);
            let t = self.schedule.timesteps - k;
            let noise = self.denoise.prediction(self.batch(x, batch_size), t as usize).data;
            Seq::new(
                total as nat,
                |i: int|
                    self.denoised(x[i], noise[i], t, random::gaussian_at(draws, k * total + i)),
            )
        }
    }

    /// How many random numbers a batch takes.
    pub open spec fn draws_needed(&self, batch_size: usize) -> int {
        let total = batch_size * self.data_dim;
        if self.schedule.timesteps < 1 {
            2 * total
        } else {
            2 * (self.schedule.timesteps * total)
        }
    }

    /// The model has the sizes of a new one, and the rows can be counted.
    pub open spec fn samples(&self, batch_size: usize) -> bool {
        &&& self.denoise.shaped()
        &&& self.denoise.data_dim == self.data_dim
        &&& self.denoise.counts(batch_size)
        &&& batch_size * self.data_dim <= usize::MAX
        &&& self.draws_needed(batch_size) <= usize::MAX
    }

    /// Turns random normal noise into data, step by step.
    pub fn sample(&self, batch_size: usize) -> (r: Tensor<S>)
        requires
            self.wf(),
            self.samples(batch_size),
        ensures
            r.wf(),
            exists|draws: Seq<S>|
                #![trigger random::are_units(draws)]
                random::are_units(draws) && draws.len() == self.draws_needed(batch_size) && r@
                    == self.batch(
                    self.after(batch_size, draws, self.schedule.timesteps as int),
                    batch_size,
                ),
    {
        proof {
            assert(0 <= batch_size * self.data_dim) by (nonlinear_arith);
        }
        let total: usize = batch_size * self.data_dim;
        let steps: usize = self.schedule.timesteps;
        proof {
            assert(0 <= steps * total) by (nonlinear_arith)
                requires
                    0 <= steps,
                    0 <= total,
            ;
        }
        let n: usize = if steps < 1 {
            2 * total
        } else {
            2 * (steps * total)
        };
        let draws: Vec<S> = random_units(n);
        self.sample_from(batch_size, &draws)
    }

    /// Turns noise into data, step by step. The random numbers lie between zero and one.
    pub fn sample_from(&self, batch_size: usize, draws: &[S]) -> (r: Tensor<S>)
        requires
            self.wf(),
            self.samples(batch_size),
            draws@.len() == self.draws_needed(batch_size),
        ensures
            r.wf(),
            r@ == self.batch(
                self.after(batch_size, draws@, self.schedule.timesteps as int),
                batch_size,
            ),
    {
        let ghost total_ = batch_size * self.data_dim;
        proof {
            assert(0 <= total_) by (nonlinear_arith)
                requires
                    total_ == batch_size * self.data_dim,
            ;
            tensor::lemma_volume_two(batch_size, self.data_dim);
            let steps = self.schedule.timesteps as int;
            if steps >= 1 {
                assert(total_ <= steps * total_) by (nonlinear_arith)
                    requires
                        1 <= steps,
                        0 <= total_,
                ;
            } else {
                assert(steps * total_ == 0) by (nonlinear_arith)
                    requires
                        steps == 0,
                ;
            }
        }
        let total: usize = batch_size * self.data_dim;
        let len: usize = draws.len();
        let mut x: Vec<S> = Vec::new();
        for i in 0..total
            invariant
                total == batch_size * self.data_dim,
                len == draws@.len(),
                2 * total <= len,
                x@ =~= self.after(batch_size, draws@, 0).take(i as int),
        {
            x.push(normal_number(draws[2 * i], draws[2 * i + 1]));
        }
        assert(x@ =~= self.after(batch_size, draws@, 0));
        let steps: usize = self.schedule.timesteps;
        for k in 0..steps
            invariant
                self.wf(),
                self.samples(batch_size),
                2 * (steps * total) <= draws@.len(),
                steps == self.schedule.timesteps,
                total == batch_size * self.data_dim,
                len == draws@.len(),
                x@ == self.after(batch_size, draws@, k as int),
                x@.len() == total,
        {
            let t: usize = steps - 1 - k;
            let shape: Vec<usize> = vec![batch_size, self.data_dim];
            proof {
                assert(shape@ =~= seq![batch_size, self.data_dim]);
                tensor::lemma_volume_two(batch_size, self.data_dim);
            }
            let x_t = Tensor::from_vec(copy_slice(&x), shape);
            assert(x_t@ =~= self.batch(x@, batch_size));
            proof {
                lemma_prediction_shape(self.denoise, x_t@, t);
            }
            let noise = self.predict_noise(&x_t, t);
            let alpha = self.schedule.alphas[t];
            let level = self.schedule.alpha_cumprod[t];
            let beta = self.schedule.betas[t];
            let ghost before = x@;
            let ghost want = self.after(batch_size, draws@, k + 1);
            let mut next: Vec<S> = Vec::new();
            for i in 0..total
                invariant
                    self.wf(),
                    k < steps,
                    steps == self.schedule.timesteps,
                    t == steps - 1 - k,
                    total == x@.len(),
                    total <= noise.data@.len(),
                    len == draws@.len(),
                    2 * (steps * total) <= len,
                    alpha == self.schedule.alphas@[t as int],
                    level == self.schedule.alpha_cumprod@[t as int],
                    beta == self.schedule.betas@[t as int],
                    want == Seq::new(
                        total as nat,
                        |j: int|
                            self.denoised(
                                x@[j],
                                noise.data@[j],
                                t as int,
                                random::gaussian_at(draws@, (k + 1) * total + j),
                            ),
                    ),
                    next@ =~= want.take(i as int),
            {
                let mean = S::one().over(alpha.sqrt()).times(
                    x[i].minus(beta.over(S::one().minus(level).sqrt()).times(noise.data[i])),
                );
                if t > 0 {
                    proof {
                        nn::lemma_row_in(k + 1, steps as int, total as int, steps * total);
                    }
                    let at: usize = (k + 1) * total + i;
                    let z = normal_number(draws[2 * at], draws[2 * at + 1]);
                    next.push(mean.plus(beta.sqrt().times(z)));
                } else {
                    next.push(mean);
                }
            }
            assert(next@ =~= want);
            x = next;
        }
        let shape: Vec<usize> = vec![batch_size, self.data_dim];
        proof {
            assert(shape@ =~= seq![batch_size, self.data_dim]);
            tensor::lemma_volume_two(batch_size, self.data_dim);
        }
        Tensor::from_vec(x, shape)
    }
}

impl<S: Real> Module<S> for DDPM<S> {
    open spec fn wf(&self) -> bool {
        self.schedule.wf() && self.denoise.wf()
    }

    open spec fn accepts(&self, x: Value<S>) -> bool {
        self.denoise.accepts(x)
    }

    open spec fn output(&self, x: Value<S>) -> Value<S> {
        self.denoise.output(x)
    }

    open spec fn values(&self) -> Seq<Value<S>> {
        self.denoise.values()
    }

    open spec fn switched(&self, new: &Self, training: bool) -> bool {
        *new == *self
    }

    fn forward(&self, input: &Tensor<S>) -> (r: Tensor<S>) {
        self.denoise.forward(input)
    }

    fn parameters(&self) -> (r: Vec<Tensor<S>>) {
        self.denoise.parameters()
    }

    fn set_training(&mut self, training: bool) {
    }
}

} // verus!
