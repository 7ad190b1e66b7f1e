//! Models that think in steps: switching between two ways, or aggregating several traces.
use vstd::prelude::*;
use crate::nn;
use crate::nn::{Draws, Layer, Linear, Module, Sequential};
use crate::number;
use crate::number::Real;
use crate::tensor;
use crate::tensor::{Op, Tensor, Value};

verus! {

/// How many steps are thought.
pub const THINKING_STEPS: usize = 4;

/// Thinks with one of two layers at a time and switches where it is not confident.
#[derive(Debug, Clone)]
pub struct SwiReasoning<S> {
    pub latent_layer: Sequential<Layer<S>>,
    pub explicit_layer: Sequential<Layer<S>>,
    pub max_switch_count: usize,
    pub entropy_threshold: S,
}

/// Where thinking stands.
#[verifier::ext_equal]
pub struct Thought<S> {
    pub state: Value<S>,
    pub switches: int,
    pub latent: bool,
}

/// The mean distance of the elements from zero.
pub open spec fn mean_magnitude<S: Real>(data: Seq<S>) -> S {
    number::sum_n(|i: int| data[i].spec_abs(), data.len() as int).spec_over(
        S::spec_count(data.len() as usize).spec_larger(S::spec_one()),
    )
}

impl<S: Real> SwiReasoning<S> {
    pub fn new(
        hidden_dim: usize,
        max_switch_count: usize,
        entropy_threshold: S,
        draws: &mut Draws<S>,
    ) -> (r: Self)
        requires
            old(draws).wf(),
            2 * (hidden_dim * hidden_dim) <= old(draws).left(),
        ensures
            old(draws).taken(final(draws), 2 * (hidden_dim * hidden_dim)),
            r.wf(),
            r.max_switch_count == max_switch_count,
            r.entropy_threshold == entropy_threshold,
            r.latent_layer.layers@.len() == 1,
            r.latent_layer.layers@[0] matches Layer::Linear(l) && nn::drawn_linear(
                l,
                hidden_dim,
                hidden_dim,
                true,
                old(draws).values@,
                old(draws).next as int,
            ),
            r.explicit_layer.layers@.len() == 1,
            r.explicit_layer.layers@[0] matches Layer::Linear(l) && nn::drawn_linear(
                l,
                hidden_dim,
                hidden_dim,
                true,
                old(draws).values@,
                old(draws).next + hidden_dim * hidden_dim,
            ),
    {
        proof {
            assert(0 <= hidden_dim * hidden_dim) by (nonlinear_arith);
        }
        let first = Linear::new(hidden_dim, hidden_dim, true, draws);
        let second = Linear::new(hidden_dim, hidden_dim, true, draws);
        SwiReasoning {
            latent_layer: Sequential::new().add(Layer::Linear(first)),
            explicit_layer: Sequential::new().add(Layer::Linear(second)),
            max_switch_count,
            entropy_threshold,
        }
    }

    /// How confident a state is: the mean distance of its elements from zero.
    pub fn calculate_confidence(&self, hidden_state: &Tensor<S>) -> (r: S)
        ensures
            r == mean_magnitude(hidden_state@.data),
    {
        let data = &hidden_state.data;
        let ghost f = |i: int| data@[i].spec_abs();
        let n: usize = data.len();
        let mut s = S::zero();
        for i in 0..n
            invariant
                n == data@.len(),
                f == (|i: int| data@[i].spec_abs()),
                s == number::sum_n(f, i as int),
        {
            s = s.plus(data[i].abs());
        }
        s.over(S::count(n).larger(S::one()))
    }

    /// Whether to switch.
    pub open spec fn switches_at(&self, t: Thought<S>) -> bool {
        mean_magnitude(t.state.data).spec_below(self.entropy_threshold) && t.switches
            < self.max_switch_count
    }

    /// The layer of the next step.
    pub open spec fn layer_at(&self, t: Thought<S>) -> Sequential<Layer<S>> {
        if t.latent != self.switches_at(t) {
            self.latent_layer
        } else {
            self.explicit_layer
        }
    }

    /// Where thinking stands after some steps.
    pub open spec fn thought(&self, x: Value<S>, n: int) -> Thought<S>
        decreases n,
    {
        if n <= 0 {
            Thought { state: x, switches: 0, latent: true }
        } else {
            let t = self.thought(x, n - 1);
            Thought {
                state: self.layer_at(t).output(t.state),
                switches: t.switches + (if self.switches_at(t) {
                    1int
                } else {
                    0
                }),
                latent: t.latent != self.switches_at(t),
            }
        }
    }
}

impl<S: Real> Module<S> for SwiReasoning<S> {
    open spec fn wf(&self) -> bool {
        self.latent_layer.wf() && self.explicit_layer.wf()
    }

    open spec fn accepts(&self, x: Value<S>) -> bool {
        forall|n: int|
            0 <= n < THINKING_STEPS ==> {
                let t = #[trigger] self.thought(x, n);
                self.layer_at(t).accepts(t.state)
            }
    }

    open spec fn output(&self, x: Value<S>) -> Value<S> {
        self.thought(x, THINKING_STEPS as int).state
    }

    open spec fn values(&self) -> Seq<Value<S>> {
        self.latent_layer.values() + self.explicit_layer.values()
    }

    open spec fn switched(&self, new: &Self, training: bool) -> bool {
        *new == *self
    }

    fn forward(&self, input: &Tensor<S>) -> (r: Tensor<S>) {
        let mut state = input.duplicate();
        let mut switches: usize = 0;
        let mut latent = true;
        for n in 0..THINKING_STEPS
            invariant
                self.wf(),
                self.accepts(input@),
                state.wf(),
                switches <= n,
                self.thought(input@, n as int) == (Thought::<S> {
                    state: state@,
                    switches: switches as int,
                    latent,
                }),
        {
            let confidence = self.calculate_confidence(&state);
            let ghost t = self.thought(input@, n as int);
            if confidence.below(self.entropy_threshold) && switches < self.max_switch_count {
                latent = !latent;
                switches = switches + 1;
            }
            if latent {
                state = self.latent_layer.forward(&state);
            } else {
                state = self.explicit_layer.forward(&state);
            }
        }
        state
    }

    fn parameters(&self) -> (r: Vec<Tensor<S>>) {
        let mut params = self.latent_layer.parameters();
        let more = self.explicit_layer.parameters();
        nn::push_tensors(
            &mut params,
            more,
            Ghost(self.latent_layer.values()),
            Ghost(self.explicit_layer.values()),
        );
        params
    }

    fn set_training(&mut self, training: bool) {
    }
}

/// Never more switches than allowed.
pub proof fn lemma_switches_bounded<S: Real>(m: SwiReasoning<S>, x: Value<S>, n: int)
    ensures
        0 <= m.thought(x, n).switches <= m.max_switch_count,
    decreases n,
{
    if n > 0 {
        lemma_switches_bounded(m, x, n - 1);
    }
}

/// Generates several traces and aggregates them.
#[derive(Debug, Clone)]
pub struct MarkovianRSA<S> {
    pub num_parallel_traces: usize,
    pub chunk_duration: usize,
    pub aggregation_layer: Linear<S>,
}

/// The sum of equal traces.
pub open spec fn traces<S: Real>(x: Value<S>, n: int) -> Value<S>
    decreases n,
{
    if n <= 1 {
        x
    } else {
        tensor::zipped(Op::Add, traces(x, n - 1), x)
    }
}

impl<S: Real> MarkovianRSA<S> {
    pub fn new(
        hidden_dim: usize,
        num_parallel_traces: usize,
        chunk_duration: usize,
        draws: &mut Draws<S>,
    ) -> (r: Self)
        requires
            hidden_dim * num_parallel_traces <= usize::MAX,
            old(draws).wf(),
            hidden_dim * (hidden_dim * num_parallel_traces) <= old(draws).left(),
        ensures
            old(draws).taken(final(draws), hidden_dim * (hidden_dim * num_parallel_traces)),
            r.num_parallel_traces == num_parallel_traces,
            r.chunk_duration == chunk_duration,
            nn::drawn_linear(
                r.aggregation_layer,
                (hidden_dim * num_parallel_traces) as usize,
                hidden_dim,
                true,
                old(draws).values@,
                old(draws).next as int,
            ),
            r.wf(),
    {
        MarkovianRSA {
            num_parallel_traces,
            chunk_duration,
            aggregation_layer: Linear::new(
                hidden_dim * num_parallel_traces,
                hidden_dim,
                true,
                draws,
            ),
        }
    }
}

impl<S: Real> Module<S> for MarkovianRSA<S> {
    open spec fn wf(&self) -> bool {
        self.aggregation_layer.wf()
    }

    open spec fn accepts(&self, x: Value<S>) -> bool {
        self.num_parallel_traces > 0
    }

    open spec fn output(&self, x: Value<S>) -> Value<S> {
        traces(x, self.num_parallel_traces as int)
    }

    open spec fn values(&self) -> Seq<Value<S>> {
        self.aggregation_layer.values()
    }

    open spec fn switched(&self, new: &Self, training: bool) -> bool {
        *new == *self
    }

    fn forward(&self, input: &Tensor<S>) -> (r: Tensor<S>) {
        let mut aggregated = input.duplicate();
        for n in 1..self.num_parallel_traces
            invariant
                input.wf(),
                aggregated.wf(),
                aggregated@ == traces(input@, n as int),
                aggregated@.shape == input@.shape,
        {
            proof {
                tensor::lemma_zip_same_shape(Op::Add, aggregated@, input@);
            }
            aggregated = aggregated.add(input);
        }
        aggregated
    }

    fn parameters(&self) -> (r: Vec<Tensor<S>>) {
        self.aggregation_layer.parameters()
    }

    fn set_training(&mut self, training: bool) {
    }
}

} // verus!
