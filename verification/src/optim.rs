//! Optimizers: rules by which parameters follow their gradients.
use vstd::prelude::*;
use crate::number;
use crate::number::{filled, Real};
use crate::tensor;
use crate::tensor::Tensor;

verus! {

/// A rule that updates the parameters it was given.
pub trait Optimizer {
    /// Updates each parameter that has a gradient and takes the gradient away.
    fn step(&mut self)
        requires
            old(self).ready(),
        ensures
            final(self).wf(),
    ;

    /// Takes all gradients away.
    fn zero_grad(&mut self)
        requires
            old(self).wf(),
        ensures
            final(self).wf(),
    ;

    spec fn wf(&self) -> bool;

    /// Whether another step can be counted.
    spec fn ready(&self) -> bool;
}

/// The parameters are tensors, and what is kept beside each has its length.
pub open spec fn params_wf<S>(params: Seq<Tensor<S>>) -> bool {
    forall|i: int| 0 <= i < params.len() ==> (#[trigger] params[i]).wf()
}

/// The tensor with new elements and without a gradient.
pub open spec fn updated<S>(old: Tensor<S>, new: Tensor<S>, data: Seq<S>) -> bool {
    &&& new.data@ == data
    &&& new.shape == old.shape
    &&& new.requires_grad == old.requires_grad
    &&& new.grad is None
}

/// `x` minus `lr` times the direction, element by element.
pub open spec fn descended<S: Real>(x: Seq<S>, dir: Seq<S>, lr: S) -> Seq<S> {
    Seq::new(x.len(), |i: int| x[i].spec_minus(dir[i].spec_times(lr)))
}

/// The buffer decayed by the momentum plus the gradient.
pub open spec fn blended<S: Real>(buffer: Seq<S>, momentum: S, g: Seq<S>) -> Seq<S> {
    Seq::new(g.len(), |i: int| buffer[i].spec_times(momentum).spec_plus(g[i]))
}

fn descend<S: Real>(x: &mut Vec<S>, dir: &Vec<S>, lr: S)
    requires
        old(x)@.len() == dir@.len(),
    ensures
        final(x)@ == descended(old(x)@, dir@, lr),
{
    let n: usize = x.len();
    for i in 0..n
        invariant
            n == x@.len(),
            x@.len() == old(x)@.len(),
            x@.len() == dir@.len(),
            forall|j: int|
                0 <= j < x@.len() ==> #[trigger] x@[j] == if j < i {
                    old(x)@[j].spec_minus(dir@[j].spec_times(lr))
                } else {
                    old(x)@[j]
                },
    {
        let v = x[i].minus(dir[i].times(lr));
        x[i] = v;
    }
    assert(x@ =~= descended(old(x)@, dir@, lr));
}

fn blend<S: Real>(buffer: &Vec<S>, momentum: S, g: &Vec<S>) -> (r: Vec<S>)
    requires
        buffer@.len() == g@.len(),
    ensures
        r@ == blended(buffer@, momentum, g@),
{
    let mut r: Vec<S> = Vec::new();
    for i in 0..g.len()
        invariant
            buffer@.len() == g@.len(),
            r@ =~= Seq::new(
                i as nat,
                |i: int| buffer@[i].spec_times(momentum).spec_plus(g@[i]),
            ),
    {
        r.push(buffer[i].times(momentum).plus(g[i]));
    }
    r
}

/// Stochastic gradient descent with momentum.
pub struct SGD<S> {
    pub params: Vec<Tensor<S>>,
    pub lr: S,
    pub momentum: S,
    pub momentum_buffers: Vec<Option<Vec<S>>>,
}

/// What a momentum step does to the elements and the buffer of a parameter with gradient `g`.
pub open spec fn momentum_step<S: Real>(
    x: Seq<S>,
    g: Seq<S>,
    buffer: Option<Seq<S>>,
    lr: S,
    momentum: S,
) -> (Seq<S>, Option<Seq<S>>) {
    if S::spec_zero().spec_below(momentum) {
        let b = match buffer {
            Some(b) => blended(b, momentum, g),
            None => g,
        };
        (descended(x, b, lr), Some(b))
    } else {
        (descended(x, g, lr), buffer)
    }
}

/// Buffers that exist have the length of their parameter.
pub open spec fn buffers_fit<S>(params: Seq<Tensor<S>>, buffers: Seq<Option<Vec<S>>>) -> bool {
    &&& buffers.len() == params.len()
    &&& forall|i: int|
        0 <= i < params.len() ==> ((#[trigger] buffers[i]) matches Some(b) ==> b@.len()
            == params[i].data@.len())
}

fn apply_momentum<S: Real>(
    x: &mut Vec<S>,
    g: Vec<S>,
    buffer: &mut Option<Vec<S>>,
    lr: S,
    momentum: S,
)
    requires
        old(x)@.len() == g@.len(),
        *old(buffer) matches Some(b) ==> b@.len() == g@.len(),
    ensures
        (final(x)@, tensor::grad_of(*final(buffer))) == momentum_step(
            old(x)@,
            g@,
            tensor::grad_of(*old(buffer)),
            lr,
            momentum,
        ),
        *final(buffer) matches Some(b) ==> b@.len() == g@.len(),
{
    if S::zero().below(momentum) {
        let b = match buffer.take() {
            Some(b) => blend(&b, momentum, &g),
            None => g,
        };
        descend(x, &b, lr);
        *buffer = Some(b);
    } else {
        descend(x, &g, lr);
    }
}

impl<S: Real> SGD<S> {
    pub fn new(params: Vec<Tensor<S>>, lr: S, momentum: S) -> (r: Self)
        requires
            params_wf(params@),
        ensures
            r.params == params,
            r.lr == lr,
            r.momentum == momentum,
            r.momentum_buffers@ == Seq::new(params@.len(), |i: int| None::<Vec<S>>),
            r.wf(),
    {
        let n: usize = params.len();
        let mut momentum_buffers: Vec<Option<Vec<S>>> = Vec::new();
        for i in 0..n
            invariant
                momentum_buffers@ =~= Seq::new(i as nat, |i: int| None::<Vec<S>>),
        {
            momentum_buffers.push(None);
        }
        SGD { params, lr, momentum, momentum_buffers }
    }
}

/// What one step of descent with momentum does to all parameters and buffers.
pub open spec fn momentum_stepped<S: Real>(
    p: Seq<Tensor<S>>,
    b: Seq<Option<Vec<S>>>,
    p2: Seq<Tensor<S>>,
    b2: Seq<Option<Vec<S>>>,
    lr: S,
    momentum: S,
    direction: spec_fn(Seq<S>) -> Seq<S>,
    upto: int,
) -> bool {
    &&& p2.len() == p.len()
    &&& b2.len() == b.len()
    &&& forall|i: int|
        #![trigger p2[i]]
        #![trigger b2[i]]
        0 <= i < upto ==> match tensor::grad_of(p[i].grad) {
            Some(g) => {
                let (x, c) = momentum_step(
                    p[i].data@,
                    direction(g),
                    tensor::grad_of(b[i]),
                    lr,
                    momentum,
                );
                updated(p[i], p2[i], x) && tensor::grad_of(b2[i]) == c
            },
            None => p2[i] == p[i] && b2[i] == b[i],
        }
    &&& forall|i: int|
        #![trigger p2[i]]
        #![trigger b2[i]]
        upto <= i < p.len() ==> p2[i] == p[i] && b2[i] == b[i]
}

impl<S: Real> Optimizer for SGD<S> {
    open spec fn wf(&self) -> bool {
        params_wf(self.params@) && buffers_fit(self.params@, self.momentum_buffers@)
    }

    open spec fn ready(&self) -> bool {
        self.wf()
    }

    fn step(&mut self)
        ensures
            final(self).lr == old(self).lr,
            final(self).momentum == old(self).momentum,
            momentum_stepped(
                old(self).params@,
                old(self).momentum_buffers@,
                final(self).params@,
                final(self).momentum_buffers@,
                old(self).lr,
                old(self).momentum,
                |g: Seq<S>| g,
                old(self).params@.len() as int,
            ),
    {
        let n: usize = self.params.len();
        for i in 0..n
            invariant
                n == self.params@.len(),
                self.wf(),
                self.lr == old(self).lr,
                self.momentum == old(self).momentum,
                momentum_stepped(
                    old(self).params@,
                    old(self).momentum_buffers@,
                    self.params@,
                    self.momentum_buffers@,
                    self.lr,
                    self.momentum,
                    |g: Seq<S>| g,
                    i as int,
                ),
        {
            let lr = self.lr;
            let momentum = self.momentum;
            assert(self.params@[i as int] == old(self).params@[i as int]);
            assert(self.momentum_buffers@[i as int] == old(self).momentum_buffers@[i as int]);
            if let Some(g) = self.params[i].grad.take() {
                let buffer = &mut self.momentum_buffers[i];
                apply_momentum(&mut self.params[i].data, g, buffer, lr, momentum);
            }
        }
    }

    fn zero_grad(&mut self)
        ensures
            cleared(old(self).params@, final(self).params@),
            final(self).momentum_buffers == old(self).momentum_buffers,
            final(self).lr == old(self).lr,
            final(self).momentum == old(self).momentum,
    {
        clear_grads(&mut self.params);
    }
}

/// The same tensors without gradients.
pub open spec fn cleared<S>(old: Seq<Tensor<S>>, new: Seq<Tensor<S>>) -> bool {
    &&& new.len() == old.len()
    &&& forall|i: int|
        0 <= i < old.len() ==> updated(old[i], #[trigger] new[i], old[i].data@) && new[i].data
            == old[i].data
}

fn clear_grads<S>(params: &mut Vec<Tensor<S>>)
    requires
        params_wf(old(params)@),
    ensures
        cleared(old(params)@, final(params)@),
        params_wf(final(params)@),
{
    let n: usize = params.len();
    for i in 0..n
        invariant
            n == params@.len(),
            n == old(params)@.len(),
            params_wf(params@),
            forall|j: int|
                0 <= j < n ==> if j < i {
                    updated(old(params)@[j], #[trigger] params@[j], old(params)@[j].data@)
                        && params@[j].data == old(params)@[j].data
                } else {
                    params@[j] == old(params)@[j]
                },
    {
        params[i].grad = None;
    }
}

/// The constants of one Adam step.
pub struct AdamRates<S> {
    /// Decay of the first moment.
    pub b1: S,
    /// Decay of the second moment.
    pub b2: S,
    /// One minus the decay of the first moment.
    pub one_b1: S,
    /// One minus the decay of the second moment.
    pub one_b2: S,
    pub eps: S,
    /// The bias-corrected learning rate.
    pub lr_t: S,
}

/// The first moment after a step.
pub open spec fn adam_m<S: Real>(m: S, g: S, k: AdamRates<S>) -> S {
    m.spec_times(k.b1).spec_plus(g.spec_times(k.one_b1))
}

/// The second moment after a step.
pub open spec fn adam_v<S: Real>(v: S, g: S, k: AdamRates<S>) -> S {
    v.spec_times(k.b2).spec_plus(g.spec_times(g).spec_times(k.one_b2))
}

/// The parameter after a step that has led to the moments `m` and `v`.
pub open spec fn adam_d<S: Real>(d: S, m: S, v: S, k: AdamRates<S>) -> S {
    d.spec_minus(k.lr_t.spec_times(m).spec_over(v.spec_sqrt().spec_plus(k.eps)))
}

/// Moments and parameters after one step, element by element.
pub open spec fn adam_stepped<S: Real>(
    g: Seq<S>,
    m: Seq<S>,
    v: Seq<S>,
    d: Seq<S>,
    k: AdamRates<S>,
) -> (Seq<S>, Seq<S>, Seq<S>) {
    let m2 = Seq::new(g.len(), |i: int| adam_m(m[i], g[i], k));
    let v2 = Seq::new(g.len(), |i: int| adam_v(v[i], g[i], k));
    (m2, v2, Seq::new(g.len(), |i: int| adam_d(d[i], m2[i], v2[i], k)))
}

/// Updates moments and parameters in one pass.
pub fn adam_update_scalar<S: Real>(
    g: &[S],
    m: &mut [S],
    v: &mut [S],
    d: &mut [S],
    k: &AdamRates<S>,
)
    requires
        g@.len() == old(m)@.len(),
        g@.len() == old(v)@.len(),
        g@.len() == old(d)@.len(),
    ensures
        (final(m)@, final(v)@, final(d)@) == adam_stepped(
            g@,
            old(m)@,
            old(v)@,
            old(d)@,
            *k,
        ),
{
    for i in 0..g.len()
        invariant
            g@.len() == m@.len(),
            g@.len() == v@.len(),
            g@.len() == d@.len(),
            g@.len() == old(m)@.len(),
            g@.len() == old(v)@.len(),
            g@.len() == old(d)@.len(),
            ({
                let (m2, v2, d2) = adam_stepped(g@, old(m)@, old(v)@, old(d)@, *k);
                forall|j: int|
                    #![trigger m@[j]]
                    #![trigger v@[j]]
                    #![trigger d@[j]]
                    0 <= j < g@.len() ==> if j < i {
                        m@[j] == m2[j] && v@[j] == v2[j] && d@[j] == d2[j]
                    } else {
                        m@[j] == old(m)@[j] && v@[j] == old(v)@[j] && d@[j] == old(d)@[j]
                    }
            }),
    {
        let gk = g[i];
        let mk = m[i].times(k.b1).plus(gk.times(k.one_b1));
        let vk = v[i].times(k.b2).plus(gk.times(gk).times(k.one_b2));
        m[i] = mk;
        v[i] = vk;
        let dk = d[i].minus(k.lr_t.times(mk).over(vk.sqrt().plus(k.eps)));
        d[i] = dk;
    }
    proof {
        let (m2, v2, d2) = adam_stepped(g@, old(m)@, old(v)@, old(d)@, *k);
        assert(m@ =~= m2);
        assert(v@ =~= v2);
        assert(d@ =~= d2);
    }
}

/// The rates of step number `t`.
pub open spec fn adam_rates<S: Real>(lr: S, beta1: S, beta2: S, eps: S, t: u32) -> AdamRates<S> {
    let one = S::spec_one();
    let bc1 = one.spec_minus(beta1.spec_powi(t as i32));
    let bc2 = one.spec_minus(beta2.spec_powi(t as i32));
    AdamRates {
        b1: beta1,
        b2: beta2,
        one_b1: one.spec_minus(beta1),
        one_b2: one.spec_minus(beta2),
        eps,
        lr_t: lr.spec_times(bc2.spec_sqrt()).spec_over(bc1),
    }
}

/// The rates of step number `t`.
pub fn rates_at<S: Real>(lr: S, beta1: S, beta2: S, eps: S, t: u32) -> (r: AdamRates<S>)
    ensures
        r == adam_rates(lr, beta1, beta2, eps, t),
{
    let bc1 = S::one().minus(beta1.powi(t as i32));
    let bc2 = S::one().minus(beta2.powi(t as i32));
    AdamRates {
        b1: beta1,
        b2: beta2,
        one_b1: S::one().minus(beta1),
        one_b2: S::one().minus(beta2),
        eps,
        lr_t: lr.times(bc2.sqrt()).over(bc1),
    }
}

/// Adam: descent along running means of the gradient and its square.
pub struct Adam<S> {
    pub params: Vec<Tensor<S>>,
    pub lr: S,
    pub beta1: S,
    pub beta2: S,
    pub eps: S,
    /// First moments.
    pub m: Vec<Vec<S>>,
    /// Second moments.
    pub v: Vec<Vec<S>>,
    /// How many steps were taken.
    pub t: u32,
}

/// As many vectors as parameters, each of its parameter's length.
pub open spec fn moments_fit<S>(params: Seq<Tensor<S>>, m: Seq<Vec<S>>) -> bool {
    &&& m.len() == params.len()
    &&& forall|i: int|
        0 <= i < params.len() ==> (#[trigger] m[i])@.len() == params[i].data@.len()
}

/// A zero for each element of each parameter.
fn zero_moments<S: Real>(params: &Vec<Tensor<S>>) -> (r: Vec<Vec<S>>)
    ensures
        moments_fit(params@, r@),
        forall|i: int, j: int|
            0 <= i < params@.len() && 0 <= j < params@[i].data@.len() ==> #[trigger] r@[i]@[j]
                == S::spec_zero(),
{
    let mut r: Vec<Vec<S>> = Vec::new();
    for i in 0..params.len()
        invariant
            r@.len() == i,
            forall|j: int|
                0 <= j < i ==> (#[trigger] r@[j])@ == Seq::new(
                    params@[j].data@.len(),
                    |x: int| S::spec_zero(),
                ),
    {
        r.push(filled(S::zero(), params[i].data.len()));
    }
    r
}

/// `n` over `d`.
pub open spec fn ratio<S: Real>(n: usize, d: usize) -> S {
    S::spec_count(n).spec_over(S::spec_count(d))
}

/// `n` over `d`.
pub fn fraction<S: Real>(n: usize, d: usize) -> (r: S)
    ensures
        r == ratio::<S>(n, d),
{
    S::count(n).over(S::count(d))
}

impl<S: Real> Adam<S> {
    /// Decays of 0.9 and 0.999 and an `eps` of a hundred-millionth.
    pub fn new(params: Vec<Tensor<S>>, lr: S) -> (r: Self)
        requires
            params_wf(params@),
        ensures
            r.params == params,
            r.lr == lr,
            r.beta1 == ratio::<S>(9, 10),
            r.beta2 == ratio::<S>(999, 1000),
            r.eps == ratio::<S>(1, 100_000_000),
            r.t == 0,
            forall|i: int, j: int|
                0 <= i < params@.len() && 0 <= j < params@[i].data@.len()
                    ==> #[trigger] r.m@[i]@[j] == S::spec_zero(),
            forall|i: int, j: int|
                0 <= i < params@.len() && 0 <= j < params@[i].data@.len()
                    ==> #[trigger] r.v@[i]@[j] == S::spec_zero(),
            r.ready(),
    {
        let m = zero_moments(&params);
        let v = zero_moments(&params);
        Adam {
            params,
            lr,
            beta1: fraction(9, 10),
            beta2: fraction(999, 1000),
            eps: fraction(1, 100_000_000),
            m,
            v,
            t: 0,
        }
    }

    /// What a step does to the first `upto` parameters and their moments.
    pub open spec fn stepped(self, new: Self, upto: int) -> bool {
        let k = adam_rates(self.lr, self.beta1, self.beta2, self.eps, (self.t + 1) as u32);
        &&& new.params@.len() == self.params@.len()
        &&& new.m@.len() == self.m@.len()
        &&& new.v@.len() == self.v@.len()
        &&& forall|i: int|
            #![trigger new.params@[i]]
            #![trigger new.m@[i]]
            #![trigger new.v@[i]]
            0 <= i < upto ==> match tensor::grad_of(self.params@[i].grad) {
                Some(g) => {
                    let (m2, v2, d2) = adam_stepped(
                        g,
                        self.m@[i]@,
                        self.v@[i]@,
                        self.params@[i].data@,
                        k,
                    );
                    &&& updated(self.params@[i], new.params@[i], d2)
                    &&& new.m@[i]@ == m2
                    &&& new.v@[i]@ == v2
                },
                None => new.params@[i] == self.params@[i] && new.m@[i] == self.m@[i] && new.v@[i]
                    == self.v@[i],
            }
        &&& forall|i: int|
            #![trigger new.params@[i]]
            #![trigger new.m@[i]]
            #![trigger new.v@[i]]
            upto <= i < self.params@.len() ==> new.params@[i] == self.params@[i] && new.m@[i]
                == self.m@[i] && new.v@[i] == self.v@[i]
    }

    /// Only parameters, moments and the step count may differ.
    pub open spec fn same_rule(self, new: Self) -> bool {
        &&& new.lr == self.lr
        &&& new.beta1 == self.beta1
        &&& new.beta2 == self.beta2
        &&& new.eps == self.eps
    }
}

impl<S: Real> Optimizer for Adam<S> {
    open spec fn wf(&self) -> bool {
        &&& params_wf(self.params@)
        &&& moments_fit(self.params@, self.m@)
        &&& moments_fit(self.params@, self.v@)
    }

    open spec fn ready(&self) -> bool {
        self.wf() && self.t < u32::MAX
    }

    fn step(&mut self)
        ensures
            final(self).t == old(self).t + 1,
            old(self).same_rule(*final(self)),
            old(self).stepped(*final(self), old(self).params@.len() as int),
    {
        self.t += 1;
        let k = rates_at(self.lr, self.beta1, self.beta2, self.eps, self.t);
        let n: usize = self.params.len();
        for i in 0..n
            invariant
                n == self.params@.len(),
                self.wf(),
                old(self).t < u32::MAX,
                self.t == old(self).t + 1,
                k == adam_rates(self.lr, self.beta1, self.beta2, self.eps, self.t),
                old(self).same_rule(*self),
                old(self).stepped(*self, i as int),
        {
            assert(self.params@[i as int] == old(self).params@[i as int]);
            assert(self.m@[i as int] == old(self).m@[i as int]);
            if let Some(g) = self.params[i].grad.take() {
                let m = &mut self.m[i];
                let v = &mut self.v[i];
                adam_update_scalar(&g, m, v, &mut self.params[i].data, &k);
            }
        }
    }

    fn zero_grad(&mut self)
        ensures
            cleared(old(self).params@, final(self).params@),
            old(self).same_rule(*final(self)),
            final(self).m == old(self).m,
            final(self).v == old(self).v,
            final(self).t == old(self).t,
    {
        clear_grads(&mut self.params);
    }
}

/// RMSprop: descent along the gradient over the root of the running mean of its square.
pub struct RMSprop<S> {
    pub params: Vec<Tensor<S>>,
    pub lr: S,
    pub alpha: S,
    pub eps: S,
    pub v: Vec<Vec<S>>,
}

/// The running mean of the square after a step.
pub open spec fn rms_v<S: Real>(v: S, g: S, alpha: S) -> S {
    v.spec_times(alpha).spec_plus(g.spec_times(g).spec_times(S::spec_one().spec_minus(alpha)))
}

/// The parameter after a step that has led to the mean `v`.
pub open spec fn rms_d<S: Real>(d: S, g: S, v: S, eps: S, lr: S) -> S {
    d.spec_minus(g.spec_over(v.spec_sqrt().spec_plus(eps)).spec_times(lr))
}

fn rms_update<S: Real>(g: &Vec<S>, v: &mut Vec<S>, d: &mut Vec<S>, alpha: S, eps: S, lr: S)
    requires
        g@.len() == old(v)@.len(),
        g@.len() == old(d)@.len(),
    ensures
        final(v)@ == Seq::new(g@.len(), |i: int| rms_v(old(v)@[i], g@[i], alpha)),
        final(d)@ == Seq::new(
            g@.len(),
            |i: int| rms_d(old(d)@[i], g@[i], final(v)@[i], eps, lr),
        ),
{
    for i in 0..g.len()
        invariant
            g@.len() == v@.len(),
            g@.len() == d@.len(),
            g@.len() == old(v)@.len(),
            g@.len() == old(d)@.len(),
            forall|j: int|
                #![trigger v@[j]]
                #![trigger d@[j]]
                0 <= j < g@.len() ==> if j < i {
                    v@[j] == rms_v(old(v)@[j], g@[j], alpha) && d@[j] == rms_d(
                        old(d)@[j],
                        g@[j],
                        v@[j],
                        eps,
                        lr,
                    )
                } else {
                    v@[j] == old(v)@[j] && d@[j] == old(d)@[j]
                },
    {
        let vk = v[i].times(alpha).plus(g[i].times(g[i]).times(S::one().minus(alpha)));
        v[i] = vk;
        let dk = d[i].minus(g[i].over(vk.sqrt().plus(eps)).times(lr));
        d[i] = dk;
    }
    assert(v@ =~= Seq::new(g@.len(), |i: int| rms_v(old(v)@[i], g@[i], alpha)));
    assert(d@ =~= Seq::new(g@.len(), |i: int| rms_d(old(d)@[i], g@[i], v@[i], eps, lr)));
}

impl<S: Real> RMSprop<S> {
    /// A decay of 0.99 and an `eps` of a hundred-millionth.
    pub fn new(params: Vec<Tensor<S>>, lr: S) -> (r: Self)
        requires
            params_wf(params@),
        ensures
            r.params == params,
            r.lr == lr,
            r.alpha == ratio::<S>(99, 100),
            r.eps == ratio::<S>(1, 100_000_000),
            forall|i: int, j: int|
                0 <= i < params@.len() && 0 <= j < params@[i].data@.len()
                    ==> #[trigger] r.v@[i]@[j] == S::spec_zero(),
            r.wf(),
    {
        let v = zero_moments(&params);
        RMSprop { params, lr, alpha: fraction(99, 100), eps: fraction(1, 100_000_000), v }
    }

    /// What a step does to the first `upto` parameters and their means.
    pub open spec fn stepped(self, new: Self, upto: int) -> bool {
        &&& new.params@.len() == self.params@.len()
        &&& new.v@.len() == self.v@.len()
        &&& forall|i: int|
            #![trigger new.params@[i]]
            #![trigger new.v@[i]]
            0 <= i < upto ==> match tensor::grad_of(self.params@[i].grad) {
                Some(g) => {
                    &&& new.v@[i]@ == Seq::new(
                        g.len(),
                        |j: int| rms_v(self.v@[i]@[j], g[j], self.alpha),
                    )
                    &&& updated(
                        self.params@[i],
                        new.params@[i],
                        Seq::new(
                            g.len(),
                            |j: int|
                                rms_d(
                                    self.params@[i].data@[j],
                                    g[j],
                                    new.v@[i]@[j],
                                    self.eps,
                                    self.lr,
                                ),
                        ),
                    )
                },
                None => new.params@[i] == self.params@[i] && new.v@[i] == self.v@[i],
            }
        &&& forall|i: int|
            #![trigger new.params@[i]]
            #![trigger new.v@[i]]
            upto <= i < self.params@.len() ==> new.params@[i] == self.params@[i] && new.v@[i]
                == self.v@[i]
    }

    /// Only parameters and means may differ.
    pub open spec fn same_rule(self, new: Self) -> bool {
        new.lr == self.lr && new.alpha == self.alpha && new.eps == self.eps
    }
}

impl<S: Real> Optimizer for RMSprop<S> {
    open spec fn wf(&self) -> bool {
        params_wf(self.params@) && moments_fit(self.params@, self.v@)
    }

    open spec fn ready(&self) -> bool {
        self.wf()
    }

    fn step(&mut self)
        ensures
            old(self).same_rule(*final(self)),
            old(self).stepped(*final(self), old(self).params@.len() as int),
    {
        let n: usize = self.params.len();
        for i in 0..n
            invariant
                n == self.params@.len(),
                self.wf(),
                old(self).same_rule(*self),
                old(self).stepped(*self, i as int),
        {
            let (alpha, eps, lr) = (self.alpha, self.eps, self.lr);
            assert(self.params@[i as int] == old(self).params@[i as int]);
            assert(self.v@[i as int] == old(self).v@[i as int]);
            if let Some(g) = self.params[i].grad.take() {
                let v = &mut self.v[i];
                rms_update(&g, v, &mut self.params[i].data, alpha, eps, lr);
            }
        }
    }

    fn zero_grad(&mut self)
        ensures
            cleared(old(self).params@, final(self).params@),
            old(self).same_rule(*final(self)),
            final(self).v == old(self).v,
    {
        clear_grads(&mut self.params);
    }
}

/// The root mean square of a gradient, at least a hundred-millionth.
pub open spec fn rms_of<S: Real>(g: Seq<S>) -> S {
    number::sum_n(squares(g), g.len() as int).spec_over(
        S::spec_count(g.len() as usize),
    ).spec_sqrt().spec_larger(ratio::<S>(1, 100_000_000))
}

pub open spec fn squares<S: Real>(g: Seq<S>) -> spec_fn(int) -> S {
    |i: int| g[i].spec_times(g[i])
}

/// The gradient over its root mean square.
pub open spec fn normalized<S: Real>(g: Seq<S>) -> Seq<S> {
    Seq::new(g.len(), |i: int| g[i].spec_over(rms_of(g)))
}

fn normalize<S: Real>(g: &Vec<S>) -> (r: Vec<S>)
    ensures
        r@ == normalized(g@),
{
    let mut sum = S::zero();
    for i in 0..g.len()
        invariant
            sum == number::sum_n(squares(g@), i as int),
    {
        sum = sum.plus(g[i].times(g[i]));
    }
    let rms = sum.over(S::count(g.len())).sqrt().larger(fraction(1, 100_000_000));
    let mut r: Vec<S> = Vec::new();
    for i in 0..g.len()
        invariant
            r@ =~= Seq::new(i as nat, |i: int| g@[i].spec_over(rms)),
    {
        r.push(g[i].over(rms));
    }
    r
}

/// Muon: momentum on gradients that are normalized tensor by tensor.
pub struct Muon<S> {
    pub params: Vec<Tensor<S>>,
    pub lr: S,
    pub momentum: S,
    pub momentum_buffers: Vec<Option<Vec<S>>>,
}

impl<S: Real> Muon<S> {
    pub fn new(params: Vec<Tensor<S>>, lr: S, momentum: S) -> (r: Self)
        requires
            params_wf(params@),
        ensures
            r.params == params,
            r.lr == lr,
            r.momentum == momentum,
            r.momentum_buffers@ == Seq::new(params@.len(), |i: int| None::<Vec<S>>),
            r.wf(),
    {
        let s = SGD::new(params, lr, momentum);
        Muon {
            params: s.params,
            lr: s.lr,
            momentum: s.momentum,
            momentum_buffers: s.momentum_buffers,
        }
    }
}

impl<S: Real> Optimizer for Muon<S> {
    open spec fn wf(&self) -> bool {
        params_wf(self.params@) && buffers_fit(self.params@, self.momentum_buffers@)
    }

    open spec fn ready(&self) -> bool {
        self.wf()
    }

    fn step(&mut self)
        ensures
            final(self).lr == old(self).lr,
            final(self).momentum == old(self).momentum,
            momentum_stepped(
                old(self).params@,
                old(self).momentum_buffers@,
                final(self).params@,
                final(self).momentum_buffers@,
                old(self).lr,
                old(self).momentum,
                |g: Seq<S>| normalized(g),
                old(self).params@.len() as int,
            ),
    {
        let n: usize = self.params.len();
        for i in 0..n
            invariant
                n == self.params@.len(),
                self.wf(),
                self.lr == old(self).lr,
                self.momentum == old(self).momentum,
                momentum_stepped(
                    old(self).params@,
                    old(self).momentum_buffers@,
                    self.params@,
                    self.momentum_buffers@,
                    self.lr,
                    self.momentum,
                    |g: Seq<S>| normalized(g),
                    i as int,
                ),
        {
            let lr = self.lr;
            let momentum = self.momentum;
            assert(self.params@[i as int] == old(self).params@[i as int]);
            assert(self.momentum_buffers@[i as int] == old(self).momentum_buffers@[i as int]);
            if let Some(g) = self.params[i].grad.take() {
                let o = normalize(&g);
                let buffer = &mut self.momentum_buffers[i];
                apply_momentum(&mut self.params[i].data, o, buffer, lr, momentum);
            }
        }
    }

    fn zero_grad(&mut self)
        ensures
            cleared(old(self).params@, final(self).params@),
            final(self).momentum_buffers == old(self).momentum_buffers,
            final(self).lr == old(self).lr,
            final(self).momentum == old(self).momentum,
    {
        clear_grads(&mut self.params);
    }
}

} // verus!
