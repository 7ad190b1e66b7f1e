//! What the optimizers come to over a run, for numbers without rounding.
use vstd::prelude::*;
use crate::ideal;
use crate::ideal::{exact, fading, is_root, rpow, rsum, Reading};
use crate::number::{Number, Real};
use crate::optim;
use crate::optim::{Adam, RMSprop};
use crate::tensor;
use crate::tensor::Tensor;

verus! {

// ---- Momentum

/// What an optimizer with momentum holds: parameters, and a buffer beside each.
pub struct Held<S> {
    pub params: Seq<Tensor<S>>,
    pub buffers: Seq<Option<Vec<S>>>,
}

/// A run of descent with momentum, as far as one parameter goes: each step starts where the one
/// before it ended, with a new gradient.
pub open spec fn sgd_run<S: Real>(
    before: Seq<Held<S>>,
    after: Seq<Held<S>>,
    g: Seq<Seq<S>>,
    p: int,
    lr: S,
    momentum: S,
    direction: spec_fn(Seq<S>) -> Seq<S>,
) -> bool {
    &&& before.len() == g.len() && after.len() == g.len()
    &&& forall|k: int|
        0 <= k < g.len() ==> {
            let (a, b) = (#[trigger] before[k], after[k]);
            &&& 0 <= p < a.params.len()
            &&& a.params[p].data@.len() == g[k].len()
            &&& tensor::grad_of(a.params[p].grad) == Some(g[k])
            &&& optim::momentum_stepped(
                a.params,
                a.buffers,
                b.params,
                b.buffers,
                lr,
                momentum,
                direction,
                a.params.len() as int,
            )
        }
    &&& g.len() > 0 ==> before[0].buffers[p] is None
    &&& forall|k: int|
        0 < k < g.len() ==> {
            let (a, b) = (after[k - 1], #[trigger] before[k]);
            &&& b.params[p].data@ == a.params[p].data@
            &&& b.buffers[p] == a.buffers[p]
        }
}

/// The true values of the gradients of one element.
pub open spec fn slopes<S: Real>(
    of: spec_fn(S) -> real,
    g: Seq<Seq<S>>,
    direction: spec_fn(Seq<S>) -> Seq<S>,
    i: int,
) -> spec_fn(int) -> real {
    |k: int| of(direction(g[k])[i])
}

/// Momentum gathers the gradients: after some steps the buffer is the sum of all gradients so far,
/// each multiplied by the momentum once for every step since, and the parameter has gone down by
/// the rate times the sum of all buffers so far. This goes for gradients as they are and for ones
/// that are made into a direction first.
pub proof fn lemma_momentum_gathers<S: Real>(
    r: Reading<S>,
    before: Seq<Held<S>>,
    after: Seq<Held<S>>,
    g: Seq<Seq<S>>,
    p: int,
    i: int,
    lr: S,
    momentum: S,
    direction: spec_fn(Seq<S>) -> Seq<S>,
    n: int,
)
    requires
        exact(r),
        (r.of)(momentum) > 0real,
        sgd_run(before, after, g, p, lr, momentum, direction),
        forall|s: Seq<S>| (#[trigger] direction(s)).len() == s.len(),
        0 < n <= g.len(),
        0 <= i < g[0].len(),
        forall|k: int| 0 <= k < g.len() ==> (#[trigger] g[k]).len() == g[0].len(),
    ensures
        tensor::grad_of(after[n - 1].buffers[p]) matches Some(b) && b.len() == g[0].len()
            && (r.of)(b[i]) == fading((r.of)(momentum), slopes(r.of, g, direction, i), n),
        (r.of)(after[n - 1].params[p].data@[i]) == (r.of)(before[0].params[p].data@[i]) - (r.of)(
            lr,
        ) * rsum(
            |j: int| fading((r.of)(momentum), slopes(r.of, g, direction, i), j + 1),
            n,
        ),
        after[n - 1].params[p].data@.len() == g[0].len(),
    decreases n,
{
    let f = slopes(r.of, g, direction, i);
    let mu = (r.of)(momentum);
    let rate = (r.of)(lr);
    let total = |j: int| fading(mu, f, j + 1);
    let (a, b) = (before[n - 1], after[n - 1]);
    assert(b.params[p].data@.len() == g[n - 1].len()) by {
        assert(a.params[p] == a.params[p]);
    }
    ideal::lemma_fading(mu, f, n - 1);
    assert(g[n - 1].len() == g[0].len());
    let d = direction(g[n - 1]);
    assert(d.len() == g[0].len());
    assert(f(n - 1) == (r.of)(d[i]));
    let x = (r.of)(a.params[p].data@[i]);
    let now = fading(mu, f, n);
    if n == 1 {
        assert(mu * 0real == 0real) by (nonlinear_arith);
        assert(rsum(total, 1) == rsum(total, 0) + total(0));
        assert(x - now * rate == x - rate * now) by (nonlinear_arith);
    } else {
        lemma_momentum_gathers(r, before, after, g, p, i, lr, momentum, direction, n - 1);
        let start = (r.of)(before[0].params[p].data@[i]);
        let sofar = rsum(total, n - 1);
        assert(total(n - 1) == now);
        let prev = fading(mu, f, n - 1);
        assert(prev * mu == mu * prev) by (nonlinear_arith);
        assert((start - rate * sofar) - now * rate == start - rate * (sofar + now))
            by (nonlinear_arith);
    }
}

/// With one gradient again and again, momentum speeds up the descent: the buffer is the gradient
/// times a geometric sum of the momentum.
pub proof fn lemma_steady_momentum<S: Real>(
    r: Reading<S>,
    before: Seq<Held<S>>,
    after: Seq<Held<S>>,
    g: Seq<Seq<S>>,
    p: int,
    i: int,
    lr: S,
    momentum: S,
    n: int,
)
    requires
        exact(r),
        (r.of)(momentum) > 0real,
        sgd_run(before, after, g, p, lr, momentum, |s: Seq<S>| s),
        0 < n <= g.len(),
        0 <= i < g[0].len(),
        forall|k: int| 0 <= k < g.len() ==> #[trigger] g[k] == g[0],
    ensures
        tensor::grad_of(after[n - 1].buffers[p]) matches Some(b) && (1real - (r.of)(
            momentum,
        )) * (r.of)(b[i]) == (1real - rpow((r.of)(momentum), n)) * (r.of)(g[0][i]),
{
    let id = |s: Seq<S>| s;
    lemma_momentum_gathers(r, before, after, g, p, i, lr, momentum, id, n);
    ideal::lemma_fading_same((r.of)(momentum), slopes(r.of, g, id, i), (r.of)(g[0][i]), n);
}

/// A gradient over its root mean square has a root mean square of one, and points the same way.
pub proof fn lemma_normalized<S: Real>(r: Reading<S>, g: Seq<S>, c: real)
    requires
        exact(r),
        0 < g.len() <= usize::MAX,
        c >= 1real / 100_000_000real,
        c * c * (g.len() as real) == rsum(|i: int| (r.of)(g[i]) * (r.of)(g[i]), g.len() as int),
    ensures
        forall|i: int|
            0 <= i < g.len() ==> (r.of)(#[trigger] optim::normalized(g)[i]) * c == (r.of)(g[i]),
        rsum(
            |i: int|
                (r.of)(optim::normalized(g)[i]) * (r.of)(optim::normalized(g)[i]),
            g.len() as int,
        ) == g.len() as real,
{
    let n = g.len() as int;
    let sq = |i: int| (r.of)(g[i]) * (r.of)(g[i]);
    ideal::lemma_sum_as(r.of, optim::squares(g), sq, n);
    let sum = number_sum(g);
    let mean = sum.spec_over(S::spec_count(g.len() as usize));
    let nr = n as real;
    assert(nr > 0real);
    let m = (r.of)(mean);
    assert(m == c * c) by (nonlinear_arith)
        requires
            m == (c * c * nr) / nr,
            nr > 0real,
    ;
    let root = (r.of)(mean.spec_sqrt());
    assert(c * c >= 0real) by (nonlinear_arith);
    assert(root == c) by (nonlinear_arith)
        requires
            root >= 0real,
            c > 0real,
            root * root == c * c,
    ;
    ideal::lemma_ratio::<S>(r.of, 1, 100_000_000);
    let size = (r.of)(optim::rms_of(g));
    assert(size == c);
    let out = optim::normalized(g);
    let osq = |i: int| (r.of)(out[i]) * (r.of)(out[i]);
    assert forall|i: int| 0 <= i < n implies (r.of)(#[trigger] out[i]) * c == (r.of)(g[i]) by {
        let (x, y) = ((r.of)(g[i]), (r.of)(out[i]));
        assert(y * c == x) by (nonlinear_arith)
            requires
                y == x / c,
                c > 0real,
        ;
    }
    assert forall|i: int| 0 <= i < n implies #[trigger] sq(i) == (c * c) * osq(i) by {
        let (x, y) = ((r.of)(g[i]), (r.of)(out[i]));
        assert(y * c == x);
        assert(x * x == (c * c) * (y * y)) by (nonlinear_arith)
            requires
                y * c == x,
        ;
    }
    ideal::lemma_rsum_times(osq, sq, c * c, n);
    let t = rsum(osq, n);
    assert(t == nr) by (nonlinear_arith)
        requires
            c * c * nr == (c * c) * t,
            c > 0real,
    ;
}

spec fn number_sum<S: Real>(g: Seq<S>) -> S {
    crate::number::sum_n(optim::squares(g), g.len() as int)
}

/// Without momentum a step goes against the gradient: each element goes down by the rate times its
/// slope.
pub proof fn lemma_plain_descent<S: Real>(
    r: Reading<S>,
    before: Held<S>,
    after: Held<S>,
    p: int,
    i: int,
    g: Seq<S>,
    lr: S,
    momentum: S,
)
    requires
        exact(r),
        (r.of)(momentum) <= 0real,
        0 <= p < before.params.len(),
        tensor::grad_of(before.params[p].grad) == Some(g),
        before.params[p].data@.len() == g.len(),
        0 <= i < g.len(),
        optim::momentum_stepped(
            before.params,
            before.buffers,
            after.params,
            after.buffers,
            lr,
            momentum,
            |s: Seq<S>| s,
            before.params.len() as int,
        ),
    ensures
        (r.of)(after.params[p].data@[i]) == (r.of)(before.params[p].data@[i]) - (r.of)(lr)
            * (r.of)(g[i]),
        after.params[p].grad is None,
{
    let (x, y) = ((r.of)(lr), (r.of)(g[i]));
    assert(y * x == x * y) by (nonlinear_arith);
    assert(after.params[p] == after.params[p]);
}

// ---- Running means

/// A run of Adam, as far as one parameter goes.
pub open spec fn adam_run<S: Real>(
    before: Seq<Adam<S>>,
    after: Seq<Adam<S>>,
    g: Seq<Seq<S>>,
    p: int,
) -> bool {
    &&& before.len() == g.len() && after.len() == g.len()
    &&& forall|k: int|
        0 <= k < g.len() ==> {
            let (a, b) = (#[trigger] before[k], after[k]);
            &&& 0 <= p < a.params@.len()
            &&& a.params@[p].data@.len() == g[k].len()
            &&& tensor::grad_of(a.params@[p].grad) == Some(g[k])
            &&& a.stepped(b, a.params@.len() as int)
            &&& a.same_rule(before[0])
            &&& a.t == k
            &&& k < 0x7fff_ffff
        }
    &&& g.len() > 0 ==> forall|i: int|
        0 <= i < g[0].len() ==> #[trigger] before[0].m@[p]@[i] == S::spec_zero()
            && before[0].v@[p]@[i] == S::spec_zero()
    &&& forall|k: int|
        0 < k < g.len() ==> {
            let (a, b) = (after[k - 1], #[trigger] before[k]);
            &&& b.params@[p].data@ == a.params@[p].data@
            &&& b.m@[p]@ == a.m@[p]@
            &&& b.v@[p]@ == a.v@[p]@
        }
}

pub open spec fn of_grads<S: Real>(of: spec_fn(S) -> real, g: Seq<Seq<S>>, i: int) -> spec_fn(
    int,
) -> real {
    |k: int| of(g[k][i])
}

pub open spec fn of_squares<S: Real>(of: spec_fn(S) -> real, g: Seq<Seq<S>>, i: int) -> spec_fn(
    int,
) -> real {
    |k: int| of(g[k][i]) * of(g[k][i])
}

/// The moments of Adam are running means of the gradients and of their squares: each gradient
/// counts for as much as its decay leaves of it.
pub proof fn lemma_adam_moments<S: Real>(
    r: Reading<S>,
    before: Seq<Adam<S>>,
    after: Seq<Adam<S>>,
    g: Seq<Seq<S>>,
    p: int,
    i: int,
    n: int,
)
    requires
        exact(r),
        adam_run(before, after, g, p),
        0 < n <= g.len(),
        0 <= i < g[0].len(),
        forall|k: int| 0 <= k < g.len() ==> (#[trigger] g[k]).len() == g[0].len(),
    ensures
        ({
            let (b1, b2) = ((r.of)(before[0].beta1), (r.of)(before[0].beta2));
            &&& (r.of)(after[n - 1].m@[p]@[i]) == (1real - b1) * fading(
                b1,
                of_grads(r.of, g, i),
                n,
            )
            &&& (r.of)(after[n - 1].v@[p]@[i]) == (1real - b2) * fading(
                b2,
                of_squares(r.of, g, i),
                n,
            )
        }),
    decreases n,
{
    let (b1, b2) = ((r.of)(before[0].beta1), (r.of)(before[0].beta2));
    let (f, q) = (of_grads(r.of, g, i), of_squares(r.of, g, i));
    let (a, b) = (before[n - 1], after[n - 1]);
    assert(g[n - 1].len() == g[0].len());
    assert(b.params@[p] == b.params@[p]);
    ideal::lemma_fading(b1, f, n - 1);
    ideal::lemma_fading(b2, q, n - 1);
    if n > 1 {
        lemma_adam_moments(r, before, after, g, p, i, n - 1);
    } else {
        assert(before[0].m@[p]@[i] == S::spec_zero());
        assert((1real - b1) * 0real == 0real && (1real - b2) * 0real == 0real) by (nonlinear_arith);
    }
    let (m, v, x) = ((r.of)(a.m@[p]@[i]), (r.of)(a.v@[p]@[i]), (r.of)(g[n - 1][i]));
    let (fm, fv) = (fading(b1, f, n - 1), fading(b2, q, n - 1));
    assert(m * b1 + x * (1real - b1) == (1real - b1) * (b1 * fm + x)) by (nonlinear_arith)
        requires
            m == (1real - b1) * fm,
    ;
    assert(v * b2 + (x * x) * (1real - b2) == (1real - b2) * (b2 * fv + x * x)) by (nonlinear_arith)
        requires
            v == (1real - b2) * fv,
    ;
}

/// With one gradient again and again, Adam's correction for the start is exact: each step goes
/// against the gradient by the rate, whatever the size of the gradient, but for the small number
/// that keeps it from dividing by zero.
pub proof fn lemma_steady_adam<S: Real>(
    r: Reading<S>,
    before: Seq<Adam<S>>,
    after: Seq<Adam<S>>,
    g: Seq<Seq<S>>,
    p: int,
    i: int,
    n: int,
    c: real,
    size: real,
)
    requires
        exact(r),
        adam_run(before, after, g, p),
        0 < n <= g.len(),
        0 <= i < g[0].len(),
        forall|k: int| 0 <= k < g.len() ==> #[trigger] g[k] == g[0],
        0real < rpow((r.of)(before[0].beta1), n) < 1real,
        (r.of)(before[0].eps) > 0real,
        c >= 0real && c * c == 1real - rpow((r.of)(before[0].beta2), n),
        size >= 0real && size * size == (r.of)(g[0][i]) * (r.of)(g[0][i]),
    ensures
        ((r.of)(before[n - 1].params@[p].data@[i]) - (r.of)(after[n - 1].params@[p].data@[i])) * (
        size * c + (r.of)(before[0].eps)) == (r.of)(before[0].lr) * (r.of)(g[0][i]) * c,
{
    let first = before[0];
    let (b1, b2, eps, lr) = (
        (r.of)(first.beta1),
        (r.of)(first.beta2),
        (r.of)(first.eps),
        (r.of)(first.lr),
    );
    let (f, q) = (of_grads(r.of, g, i), of_squares(r.of, g, i));
    let x = (r.of)(g[0][i]);
    assert forall|k: int| 0 <= k < g.len() implies (#[trigger] g[k]).len() == g[0].len() by {
        assert(g[k] == g[0]);
    }
    lemma_adam_moments(r, before, after, g, p, i, n);
    ideal::lemma_fading_same(b1, f, x, n);
    ideal::lemma_fading_same(b2, q, x * x, n);
    let (a, b) = (before[n - 1], after[n - 1]);
    assert(g[n - 1] == g[0]);
    assert(b.params@[p] == b.params@[p]);
    assert(a.t == n - 1);
    let k = optim::adam_rates(a.lr, a.beta1, a.beta2, a.eps, (a.t + 1) as u32);
    let bc2 = S::spec_one().spec_minus(a.beta2.spec_powi(n as i32));
    assert((r.of)(bc2) == c * c);
    assert(c * c >= 0real) by (nonlinear_arith);
    let rc = (r.of)(bc2.spec_sqrt());
    assert(rc == c) by (nonlinear_arith)
        requires
            rc >= 0real,
            c >= 0real,
            rc * rc == c * c,
    ;
    let t = 1real - rpow(b1, n);
    let rate = (r.of)(k.lr_t);
    assert(rate == (lr * c) / t);
    let (m, v) = ((r.of)(b.m@[p]@[i]), (r.of)(b.v@[p]@[i]));
    assert(m == t * x);
    assert(v == (c * c) * (x * x));
    assert(v >= 0real) by (nonlinear_arith)
        requires
            v == (c * c) * (x * x),
    ;
    let root = (r.of)(b.v@[p]@[i].spec_sqrt());
    assert(size * c >= 0real) by (nonlinear_arith)
        requires
            size >= 0real,
            c >= 0real,
    ;
    assert(root == size * c) by (nonlinear_arith)
        requires
            root >= 0real,
            size * c >= 0real,
            root * root == (c * c) * (x * x),
            size * size == x * x,
    ;
    let move_ = (rate * m) / (root + eps);
    assert((r.of)(b.params@[p].data@[i]) == (r.of)(a.params@[p].data@[i]) - move_);
    assert(rate * m == lr * x * c) by (nonlinear_arith)
        requires
            rate == (lr * c) / t,
            m == t * x,
            t > 0real,
    ;
    let (w, d) = (rate * m, root + eps);
    assert((w / d) * d == w) by (nonlinear_arith)
        requires
            d > 0real,
    ;
}

/// A run of RMSprop, as far as one parameter goes.
pub open spec fn rms_run<S: Real>(
    before: Seq<RMSprop<S>>,
    after: Seq<RMSprop<S>>,
    g: Seq<Seq<S>>,
    p: int,
) -> bool {
    &&& before.len() == g.len() && after.len() == g.len()
    &&& forall|k: int|
        0 <= k < g.len() ==> {
            let (a, b) = (#[trigger] before[k], after[k]);
            &&& 0 <= p < a.params@.len()
            &&& a.params@[p].data@.len() == g[k].len()
            &&& tensor::grad_of(a.params@[p].grad) == Some(g[k])
            &&& a.stepped(b, a.params@.len() as int)
            &&& a.same_rule(before[0])
        }
    &&& g.len() > 0 ==> forall|i: int|
        0 <= i < g[0].len() ==> #[trigger] before[0].v@[p]@[i] == S::spec_zero()
    &&& forall|k: int|
        0 < k < g.len() ==> {
            let (a, b) = (after[k - 1], #[trigger] before[k]);
            &&& b.params@[p].data@ == a.params@[p].data@
            &&& b.v@[p]@ == a.v@[p]@
        }
}

/// RMSprop goes against the gradient by the rate, over the root of the running mean of the squares.
pub proof fn lemma_rmsprop<S: Real>(
    r: Reading<S>,
    before: Seq<RMSprop<S>>,
    after: Seq<RMSprop<S>>,
    g: Seq<Seq<S>>,
    p: int,
    i: int,
    n: int,
)
    requires
        exact(r),
        rms_run(before, after, g, p),
        0 < n <= g.len(),
        0 <= i < g[0].len(),
        forall|k: int| 0 <= k < g.len() ==> (#[trigger] g[k]).len() == g[0].len(),
    ensures
        (r.of)(after[n - 1].v@[p]@[i]) == (1real - (r.of)(before[0].alpha)) * fading(
            (r.of)(before[0].alpha),
            of_squares(r.of, g, i),
            n,
        ),
        forall|root: real|
            (r.of)(before[0].eps) > 0real && #[trigger] is_root(
                root,
                (r.of)(after[n - 1].v@[p]@[i]),
            ) ==> ((r.of)(before[n - 1].params@[p].data@[i]) - (r.of)(
                after[n - 1].params@[p].data@[i],
            )) * (root + (r.of)(before[0].eps)) == (r.of)(before[0].lr) * (r.of)(g[n - 1][i]),
    decreases n,
{
    let b2 = (r.of)(before[0].alpha);
    let q = of_squares(r.of, g, i);
    let (a, b) = (before[n - 1], after[n - 1]);
    assert(g[n - 1].len() == g[0].len());
    assert(b.params@[p] == b.params@[p]);
    ideal::lemma_fading(b2, q, n - 1);
    if n > 1 {
        lemma_rmsprop(r, before, after, g, p, i, n - 1);
    } else {
        assert(before[0].v@[p]@[i] == S::spec_zero());
        assert((1real - b2) * 0real == 0real) by (nonlinear_arith);
    }
    let (v, x) = ((r.of)(a.v@[p]@[i]), (r.of)(g[n - 1][i]));
    let fv = fading(b2, q, n - 1);
    assert(v * b2 + (x * x) * (1real - b2) == (1real - b2) * (b2 * fv + x * x)) by (nonlinear_arith)
        requires
            v == (1real - b2) * fv,
    ;
    let (eps, lr) = ((r.of)(before[0].eps), (r.of)(before[0].lr));
    let now = b.v@[p]@[i];
    let (d0, d1) = ((r.of)(a.params@[p].data@[i]), (r.of)(b.params@[p].data@[i]));
    assert forall|root: real| eps > 0real && #[trigger] is_root(root, (r.of)(now)) implies (d0
        - d1) * (root + eps) == lr * x by {
        reveal(is_root);
        ideal::lemma_root(r.of, now, root);
        let w = root + eps;
        assert(d1 == d0 - (x / w) * lr);
        assert((d0 - d1) * w == lr * x) by (nonlinear_arith)
            requires
                d1 == d0 - (x / w) * lr,
                w > 0real,
        ;
    }
}

} // verus!
