//! What diffusion adds and what it takes away again, for numbers without rounding.
use vstd::prelude::*;
use crate::diffusion;
use crate::diffusion::{NoiseSchedule, ScheduleType, DDPM};
use crate::ideal;
use crate::ideal::{circles, exact, faithful, is_root, product, rsum, Reading};
use crate::multiplying;
use crate::number::{Number, Real};
use crate::optim;
use crate::random;
use crate::tensor;
use crate::tensor::{Op, Value};

verus! {

/// What is left of one whole after some parts of it were taken, one after the other.
pub open spec fn left<S: Real>(of: spec_fn(S) -> real, betas: Seq<S>, n: int) -> real
    decreases n,
{
    if n <= 0 {
        1real
    } else {
        left(of, betas, n - 1) * (1real - of(betas[n - 1]))
    }
}

/// Each step takes a part, and not all.
pub open spec fn takes_parts<S: Real>(of: spec_fn(S) -> real, betas: Seq<S>) -> bool {
    forall|i: int| 0 <= i < betas.len() ==> 0real < #[trigger] of(betas[i]) && of(betas[i]) < 1real
}

proof fn lemma_left<S: Real>(r: Reading<S>, betas: Seq<S>, n: int)
    requires
        exact(r),
        takes_parts(r.of, betas),
        0 <= n <= betas.len(),
    ensures
        0real < left(r.of, betas, n) <= 1real,
        n > 0 ==> left(r.of, betas, n) < left(r.of, betas, n - 1),
        (r.of)(diffusion::product_n(diffusion::alphas_of(betas), n)) == left(r.of, betas, n),
    decreases n,
{
    if n > 0 {
        lemma_left(r, betas, n - 1);
        let (x, b) = (left(r.of, betas, n - 1), (r.of)(betas[n - 1]));
        ideal::lemma_positive(x, 1real - b);
        ideal::lemma_order(1real - b, 1real, x);
    }
}

/// A schedule keeps the whole: what is left of the data at a step is what the steps so far have
/// left, and with each step less; the squares of the shares of data and noise add up to one.
pub proof fn lemma_schedule<S: Real>(r: Reading<S>, s: NoiseSchedule<S>, betas: Seq<S>, t: int)
    requires
        exact(r),
        s.follows(betas),
        takes_parts(r.of, betas),
        0 <= t < betas.len(),
        left(r.of, betas, t + 1) >= 1real / 1_000_000_000_000real,
    ensures
        (r.of)(s.alpha_cumprod@[t]) == left(r.of, betas, t + 1),
        (r.of)(s.alphas@[t]) == 1real - (r.of)(betas[t]),
        0real < left(r.of, betas, t + 1) < left(r.of, betas, t) <= 1real,
        is_root((r.of)(s.sqrt_alpha_cumprod@[t]), left(r.of, betas, t + 1)),
        is_root((r.of)(s.sqrt_one_minus_alpha_cumprod@[t]), 1real - left(r.of, betas, t + 1)),
{
    lemma_left(r, betas, t);
    lemma_left(r, betas, t + 1);
    ideal::lemma_ratio::<S>(r.of, 1, 1000000);
    let least = (r.of)(diffusion::least_left::<S>());
    let x = (r.of)(optim::ratio::<S>(1, 1000000));
    assert(least == x / 1000000real);
    assert(least == 1real / 1_000_000_000_000real);
    reveal(is_root);
}

/// The roots of a step: of what it leaves, of what was left before it, and of the noise after it.
proof fn lemma_step_roots(a: real, s: real, before: real, step: real, l0: real, l1: real, beta: real)
    requires
        is_root(a, l1),
        is_root(s, 1real - l1),
        is_root(before, l0),
        is_root(step, 1real - beta),
        l1 == product(l0, 1real - beta),
        0real < beta < 1real,
        0real < l1 < l0 <= 1real,
    ensures
        s > 0real,
        0real < step < 1real,
        a == product(step, before),
        product(s, s) == 1real - l1,
        product(step, step) == 1real - beta,
        product(step, 1real - l0) < product(s, s),
        l0 == 1real ==> before == 1real,
{
    ideal::lemma_root_product(a, l1);
    ideal::lemma_root_product(s, 1real - l1);
    ideal::lemma_root_product(before, l0);
    ideal::lemma_root_product(step, 1real - beta);
    ideal::lemma_neutral(0real);
    let p = product(step, before);
    ideal::lemma_not_negative(step, before);
    // (step before) (step before) = (step step) (before before)
    ideal::lemma_regroup(step, before, p);
    ideal::lemma_regroup(before, step, before);
    ideal::lemma_swap(before, step);
    ideal::lemma_regroup(step, before, before);
    ideal::lemma_regroup(step, step, l0);
    assert(product(before, p) == product(step, l0));
    assert(product(p, p) == product(step, product(step, l0)));
    ideal::lemma_swap(1real - beta, l0);
    ideal::lemma_same_factor(a, p);
    if step >= 1real {
        ideal::lemma_not_negative(step - 1real, step);
        ideal::lemma_spread(step, step, 1real);
        ideal::lemma_neutral(step);
    }
    ideal::lemma_part(step, 1real - l0);
    if l0 == 1real {
        ideal::lemma_neutral(1real);
        ideal::lemma_same_factor(before, 1real);
    }
}

/// The mean of a step backwards.
proof fn lemma_back(
    mean: real,
    inv: real,
    w: real,
    xi: real,
    n: real,
    s: real,
    step: real,
    before: real,
    data: real,
    beta: real,
    l0: real,
    l1: real,
)
    requires
        mean == product(inv, xi - product(w, n)),
        xi == product(product(step, before), data) + product(s, n),
        product(inv, step) == 1real,
        product(w, s) == beta,
        product(s, s) == 1real - l1,
        product(step, step) == 1real - beta,
        l1 == product(l0, 1real - beta),
    ensures
        product(mean, s) == product(product(before, data), s) + product(
            product(step, 1real - l0),
            n,
        ),
{
    let x1 = product(product(before, data), s);
    let q = 1real - l0;
    let x2 = product(product(step, q), n);
    let i = xi - product(w, n);
    ideal::lemma_regroup(inv, i, s);
    ideal::lemma_spread(s, xi, product(w, n));
    // What is taken away.
    ideal::lemma_regroup(w, n, s);
    ideal::lemma_swap(n, s);
    ideal::lemma_regroup(w, s, n);
    assert(product(product(w, n), s) == product(beta, n));
    // What there is.
    ideal::lemma_spread(s, product(product(step, before), data), product(s, n));
    ideal::lemma_regroup(step, before, data);
    ideal::lemma_regroup(step, product(before, data), s);
    ideal::lemma_regroup(s, n, s);
    ideal::lemma_regroup(s, s, n);
    assert(product(xi, s) == product(step, x1) + product(1real - l1, n));
    ideal::lemma_spread(n, 1real - l1, beta);
    let rest = (1real - l1) - beta;
    assert(product(i, s) == product(step, x1) + product(rest, n));
    // What is left of the noise.
    ideal::lemma_spread(1real - beta, 1real, l0);
    ideal::lemma_neutral(1real - beta);
    assert(rest == product(q, product(step, step)));
    ideal::lemma_regroup(q, step, step);
    ideal::lemma_swap(q, step);
    ideal::lemma_swap(product(step, q), step);
    assert(rest == product(step, product(step, q)));
    ideal::lemma_regroup(step, product(step, q), n);
    assert(product(rest, n) == product(step, x2));
    ideal::lemma_spread(step, x1, x2);
    ideal::lemma_regroup(inv, step, x1 + x2);
    ideal::lemma_neutral(x1 + x2);
}

/// What a step of the schedule leaves.
proof fn lemma_level<S: Real>(r: Reading<S>, s: NoiseSchedule<S>, betas: Seq<S>, t: int)
    requires
        faithful(r),
        s.follows(betas),
        takes_parts(r.of, betas),
        0 <= t < betas.len(),
        left(r.of, betas, t + 1) >= 1real / 1_000_000_000_000real,
    ensures
        (r.of)(s.alpha_cumprod@[t]) == left(r.of, betas, t + 1),
        (r.of)(s.alphas@[t]) == 1real - (r.of)(betas[t]),
        0real < left(r.of, betas, t + 1) < left(r.of, betas, t) <= 1real,
        left(r.of, betas, t + 1) == product(left(r.of, betas, t), 1real - (r.of)(betas[t])),
{
    reveal(faithful);
    lemma_schedule(r, s, betas, t);
    reveal(product);
}

/// Noise is mixed in by the schedule: an element is its share of the data plus its share of the
/// noise, and the squares of the two shares add up to one.
pub proof fn lemma_noising<S: Real>(
    r: Reading<S>,
    m: DDPM<S>,
    betas: Seq<S>,
    x: Value<S>,
    noise: Value<S>,
    t: int,
    i: int,
    a: real,
    s: real,
)
    requires
        faithful(r),
        m.schedule.follows(betas),
        takes_parts(r.of, betas),
        0 <= t < betas.len(),
        left(r.of, betas, t + 1) >= 1real / 1_000_000_000_000real,
        0 <= i < x.data.len(),
        is_root(a, left(r.of, betas, t + 1)),
        is_root(s, 1real - left(r.of, betas, t + 1)),
    ensures
        (r.of)(m.noised_at(x, t, noise).data[i]) == product(a, (r.of)(x.data[i])) + product(
            s,
            (r.of)(noise.data[i]),
        ),
        product(a, a) + product(s, s) == 1real,
{
    lemma_level(r, m.schedule, betas, t);
    let level = m.schedule.alpha_cumprod@[t];
    let noisy = S::spec_one().spec_minus(level);
    ideal::lemma_reads(r, S::spec_one(), level);
    ideal::lemma_reads_root(r, level, a);
    ideal::lemma_reads_root(r, noisy, s);
    let (x0, n) = (x.data[i], noise.data[i]);
    let (u, v) = (level.spec_sqrt(), noisy.spec_sqrt());
    ideal::lemma_reads(r, x0, u);
    ideal::lemma_reads(r, n, v);
    ideal::lemma_reads(r, x0.spec_times(u), n.spec_times(v));
    ideal::lemma_swap((r.of)(x0), a);
    ideal::lemma_swap((r.of)(n), s);
    ideal::lemma_root_product(a, left(r.of, betas, t + 1));
    ideal::lemma_root_product(s, 1real - left(r.of, betas, t + 1));
    assert(m.noised_at(x, t, noise).data[i] == x0.spec_times(u).spec_plus(n.spec_times(v)));
}

/// The noise that is predicted at a step backwards.
pub open spec fn predicted<S: Real>(m: DDPM<S>, batch_size: usize, draws: Seq<S>, k: int) -> Seq<S> {
    m.denoise.prediction(
        m.batch(m.after(batch_size, draws, k - 1), batch_size),
        (m.schedule.timesteps - k) as usize,
    ).data
}

/// A step backwards takes noise away. An element that is its share of some data plus its share
/// `s` of the noise that is predicted becomes the share that the data had a step before, plus the
/// same noise by `step * (1 - left) / s`, which is less than `s`, plus fresh noise; the last step
/// leaves the data alone.
pub proof fn lemma_denoising<S: Real>(
    r: Reading<S>,
    m: DDPM<S>,
    betas: Seq<S>,
    batch_size: usize,
    draws: Seq<S>,
    k: int,
    i: int,
    data: real,
    a: real,
    s: real,
    before: real,
    step: real,
    fresh: real,
)
    requires
        faithful(r),
        m.schedule.follows(betas),
        m.schedule.timesteps == betas.len(),
        takes_parts(r.of, betas),
        1 <= k <= m.schedule.timesteps,
        left(r.of, betas, m.schedule.timesteps - k + 1) >= 1real / 1_000_000_000_000real,
        0 <= i < batch_size * m.data_dim,
        is_root(a, left(r.of, betas, m.schedule.timesteps - k + 1)),
        is_root(s, 1real - left(r.of, betas, m.schedule.timesteps - k + 1)),
        is_root(before, left(r.of, betas, m.schedule.timesteps - k)),
        is_root(step, 1real - (r.of)(betas[m.schedule.timesteps - k])),
        is_root(fresh, (r.of)(betas[m.schedule.timesteps - k])),
        (r.of)(m.after(batch_size, draws, k - 1)[i]) == product(a, data) + product(
            s,
            (r.of)(predicted(m, batch_size, draws, k)[i]),
        ),
    ensures
        s > 0real,
        product(step, 1real - left(r.of, betas, m.schedule.timesteps - k)) < product(s, s),
        k < m.schedule.timesteps ==> product((r.of)(m.after(batch_size, draws, k)[i]), s)
            == product(product(before, data), s) + product(
            product(step, 1real - left(r.of, betas, m.schedule.timesteps - k)),
            (r.of)(predicted(m, batch_size, draws, k)[i]),
        ) + product(
            product(
                fresh,
                (r.of)(random::gaussian_at(draws, k * (batch_size * m.data_dim) + i)),
            ),
            s,
        ),
        k == m.schedule.timesteps ==> (r.of)(m.after(batch_size, draws, k)[i]) == data,
{
    let t = m.schedule.timesteps - k;
    lemma_level(r, m.schedule, betas, t);
    let (alpha, level, b) = (m.schedule.alphas@[t], m.schedule.alpha_cumprod@[t], betas[t]);
    let (beta, l0, l1) = ((r.of)(b), left(r.of, betas, t), left(r.of, betas, t + 1));
    lemma_step_roots(a, s, before, step, l0, l1, beta);
    let noisy = S::spec_one().spec_minus(level);
    ideal::lemma_reads(r, S::spec_one(), level);
    ideal::lemma_reads_root(r, noisy, s);
    ideal::lemma_reads_root(r, alpha, step);
    ideal::lemma_reads_root(r, b, fresh);
    let inv = S::spec_one().spec_over(alpha.spec_sqrt());
    let w = b.spec_over(noisy.spec_sqrt());
    ideal::lemma_reads_over(r, S::spec_one(), alpha.spec_sqrt());
    ideal::lemma_reads_over(r, b, noisy.spec_sqrt());
    let x = m.after(batch_size, draws, k - 1)[i];
    let n = predicted(m, batch_size, draws, k)[i];
    let z = random::gaussian_at(draws, k * (batch_size * m.data_dim) + i);
    ideal::lemma_reads(r, w, n);
    ideal::lemma_reads(r, x, w.spec_times(n));
    ideal::lemma_reads(r, inv, x.spec_minus(w.spec_times(n)));
    let mean = inv.spec_times(x.spec_minus(w.spec_times(n)));
    let f = b.spec_sqrt().spec_times(z);
    ideal::lemma_reads(r, b.spec_sqrt(), z);
    ideal::lemma_reads(r, mean, f);
    lemma_back(
        (r.of)(mean),
        (r.of)(inv),
        (r.of)(w),
        (r.of)(x),
        (r.of)(n),
        s,
        step,
        before,
        data,
        beta,
        l0,
        l1,
    );
    let out = m.after(batch_size, draws, k)[i];
    assert(out == m.denoised(x, n, t, z));
    ideal::lemma_spread(s, (r.of)(mean), (r.of)(f));
    if t == 0 {
        ideal::lemma_neutral(step);
        ideal::lemma_neutral((r.of)(n));
        ideal::lemma_neutral(data);
        ideal::lemma_cancel((r.of)(mean), data, s);
    }
}

/// The linear schedule goes from a ten-thousandth at the first step to two hundredths at the last,
/// by the same amount from step to step.
pub proof fn lemma_linear_schedule<S: Real>(
    r: Reading<S>,
    timesteps: usize,
    i: int,
    low: real,
    high: real,
)
    requires
        faithful(r),
        timesteps > 1,
        0 <= i < timesteps,
        product(low, 10000real) == 1real,
        product(high, 100real) == 2real,
    ensures
        product(
            (r.of)(diffusion::betas_of::<S>(ScheduleType::Linear, timesteps)[i]) - low,
            (timesteps - 1) as real,
        ) == product(high - low, i as real),
{
    let (start, stop) = (optim::ratio::<S>(1, 10000), optim::ratio::<S>(2, 100));
    let (at, last) = (S::spec_count(i as usize), S::spec_count((timesteps - 1) as usize));
    ideal::lemma_reads_count(r, 1, 10000);
    ideal::lemma_reads_count(r, 2, 100);
    ideal::lemma_cancel((r.of)(start), low, 10000real);
    ideal::lemma_cancel((r.of)(stop), high, 100real);
    ideal::lemma_reads_count(r, i as usize, 0);
    ideal::lemma_reads_count(r, (timesteps - 1) as usize, 0);
    ideal::lemma_reads(r, stop, start);
    let gap = stop.spec_minus(start);
    ideal::lemma_reads(r, gap, at);
    ideal::lemma_reads_over(r, gap.spec_times(at), last);
    ideal::lemma_reads(r, start, gap.spec_times(at).spec_over(last));
}

/// A number whose product with itself is another is its root.
proof fn lemma_is_root(far: real, x: real)
    requires
        far >= 0real,
        product(far, far) == x,
    ensures
        is_root(far, x),
{
    reveal(is_root);
    reveal(product);
}

/// A normal number is a distance in a direction: half the square of the distance is what the
/// exponential falls to one less the first number after, and the second number says how far round
/// the direction is.
pub proof fn lemma_gaussian<S: Real>(r: Reading<S>, u: S, v: S, far: real, half: real, pi: real)
    requires
        faithful(r),
        circles(r),
        0real <= (r.of)(u) < 1real,
        far >= 0real,
        product(far, far) == half + half,
        (r.exp)(-half) == 1real - (r.of)(u),
        product(pi, 4194304real) == 13176795real,
    ensures
        (r.of)(random::gaussian(u, v)) == product(
            far,
            (r.cos)(product(product(2real, pi), (r.of)(v))),
        ),
{
    let (one, two) = (S::spec_one(), S::spec_count(2));
    let rest = one.spec_minus(u);
    ideal::lemma_reads(r, one, u);
    ideal::lemma_reads_exp(r, rest);
    let l = (r.of)(rest.spec_ln());
    ideal::lemma_powers(r, l, -half);
    assert(l == -half);
    ideal::lemma_reads_count(r, 2, 0);
    ideal::lemma_reads_signs(r, two, two);
    let square = two.spec_neg().spec_times(rest.spec_ln());
    ideal::lemma_reads(r, two.spec_neg(), rest.spec_ln());
    ideal::lemma_spread(l, 0real, 1real + 1real);
    ideal::lemma_spread(l, 1real, 1real);
    ideal::lemma_neutral(l);
    assert((r.of)(square) == half + half);
    lemma_is_root(far, (r.of)(square));
    ideal::lemma_reads_root(r, square, far);
    let p = optim::ratio::<S>(13176795, 4194304);
    ideal::lemma_reads_count(r, 13176795, 4194304);
    ideal::lemma_cancel((r.of)(p), pi, 4194304real);
    ideal::lemma_reads(r, two, p);
    let turn = two.spec_times(p).spec_times(v);
    ideal::lemma_reads(r, two.spec_times(p), v);
    ideal::lemma_reads_angle(r, turn, 0real, 0real);
    ideal::lemma_reads(r, square.spec_sqrt(), turn.spec_cos());
}

/// The loss of a step is the sum of the squared differences of the noise that is predicted from
/// the noise that was mixed in.
pub proof fn lemma_noise_loss<S: Real>(
    r: Reading<S>,
    m: DDPM<S>,
    x: Value<S>,
    t: usize,
    noise: Value<S>,
    guess: Value<S>,
)
    requires
        faithful(r),
        guess == m.denoise.prediction(m.noised_at(x, t as int, noise), t),
        guess.shape == noise.shape,
    ensures
        (r.of)(m.noise_loss(x, t, noise)) == rsum(
            |i: int|
                product(
                    (r.of)(guess.data[i]) - (r.of)(noise.data[i]),
                    (r.of)(guess.data[i]) - (r.of)(noise.data[i]),
                ),
            tensor::volume(noise.shape) as int,
        ),
{
    let n = tensor::volume(noise.shape) as int;
    tensor::lemma_volume_nonneg(noise.shape);
    tensor::lemma_same_shape(noise.shape);
    let d = m.misses(x, t, noise);
    let e = tensor::zipped(Op::Mul, d, d).data;
    assert(e.len() == n);
    ideal::lemma_reads_sum(r, tensor::elements(e), n);
    let f = ideal::read(r.of, tensor::elements(e));
    let g = |i: int|
        product(
            (r.of)(guess.data[i]) - (r.of)(noise.data[i]),
            (r.of)(guess.data[i]) - (r.of)(noise.data[i]),
        );
    assert forall|i: int| 0 <= i < n implies #[trigger] f(i) == g(i) by {
        multiplying::lemma_pointwise(Op::Sub, guess, noise, i);
        multiplying::lemma_pointwise(Op::Mul, d, d, i);
        ideal::lemma_reads(r, guess.data[i], noise.data[i]);
        ideal::lemma_reads(r, d.data[i], d.data[i]);
    }
    ideal::lemma_rsum_agree(f, g, n);
}

} // verus!
