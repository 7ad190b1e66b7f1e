//! How rates are paced and gradients gathered, for numbers without rounding.
use vstd::prelude::*;
use crate::distributed;
use crate::finetune::LrSchedule;
use crate::ideal;
use crate::ideal::{circles, faithful, product, rsum, Reading};
use crate::number;
use crate::number::{Number, Real};
use crate::optim;
use crate::tensor::Tensor;

verus! {

/// The rate grows in proportion to the step while it warms up.
pub proof fn lemma_warming<S: Real>(r: Reading<S>, s: LrSchedule<S>, warmup: usize, base: S, step: usize)
    requires
        faithful(r),
        step < warmup,
        s == (LrSchedule::Warmup { warmup_steps: warmup, base_lr: base }) || exists|total: usize, min: S|
            s == (LrSchedule::CosineWithWarmup {
                warmup_steps: warmup,
                total_steps: total,
                base_lr: base,
                min_lr: min,
            }),
    ensures
        product((r.of)(s.rate(step)), (warmup as int) as real) == product(
            (r.of)(base),
            (step as int) as real,
        ),
{
    let part = S::spec_count(step).spec_over(S::spec_count(warmup));
    ideal::lemma_reads_count(r, step, 0);
    ideal::lemma_reads_count(r, warmup, 0);
    ideal::lemma_reads_over(r, S::spec_count(step), S::spec_count(warmup));
    ideal::lemma_reads(r, base, part);
    ideal::lemma_regroup((r.of)(base), (r.of)(part), (warmup as int) as real);
    assert(s.rate(step) == base.spec_times(part));
}

/// After it has warmed up the rate falls from its base to its least value along a cosine: it starts
/// at the base and stays between the two.
pub proof fn lemma_cooling<S: Real>(
    r: Reading<S>,
    warmup: usize,
    total: usize,
    base: S,
    min: S,
    step: usize,
)
    requires
        faithful(r),
        circles(r),
        warmup <= step < total,
        (r.of)(min) <= (r.of)(base),
    ensures
        ({
            let s = LrSchedule::CosineWithWarmup {
                warmup_steps: warmup,
                total_steps: total,
                base_lr: base,
                min_lr: min,
            };
            &&& (r.of)(min) <= (r.of)(s.rate(step)) <= (r.of)(base)
            &&& step == warmup ==> (r.of)(s.rate(step)) == (r.of)(base)
        }),
{
    let (up, down) = ((step - warmup) as usize, (total - warmup) as usize);
    let part = S::spec_count(up).spec_over(S::spec_count(down));
    let pi = optim::ratio::<S>(13176795, 4194304);
    let half = optim::ratio::<S>(1, 2);
    let angle = pi.spec_times(part);
    let one = S::spec_one();
    ideal::lemma_reads_count(r, up, 0);
    ideal::lemma_reads_count(r, down, 0);
    ideal::lemma_reads_over(r, S::spec_count(up), S::spec_count(down));
    ideal::lemma_reads(r, pi, part);
    let x = (r.of)(angle);
    ideal::lemma_reads_angle(r, angle, x, x);
    let c = (r.cos)(x);
    lemma_cosine_bounds((r.sin)(x), c);
    ideal::lemma_reads(r, one, angle.spec_cos());
    ideal::lemma_reads_count(r, 1, 2);
    let h = (r.of)(half);
    assert(1real + 1real == 2real);
    ideal::lemma_spread(h, 1real, 1real);
    ideal::lemma_neutral(h);
    assert(h + h == 1real);
    let cosine = half.spec_times(one.spec_plus(angle.spec_cos()));
    ideal::lemma_reads(r, half, one.spec_plus(angle.spec_cos()));
    let k = (r.of)(cosine);
    // Between zero and one.
    ideal::lemma_not_negative(h, 1real + c);
    ideal::lemma_not_negative(h, 1real - c);
    ideal::lemma_spread(h, 1real, c);
    assert(0real <= k <= 1real);
    let gap = base.spec_minus(min);
    ideal::lemma_reads(r, base, min);
    ideal::lemma_reads(r, gap, cosine);
    ideal::lemma_reads(r, min, gap.spec_times(cosine));
    let g = (r.of)(gap);
    ideal::lemma_not_negative(g, k);
    ideal::lemma_swap(g, k);
    ideal::lemma_part(k, g);
    if step == warmup {
        let p = (r.of)(part);
        ideal::lemma_neutral(p);
        ideal::lemma_neutral((down as int) as real);
        ideal::lemma_cancel(p, 0real, (down as int) as real);
        ideal::lemma_neutral((r.of)(pi));
        assert(x == 0real);
        ideal::lemma_neutral(g);
    }
}

/// A cosine lies between minus one and one.
proof fn lemma_cosine_bounds(s: real, c: real)
    requires
        product(s, s) + product(c, c) == 1real,
    ensures
        -1real <= c <= 1real,
{
    ideal::lemma_own_product(s);
    ideal::lemma_neutral(1real);
    if c > 1real {
        ideal::lemma_strict(c - 1real, c);
        ideal::lemma_spread(c, c, 1real);
        ideal::lemma_neutral(c);
    } else if c < -1real {
        let d = -c;
        ideal::lemma_strict(d - 1real, d);
        ideal::lemma_spread(d, d, 1real);
        ideal::lemma_neutral(d);
        ideal::lemma_neutral(c);
        ideal::lemma_spread(d, 0real, c);
        ideal::lemma_spread(c, 0real, c);
        assert(0real - c == d);
    }
}

/// What each worker has after averaging, times the number of workers, is the sum over the workers.
pub proof fn lemma_average<S: Real>(r: Reading<S>, workers: Seq<Vec<S>>, n: int, i: int)
    requires
        faithful(r),
        0 < workers.len() <= usize::MAX,
        0 <= i < n,
    ensures
        product(
            (r.of)(
                distributed::averaged(
                    distributed::summed(workers, n),
                    workers.len() as usize,
                )[i],
            ),
            workers.len() as real,
        ) == rsum(|w: int| (r.of)(workers[w]@[i]), workers.len() as int),
{
    let m = workers.len() as int;
    let count = S::spec_count(m as usize);
    let total = number::sum_n(distributed::across(workers, i), m);
    let inv = S::spec_one().spec_over(count);
    ideal::lemma_reads_count(r, m as usize, 0);
    ideal::lemma_reads(r, total, inv);
    ideal::lemma_reads_over(r, S::spec_one(), count);
    ideal::lemma_regroup((r.of)(total), (r.of)(inv), m as real);
    ideal::lemma_neutral((r.of)(total));
    ideal::lemma_reads_sum(r, distributed::across(workers, i), m);
    ideal::lemma_rsum_agree(
        ideal::read(r.of, distributed::across(workers, i)),
        |w: int| (r.of)(workers[w]@[i]),
        m,
    );
    assert(distributed::averaged(distributed::summed(workers, n), m as usize)[i]
        == total.spec_times(inv));
}

/// Gradients that are scaled have a norm that is scaled.
proof fn lemma_scaled_norm<S: Real>(
    r: Reading<S>,
    old: Seq<Tensor<S>>,
    new: Seq<Tensor<S>>,
    scale: S,
)
    requires
        faithful(r),
        distributed::scaled_grads(old, new, scale, old.len() as int),
    ensures
        (r.of)(distributed::norm_squared(new)) == product(
            product((r.of)(scale), (r.of)(scale)),
            (r.of)(distributed::norm_squared(old)),
        ),
    decreases old.len(),
{
    let k = (r.of)(scale);
    let kk = product(k, k);
    ideal::lemma_reads_signs(r, scale, scale);
    ideal::lemma_neutral(kk);
    if old.len() > 0 {
        let (a, b) = (old.drop_last(), new.drop_last());
        assert forall|i: int| 0 <= i < a.len() implies (#[trigger] b[i]) == new[i] && a[i]
            == old[i] by {}
        lemma_scaled_norm(r, a, b, scale);
        let (x, y) = (distributed::norm_squared(a), distributed::norm_squared(b));
        let last = old.len() - 1;
        assert(new[last].data == old[last].data);
        match (old[last].grad, new[last].grad) {
            (Some(g), Some(h)) => {
                lemma_scaled_squares(r, g@, h@, scale);
                let p = number::sum_n(optim::squares(g@), g@.len() as int);
                let q = number::sum_n(optim::squares(h@), h@.len() as int);
                ideal::lemma_reads(r, x, p);
                ideal::lemma_reads(r, y, q);
                ideal::lemma_spread(kk, (r.of)(x), (r.of)(p));
            },
            _ => {},
        }
    }
}

proof fn lemma_scaled_squares<S: Real>(r: Reading<S>, g: Seq<S>, h: Seq<S>, scale: S)
    requires
        faithful(r),
        h == Seq::new(g.len(), |i: int| g[i].spec_times(scale)),
    ensures
        (r.of)(number::sum_n(optim::squares(h), h.len() as int)) == product(
            product((r.of)(scale), (r.of)(scale)),
            (r.of)(number::sum_n(optim::squares(g), g.len() as int)),
        ),
{
    let n = g.len() as int;
    let k = (r.of)(scale);
    ideal::lemma_reads_sum(r, optim::squares(g), n);
    ideal::lemma_reads_sum(r, optim::squares(h), n);
    let (p, q) = (ideal::read(r.of, optim::squares(g)), ideal::read(r.of, optim::squares(h)));
    assert forall|i: int| 0 <= i < n implies #[trigger] q(i) == product(product(k, k), p(i)) by {
        let x = (r.of)(g[i]);
        ideal::lemma_reads(r, g[i], g[i]);
        ideal::lemma_reads(r, h[i], h[i]);
        ideal::lemma_reads(r, g[i], scale);
        lemma_square_of_product(x, k);
    }
    ideal::lemma_common_factor(p, q, product(k, k), n);
}

proof fn lemma_square_of_product(x: real, k: real)
    ensures
        product(product(x, k), product(x, k)) == product(product(k, k), product(x, x)),
{
    ideal::lemma_swap(x, k);
    let p = product(k, x);
    ideal::lemma_regroup(k, x, p);
    ideal::lemma_regroup(x, k, x);
    ideal::lemma_regroup(k, x, x);
    ideal::lemma_regroup(k, k, product(x, x));
}

/// Clipped gradients have a norm of at most the greatest that is allowed: just that norm where
/// it was greater before.
pub proof fn lemma_clipped_norm<S: Real>(
    r: Reading<S>,
    old: Seq<Tensor<S>>,
    new: Seq<Tensor<S>>,
    max_norm: S,
)
    requires
        faithful(r),
        distributed::clipped(old, new, max_norm),
        (r.of)(max_norm) > 0real,
    ensures
        (r.of)(distributed::norm_squared(old)) > product((r.of)(max_norm), (r.of)(max_norm)) ==> (
        r.of)(distributed::norm_squared(new)) == product((r.of)(max_norm), (r.of)(max_norm)),
        (r.of)(distributed::norm_squared(old)) <= product((r.of)(max_norm), (r.of)(max_norm)) ==> new
            == old,
{
    let all = distributed::norm_squared(old);
    lemma_norm_not_negative(r, old);
    let root = all.spec_sqrt();
    let (x, m) = ((r.of)(root), (r.of)(max_norm));
    ideal::lemma_reads_own_root(r, all);
    ideal::lemma_reads_signs(r, max_norm, root);
    if m < x {
        let scale = max_norm.spec_over(root);
        ideal::lemma_reads_over(r, max_norm, root);
        lemma_scaled_norm(r, old, new, scale);
        lemma_square_of_product((r.of)(scale), x);
        let k = (r.of)(scale);
        ideal::lemma_swap(product(x, x), product(k, k));
        // m m < x x
        ideal::lemma_strict(x - m, x);
        ideal::lemma_strict(x - m, m);
        ideal::lemma_spread(x, x, m);
        ideal::lemma_spread(m, x, m);
        ideal::lemma_swap(x, m);
    } else {
        // x x <= m m
        ideal::lemma_not_negative(m - x, x);
        ideal::lemma_not_negative(m - x, m);
        ideal::lemma_spread(x, m, x);
        ideal::lemma_spread(m, m, x);
        ideal::lemma_swap(x, m);
    }
}

proof fn lemma_norm_not_negative<S: Real>(r: Reading<S>, v: Seq<Tensor<S>>)
    requires
        faithful(r),
    ensures
        (r.of)(distributed::norm_squared(v)) >= 0real,
    decreases v.len(),
{
    if v.len() == 0 {
        ideal::lemma_reads_signs(r, S::spec_zero(), S::spec_zero());
    } else {
        lemma_norm_not_negative(r, v.drop_last());
        match v.last().grad {
            Some(g) => {
                let n = g@.len() as int;
                ideal::lemma_reads_sum(r, optim::squares(g@), n);
                let p = ideal::read(r.of, optim::squares(g@));
                assert forall|i: int| 0 <= i < n implies #[trigger] p(i) >= 0real by {
                    ideal::lemma_reads(r, g@[i], g@[i]);
                    ideal::lemma_own_product((r.of)(g@[i]));
                }
                ideal::lemma_rsum_bounds(p, 0, n);
                ideal::lemma_reads(
                    r,
                    distributed::norm_squared(v.drop_last()),
                    number::sum_n(optim::squares(g@), n),
                );
            },
            None => {},
        }
    }
}

} // verus!
