//! What the losses measure, for numbers without rounding.
use vstd::prelude::*;
use crate::activations;
use crate::activations::Pointwise;
use crate::distill;
use crate::fused;
use crate::grpo;
use crate::ideal;
use crate::ideal::{faithful, product, reals, rsum, Reading};
use crate::leveling;
use crate::loss;
use crate::loss::{Loss, MSELoss};
use crate::nn;
use crate::number;
use crate::number::{Number, Real};
use crate::optim;
use crate::tensor;
use crate::tensor::{Op, Value};

verus! {

/// The mean squared distance times the count is the sum of the squared distances.
pub proof fn lemma_mean_squared<S: Real>(r: Reading<S>, p: Value<S>, t: Value<S>)
    requires
        faithful(r),
        p.wf(),
        t.wf(),
        p.shape == t.shape,
        0 < p.data.len() <= usize::MAX,
    ensures
        product((r.of)(MSELoss.value(p, t)), p.data.len() as real) == rsum(
            |i: int|
                product(
                    (r.of)(p.data[i]) - (r.of)(t.data[i]),
                    (r.of)(p.data[i]) - (r.of)(t.data[i]),
                ),
            p.data.len() as int,
        ),
{
    let d = tensor::zipped(Op::Sub, p, t);
    tensor::lemma_zip_same_shape(Op::Sub, p, t);
    assert(d.wf());
    tensor::lemma_zip_same_shape(Op::Mul, d, d);
    let e = loss::squared_errors(p, t);
    let n = p.data.len() as int;
    leveling::lemma_mean(r, e.data);
    let f = |i: int|
        product((r.of)(p.data[i]) - (r.of)(t.data[i]), (r.of)(p.data[i]) - (r.of)(t.data[i]));
    let g = reals(r.of, e.data);
    assert forall|i: int| 0 <= i < n implies #[trigger] g(i) == f(i) by {
        ideal::lemma_reads(r, p.data[i], t.data[i]);
        ideal::lemma_reads(r, d.data[i], d.data[i]);
    }
    ideal::lemma_rsum_agree(g, f, n);
}

/// The exponentials of numbers, less the greatest, and their sum.
proof fn lemma_exponentials<S: Real>(r: Reading<S>, row: Seq<S>, top: S)
    requires
        faithful(r),
        row.len() > 0,
    ensures
        forall|j: int|
            0 <= j < row.len() ==> (r.of)(#[trigger] activations::exponentials(row, top)[j]) == (
            r.exp)((r.of)(row[j]) - (r.of)(top)),
        (r.of)(tensor::sum_of(activations::exponentials(row, top))) > 0real,
{
    let e = activations::exponentials(row, top);
    let n = row.len() as int;
    let f = ideal::read(r.of, tensor::elements(e));
    assert forall|j: int| 0 <= j < n implies (r.of)(#[trigger] e[j]) == (r.exp)(
        (r.of)(row[j]) - (r.of)(top),
    ) && f(j) > 0real by {
        ideal::lemma_reads(r, row[j], top);
        ideal::lemma_reads_exp(r, row[j].spec_minus(top));
        ideal::lemma_powers(r, (r.of)(row[j]) - (r.of)(top), 0real);
        assert(f(j) == (r.of)(e[j]));
    }
    assert forall|j: int| 0 <= j < n implies #[trigger] f(j) >= 0real by {
        assert((r.of)(e[j]) == f(j));
    }
    ideal::lemma_reads_sum(r, tensor::elements(e), n);
    ideal::lemma_rsum_bounds(f, 0, n);
    assert((r.of)(e[0]) == f(0));
}

/// The logarithm of a softmax is that: its exponential is the softmax.
pub proof fn lemma_log_softmax<S: Real>(r: Reading<S>, row: Seq<S>, j: int)
    requires
        faithful(r),
        0 <= j < row.len(),
    ensures
        (r.exp)((r.of)(loss::log_softmax(row)[j])) == (r.of)(activations::softmax_row(row)[j]),
{
    let top = grpo::greatest(row, row.len() as int);
    let e = activations::exponentials(row, top);
    let total = tensor::sum_of(e);
    lemma_exponentials(r, row, top);
    let t = (r.of)(total);
    let x = (r.of)(e[j]);
    // The softmax.
    ideal::lemma_reads_signs(r, S::spec_zero(), total);
    let inv = activations::reciprocal(total);
    ideal::lemma_reads(r, e[j], inv);
    ideal::lemma_reads_over(r, S::spec_one(), total);
    let k = (r.of)(inv);
    ideal::lemma_regroup(x, k, t);
    ideal::lemma_neutral(x);
    assert(product(product(x, k), t) == x);
    // The logarithm.
    let log = total.spec_ln();
    ideal::lemma_reads_exp(r, total);
    ideal::lemma_reads(r, row[j], top);
    ideal::lemma_reads(r, row[j].spec_minus(top), log);
    let l = (r.of)(loss::log_softmax(row)[j]);
    ideal::lemma_powers(r, l, (r.of)(log));
    assert(l + (r.of)(log) == (r.of)(row[j]) - (r.of)(top));
    ideal::lemma_cancel((r.exp)(l), product(x, k), t);
}

/// The cross entropy of a row is the sum of the logarithms of its softmax, each as often as the
/// target says, negated.
pub proof fn lemma_cross_entropy<S: Real>(r: Reading<S>, row: Seq<S>, target: Seq<S>)
    requires
        faithful(r),
        target.len() == row.len(),
    ensures
        (r.of)(loss::row_entropy(row, target)) == -rsum(
            |j: int| product((r.of)(target[j]), (r.of)(loss::log_softmax(row)[j])),
            row.len() as int,
        ),
{
    let l = loss::log_softmax(row);
    let n = row.len() as int;
    let f = |j: int| target[j].spec_times(l[j]);
    let g = |j: int| product((r.of)(target[j]), (r.of)(loss::log_softmax(row)[j]));
    ideal::lemma_reads_sum(r, f, n);
    let h = ideal::read(r.of, f);
    assert forall|j: int| 0 <= j < n implies #[trigger] h(j) == g(j) by {
        ideal::lemma_reads(r, target[j], l[j]);
    }
    ideal::lemma_rsum_agree(h, g, n);
    ideal::lemma_reads_signs(r, number::sum_n(f, n), S::spec_zero());
}

/// What a probability adds to a divergence has the sign by which it is more or less than the
/// other, and its exponent leads from the other to it.
pub proof fn lemma_divergence_term<S: Real>(r: Reading<S>, p: S, q: S, l: real)
    requires
        faithful(r),
        (r.of)(p) > 0real,
        product(100_000_000real, (r.of)(q)) >= 1real,
        product((r.exp)(l), (r.of)(q)) == (r.of)(p),
    ensures
        (r.of)(distill::divergence_term(p, q)) == product((r.of)(p), l),
        (r.of)(p) == (r.of)(q) ==> (r.of)(distill::divergence_term(p, q)) == 0real,
        (r.of)(p) > (r.of)(q) ==> (r.of)(distill::divergence_term(p, q)) > 0real,
        (r.of)(p) < (r.of)(q) ==> (r.of)(distill::divergence_term(p, q)) < 0real,
{
    let least = optim::ratio::<S>(1, 100_000_000);
    let (x, y, m) = ((r.of)(p), (r.of)(q), (r.of)(least));
    ideal::lemma_reads_count(r, 1, 100_000_000);
    ideal::lemma_swap(100_000_000real, y);
    // The other counts as it is.
    if m > y {
        ideal::lemma_strict(m - y, 100_000_000real);
        ideal::lemma_spread(100_000_000real, m, y);
    }
    assert(y > 0real) by {
        if y <= 0real {
            ideal::lemma_not_negative(0real - y, 100_000_000real);
            ideal::lemma_spread(100_000_000real, 0real, y);
            ideal::lemma_neutral(100_000_000real);
        }
    }
    ideal::lemma_reads_signs(r, q, least);
    ideal::lemma_reads_signs(r, p, S::spec_zero());
    let other = q.spec_larger(least);
    assert((r.of)(other) == y);
    let ratio = p.spec_over(other);
    ideal::lemma_reads_over(r, p, other);
    let k = (r.of)(ratio);
    ideal::lemma_powers(r, l, 0real);
    ideal::lemma_powers(r, 0real, l);
    ideal::lemma_cancel(k, (r.exp)(l), y);
    ideal::lemma_reads_exp(r, ratio);
    let g = (r.of)(ratio.spec_ln());
    ideal::lemma_powers(r, g, l);
    assert(g == l);
    ideal::lemma_reads(r, p, ratio.spec_ln());
    // The sign.
    ideal::lemma_neutral(x);
    ideal::lemma_neutral(y);
    if x > y {
        if (r.exp)(l) <= 1real {
            ideal::lemma_not_negative(1real - (r.exp)(l), y);
            ideal::lemma_spread(y, 1real, (r.exp)(l));
        }
        ideal::lemma_strict(x, l);
    } else if x < y {
        if (r.exp)(l) >= 1real {
            ideal::lemma_not_negative((r.exp)(l) - 1real, y);
            ideal::lemma_spread(y, (r.exp)(l), 1real);
        }
        ideal::lemma_strict(x, 0real - l);
        ideal::lemma_spread(x, 0real, l);
    } else {
        ideal::lemma_cancel((r.exp)(l), 1real, y);
    }
}

/// An element that is not dropped, times the share that is kept, is what it was; one that is
/// dropped is zero.
pub proof fn lemma_dropped<S: Real>(r: Reading<S>, x: Value<S>, p: S, draws: Seq<S>, i: int)
    requires
        faithful(r),
        0 <= i < x.data.len(),
        (r.of)(p) < 1real,
    ensures
        (r.of)(draws[i]) < 1real - (r.of)(p) ==> product(
            (r.of)(nn::dropped(x, p, draws).data[i]),
            1real - (r.of)(p),
        ) == (r.of)(x.data[i]),
        (r.of)(draws[i]) >= 1real - (r.of)(p) ==> (r.of)(nn::dropped(x, p, draws).data[i])
            == 0real,
{
    let one = S::spec_one();
    let keep = one.spec_minus(p);
    let scale = one.spec_over(keep);
    ideal::lemma_reads(r, one, p);
    ideal::lemma_reads_over(r, one, keep);
    ideal::lemma_reads(r, x.data[i], scale);
    ideal::lemma_reads(r, x.data[i], S::spec_zero());
    ideal::lemma_reads_signs(r, draws[i], keep);
    ideal::lemma_regroup((r.of)(x.data[i]), (r.of)(scale), (r.of)(keep));
    ideal::lemma_neutral((r.of)(x.data[i]));
}

/// Opposite numbers have opposite hyperbolic tangents, and a positive number a positive one.
proof fn lemma_tanh<S: Real>(r: Reading<S>, a: S, b: S)
    requires
        faithful(r),
        (r.of)(b) == -(r.of)(a),
    ensures
        (r.of)(b.spec_tanh()) == -(r.of)(a.spec_tanh()),
        (r.of)(a) > 0real ==> 0real < (r.of)(a.spec_tanh()) < 1real,
{
    let (s, t) = ((r.of)(a.spec_tanh()), (r.of)(b.spec_tanh()));
    let v = (r.of)(a) + (r.of)(a);
    let (e, f) = ((r.exp)(v), (r.exp)(-v));
    lemma_tanh_of(r, a);
    lemma_tanh_of(r, b);
    assert((r.of)(b) + (r.of)(b) == -v);
    ideal::lemma_powers(r, v, -v);
    ideal::lemma_powers(r, 0real, v);
    // t (1 + e) == 1 - e
    ideal::lemma_regroup(t, f + 1real, e);
    ideal::lemma_spread(e, f, 1real);
    ideal::lemma_neutral(e);
    ideal::lemma_swap(e, f);
    assert(product(t, 1real + e) == 1real - e);
    ideal::lemma_spread(e + 1real, s, t);
    assert(1real + e == e + 1real);
    ideal::lemma_neutral(e + 1real);
    ideal::lemma_cancel(s + t, 0real, e + 1real);
    if (r.of)(a) > 0real {
        if s <= 0real {
            ideal::lemma_not_negative(0real - s, e + 1real);
            ideal::lemma_spread(e + 1real, 0real, s);
        } else if s >= 1real {
            ideal::lemma_not_negative(s - 1real, e + 1real);
            ideal::lemma_spread(e + 1real, s, 1real);
        }
    }
}

proof fn lemma_tanh_of<S: Real>(r: Reading<S>, a: S)
    requires
        faithful(r),
    ensures
        product((r.of)(a.spec_tanh()), (r.exp)((r.of)(a) + (r.of)(a)) + 1real) == (r.exp)(
            (r.of)(a) + (r.of)(a),
        ) - 1real,
{
    reveal(faithful);
    reveal(product);
}

/// The number inside a smooth rectifier.
spec fn inside<S: Real>(x: S) -> S {
    let cube = optim::ratio::<S>(44715, 1000000).spec_times(x).spec_times(x).spec_times(x);
    activations::gelu_scale::<S>().spec_times(x.spec_plus(cube))
}

proof fn lemma_inside<S: Real>(r: Reading<S>, x: S, y: S)
    requires
        faithful(r),
        (r.of)(y) == -(r.of)(x),
    ensures
        (r.of)(inside(y)) == -(r.of)(inside(x)),
        (r.of)(x) > 0real ==> (r.of)(inside(x)) > 0real,
{
    let part = optim::ratio::<S>(44715, 1000000);
    let c = (r.of)(activations::gelu_scale::<S>());
    lemma_cubic(r, x);
    lemma_cubic(r, y);
    let (v, k) = ((r.of)(x), (r.of)(part));
    let one = product(k, v);
    let two = product(one, v);
    lemma_opposite(k, v);
    lemma_opposite(v, one);
    lemma_opposite(one, v);
    lemma_opposite(v, two);
    lemma_opposite(two, v);
    assert(product(k, -v) == -one);
    assert(product(-one, -v) == two);
    assert(product(two, -v) == -product(two, v));
    lemma_opposite(c, v + product(two, v));
    assert(-(v + product(two, v)) == (-v) + (-product(two, v)));
    if v > 0real {
        ideal::lemma_reads_count(r, 44715, 1000000);
        if k <= 0real {
            ideal::lemma_not_negative(0real - k, 1000000real);
            ideal::lemma_spread(1000000real, 0real, k);
            ideal::lemma_neutral(1000000real);
        }
        ideal::lemma_strict(k, v);
        ideal::lemma_strict(one, v);
        ideal::lemma_strict(two, v);
        lemma_scale(r);
        ideal::lemma_strict(c, v + product(two, v));
    }
}

proof fn lemma_opposite(x: real, y: real)
    ensures
        product(x, -y) == -product(x, y),
        product(-x, y) == -product(x, y),
        product(-x, -y) == product(x, y),
{
    ideal::lemma_spread(x, 0real, y);
    ideal::lemma_spread(y, 0real, x);
    ideal::lemma_spread(-x, 0real, y);
    ideal::lemma_neutral(x);
    ideal::lemma_neutral(y);
    ideal::lemma_neutral(-x);
    assert(0real - y == -y && 0real - x == -x);
}

proof fn lemma_cubic<S: Real>(r: Reading<S>, x: S)
    requires
        faithful(r),
    ensures
        ({
            let v = (r.of)(x);
            let k = (r.of)(optim::ratio::<S>(44715, 1000000));
            (r.of)(inside(x)) == product(
                (r.of)(activations::gelu_scale::<S>()),
                v + product(product(product(k, v), v), v),
            )
        }),
{
    let part = optim::ratio::<S>(44715, 1000000);
    let one = part.spec_times(x);
    let two = one.spec_times(x);
    let cube = two.spec_times(x);
    ideal::lemma_reads(r, part, x);
    ideal::lemma_reads(r, one, x);
    ideal::lemma_reads(r, two, x);
    ideal::lemma_reads(r, x, cube);
    ideal::lemma_reads(r, activations::gelu_scale::<S>(), x.spec_plus(cube));
}

proof fn lemma_scale<S: Real>(r: Reading<S>)
    requires
        faithful(r),
    ensures
        (r.of)(activations::gelu_scale::<S>()) > 0real,
{
    let pi = optim::ratio::<S>(13176795, 4194304);
    ideal::lemma_reads_count(r, 13176795, 4194304);
    ideal::lemma_reads_count(r, 2, 0);
    let k = (r.of)(pi);
    ideal::lemma_neutral(4194304real);
    if k <= 0real {
        ideal::lemma_not_negative(0real - k, 4194304real);
        ideal::lemma_spread(4194304real, 0real, k);
    }
    let q = S::spec_count(2).spec_over(pi);
    ideal::lemma_reads_over(r, S::spec_count(2), pi);
    let x = (r.of)(q);
    ideal::lemma_neutral(k);
    if x <= 0real {
        ideal::lemma_not_negative(0real - x, k);
        ideal::lemma_spread(k, 0real, x);
    }
    ideal::lemma_reads_own_root(r, q);
    ideal::lemma_neutral((r.of)(q.spec_sqrt()));
}

/// A smooth rectifier: less the same of the opposite number it is the number, of a positive number
/// it is more than half and less than all, and of a negative one negative.
pub proof fn lemma_gelu<S: Real>(r: Reading<S>, x: S, y: S)
    requires
        faithful(r),
        (r.of)(y) == -(r.of)(x),
    ensures
        (r.of)(activations::point_of(Pointwise::Gelu, x)) - (r.of)(
            activations::point_of(Pointwise::Gelu, y),
        ) == (r.of)(x),
        (r.of)(x) > 0real ==> (r.of)(x) < (r.of)(activations::point_of(Pointwise::Gelu, x)) + (
        r.of)(activations::point_of(Pointwise::Gelu, x)) < (r.of)(x) + (r.of)(x),
        (r.of)(x) > 0real ==> (r.of)(activations::point_of(Pointwise::Gelu, y)) < 0real,
{
    lemma_inside(r, x, y);
    lemma_tanh(r, inside(x), inside(y));
    lemma_half(r, x);
    lemma_half(r, y);
    let (v, t) = ((r.of)(x), (r.of)(inside(x).spec_tanh()));
    lemma_opposite(v, 1real - t);
    ideal::lemma_spread(v, 1real, t);
    ideal::lemma_neutral(v);
    assert(1real + (-t) == 1real - t);
    if v > 0real {
        ideal::lemma_strict(v, t);
        ideal::lemma_strict(v, 1real - t);
    }
}

/// Twice a smooth rectifier.
proof fn lemma_half<S: Real>(r: Reading<S>, x: S)
    requires
        faithful(r),
    ensures
        2real * (r.of)(activations::point_of(Pointwise::Gelu, x)) == product(
            (r.of)(x),
            1real + (r.of)(inside(x).spec_tanh()),
        ),
{
    let half = optim::ratio::<S>(1, 2);
    let th = inside(x).spec_tanh();
    let one = S::spec_one();
    ideal::lemma_reads(r, half, x);
    ideal::lemma_reads(r, one, th);
    ideal::lemma_reads(r, half.spec_times(x), one.spec_plus(th));
    ideal::lemma_reads_count(r, 1, 2);
    let (h, v, w) = ((r.of)(half), (r.of)(x), 1real + (r.of)(th));
    assert(1real + 1real == 2real);
    ideal::lemma_spread(h, 1real, 1real);
    ideal::lemma_neutral(h);
    assert(h + h == 1real);
    ideal::lemma_regroup(h, v, w);
    ideal::lemma_spread(product(v, w), h, h);
    ideal::lemma_neutral(product(v, w));
}

/// The weights of the experts that are chosen are the softmax of their numbers.
pub proof fn lemma_route_weights<S: Real>(r: Reading<S>, vals: Seq<S>, j: int)
    requires
        faithful(r),
        0 <= j < vals.len(),
    ensures
        (r.of)(fused::route_weights(vals)[j]) == (r.of)(activations::softmax_row(vals)[j]),
{
    let top = grpo::greatest(vals, vals.len() as int);
    let e = activations::exponentials(vals, top);
    let total = tensor::sum_of(e);
    lemma_exponentials(r, vals, top);
    let (t, x) = ((r.of)(total), (r.of)(e[j]));
    ideal::lemma_reads_signs(r, S::spec_zero(), total);
    let inv = activations::reciprocal(total);
    ideal::lemma_reads(r, e[j], inv);
    ideal::lemma_reads_over(r, S::spec_one(), total);
    ideal::lemma_reads_over(r, e[j], total);
    let k = (r.of)(inv);
    ideal::lemma_regroup(x, k, t);
    ideal::lemma_neutral(x);
    ideal::lemma_cancel((r.of)(e[j].spec_over(total)), product(x, k), t);
}

} // verus!
