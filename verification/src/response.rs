//! What the activation functions and the losses are, for numbers without rounding.
use vstd::prelude::*;
use crate::activations;
use crate::activations::Pointwise;
use crate::fused;
use crate::fused::FusedActivation;
use crate::ideal;
use crate::ideal::{faithful, product, Reading};
use crate::loss;
use crate::loss::Elementwise;
use crate::number::{Number, Real};

verus! {

/// A sigmoid times one plus the exponential of the negated number is one.
proof fn lemma_share<S: Real>(r: Reading<S>, x: S)
    requires
        faithful(r),
    ensures
        product(
            (r.of)(activations::sigmoid_of(x)),
            1real + (r.exp)(-(r.of)(x)),
        ) == 1real,
        (r.exp)(-(r.of)(x)) > 0real,
{
    let e = x.spec_neg().spec_exp();
    ideal::lemma_reads_signs(r, x, x);
    ideal::lemma_reads_exp(r, x.spec_neg());
    ideal::lemma_powers(r, -(r.of)(x), 0real);
    ideal::lemma_reads(r, S::spec_one(), e);
    ideal::lemma_reads_over(r, S::spec_one(), S::spec_one().spec_plus(e));
}

/// Where a share of one plus a positive number is one, it lies between zero and one.
proof fn lemma_between(s: real, f: real)
    requires
        product(s, 1real + f) == 1real,
        f > 0real,
    ensures
        0real < s < 1real,
{
    ideal::lemma_neutral(1real + f);
    ideal::lemma_spread(1real + f, 0real, s);
    ideal::lemma_spread(1real + f, s, 1real);
    if s <= 0real {
        ideal::lemma_not_negative(0real - s, 1real + f);
    } else if s >= 1real {
        ideal::lemma_not_negative(s - 1real, 1real + f);
    }
}

/// The shares of one plus a number and of one plus its inverse add up to one.
proof fn lemma_two_shares(s: real, t: real, e: real, f: real)
    requires
        product(s, 1real + f) == 1real,
        product(t, 1real + e) == 1real,
        product(e, f) == 1real,
        e > 0real,
    ensures
        s + t == 1real,
        product(s, 1real + e) == e,
{
    ideal::lemma_regroup(s, 1real + f, e);
    ideal::lemma_spread(e, 1real, f);
    ideal::lemma_neutral(e);
    ideal::lemma_swap(e, f);
    assert(product(s, 1real + e) == e);
    ideal::lemma_spread(1real + e, s, t);
    ideal::lemma_neutral(1real + e);
    ideal::lemma_cancel(s + t, 1real, 1real + e);
}

/// A sigmoid lies between zero and one, and those of opposite numbers add up to one.
pub proof fn lemma_sigmoid<S: Real>(r: Reading<S>, x: S, y: S)
    requires
        faithful(r),
        (r.of)(y) == -(r.of)(x),
    ensures
        0real < (r.of)(activations::point_of(Pointwise::Sigmoid, x)) < 1real,
        (r.of)(activations::point_of(Pointwise::Sigmoid, x)) + (r.of)(
            activations::point_of(Pointwise::Sigmoid, y),
        ) == 1real,
{
    lemma_share(r, x);
    lemma_share(r, y);
    let (s, t) = ((r.of)(activations::sigmoid_of(x)), (r.of)(activations::sigmoid_of(y)));
    let v = (r.of)(x);
    lemma_between(s, (r.exp)(-v));
    ideal::lemma_powers(r, v, -v);
    assert(-(r.of)(y) == v);
    lemma_two_shares(s, t, (r.exp)(v), (r.exp)(-v));
}

/// Shares of one plus more are less.
proof fn lemma_less_share(s: real, t: real, f: real, g: real)
    requires
        product(s, 1real + f) == 1real,
        product(t, 1real + g) == 1real,
        f > g > 0real,
    ensures
        s < t,
{
    lemma_between(s, f);
    lemma_between(t, g);
    if s >= t {
        ideal::lemma_not_negative(s - t, 1real + g);
        ideal::lemma_spread(1real + g, s, t);
        ideal::lemma_strict(s, f - g);
        ideal::lemma_spread(s, 1real + g, f - g);
        assert((1real + g) + (f - g) == 1real + f);
    }
}

/// A sigmoid grows with its number.
pub proof fn lemma_sigmoid_grows<S: Real>(r: Reading<S>, x: S, y: S)
    requires
        faithful(r),
        (r.of)(x) < (r.of)(y),
    ensures
        (r.of)(activations::point_of(Pointwise::Sigmoid, x)) < (r.of)(
            activations::point_of(Pointwise::Sigmoid, y),
        ),
{
    lemma_share(r, x);
    lemma_share(r, y);
    ideal::lemma_powers(r, -(r.of)(y), -(r.of)(x));
    lemma_less_share(
        (r.of)(activations::sigmoid_of(x)),
        (r.of)(activations::sigmoid_of(y)),
        (r.exp)(-(r.of)(x)),
        (r.exp)(-(r.of)(y)),
    );
}

/// A number times its sigmoid: it has the sign of the number, and less the same of the opposite
/// number it is the number; of a positive number it is more than half.
pub proof fn lemma_silu<S: Real>(r: Reading<S>, x: S, y: S)
    requires
        faithful(r),
        (r.of)(y) == -(r.of)(x),
    ensures
        (r.of)(activations::point_of(Pointwise::Silu, x)) - (r.of)(
            activations::point_of(Pointwise::Silu, y),
        ) == (r.of)(x),
        (r.of)(x) > 0real ==> (r.of)(activations::point_of(Pointwise::Silu, x)) + (r.of)(
            activations::point_of(Pointwise::Silu, x),
        ) > (r.of)(x),
        (r.of)(x) > 0real ==> (r.of)(activations::point_of(Pointwise::Silu, y)) < 0real,
{
    let (p, q) = (activations::sigmoid_of(x), activations::sigmoid_of(y));
    let (v, s, t) = ((r.of)(x), (r.of)(p), (r.of)(q));
    lemma_sigmoid(r, x, y);
    lemma_sigmoid(r, y, x);
    ideal::lemma_reads(r, x, p);
    ideal::lemma_reads(r, y, q);
    ideal::lemma_neutral(t);
    ideal::lemma_spread(t, 0real, v);
    ideal::lemma_spread(v, s, t);
    ideal::lemma_neutral(v);
    assert(product(v, s + t) == v);
    assert(product(0real - v, t) == -product(v, t));
    if v > 0real {
        lemma_sigmoid_grows(r, y, x);
        ideal::lemma_strict(v, t);
        ideal::lemma_strict(v, s - t);
    }
}

/// A rectified number is the number where it is positive, and zero elsewhere.
pub proof fn lemma_relu<S: Real>(r: Reading<S>, x: S)
    requires
        faithful(r),
    ensures
        (r.of)(x) >= 0real ==> (r.of)(activations::point_of(Pointwise::Relu, x)) == (r.of)(x),
        (r.of)(x) <= 0real ==> (r.of)(activations::point_of(Pointwise::Relu, x)) == 0real,
{
    ideal::lemma_reads_signs(r, x, S::spec_zero());
}

/// The exponential of a softened rectified number is one more than that of the number, and less
/// the same of the opposite number it is the number.
pub proof fn lemma_softplus<S: Real>(r: Reading<S>, x: S, y: S)
    requires
        faithful(r),
        (r.of)(y) == -(r.of)(x),
    ensures
        (r.exp)((r.of)(activations::point_of(Pointwise::Softplus, x))) == 1real + (r.exp)(
            (r.of)(x),
        ),
        (r.of)(activations::point_of(Pointwise::Softplus, x)) - (r.of)(
            activations::point_of(Pointwise::Softplus, y),
        ) == (r.of)(x),
{
    lemma_raised(r, x);
    lemma_raised(r, y);
    let (p, q) = (
        (r.of)(activations::point_of(Pointwise::Softplus, x)),
        (r.of)(activations::point_of(Pointwise::Softplus, y)),
    );
    let v = (r.of)(x);
    let (e, f) = ((r.exp)(v), (r.exp)(-v));
    ideal::lemma_powers(r, v, -v);
    ideal::lemma_powers(r, v, q);
    ideal::lemma_spread(e, 1real, f);
    ideal::lemma_neutral(e);
    ideal::lemma_powers(r, v + q, p);
}

proof fn lemma_raised<S: Real>(r: Reading<S>, x: S)
    requires
        faithful(r),
    ensures
        (r.exp)((r.of)(activations::point_of(Pointwise::Softplus, x))) == 1real + (r.exp)(
            (r.of)(x),
        ),
{
    ideal::lemma_reads_exp(r, x);
    ideal::lemma_powers(r, (r.of)(x), 0real);
    ideal::lemma_reads(r, S::spec_one(), x.spec_exp());
    ideal::lemma_reads_exp(r, S::spec_one().spec_plus(x.spec_exp()));
}

/// The logarithms of a sigmoid and of what it leaves differ by the number, and the second is the
/// softened rectified number, negated.
proof fn lemma_logs<S: Real>(r: Reading<S>, x: S, a: real, b: real, soft: real)
    requires
        faithful(r),
        (r.exp)(a) == (r.of)(activations::sigmoid_of(x)),
        (r.exp)(b) == 1real - (r.of)(activations::sigmoid_of(x)),
        (r.exp)(soft) == 1real + (r.exp)((r.of)(x)),
    ensures
        a == b + (r.of)(x),
        soft == -b,
{
    let v = (r.of)(x);
    let s = (r.of)(activations::sigmoid_of(x));
    let (e, f) = ((r.exp)(v), (r.exp)(-v));
    lemma_share(r, x);
    ideal::lemma_powers(r, v, -v);
    // s (1 + e) == e
    ideal::lemma_regroup(s, 1real + f, e);
    ideal::lemma_spread(e, 1real, f);
    ideal::lemma_neutral(e);
    ideal::lemma_swap(e, f);
    assert(product(s, 1real + e) == e);
    // (1 - s) (1 + e) == 1
    ideal::lemma_spread(1real + e, 1real, s);
    ideal::lemma_neutral(1real + e);
    assert(product(1real - s, 1real + e) == 1real);
    ideal::lemma_powers(r, b, soft);
    ideal::lemma_powers(r, b + soft, 0real);
    assert(b + soft == 0real);
    // (1 - s) e == s
    ideal::lemma_spread(1real - s, 1real, e);
    ideal::lemma_neutral(1real - s);
    ideal::lemma_powers(r, b, v);
    ideal::lemma_powers(r, b + v, a);
}

/// The softened rectified number, in the form that is stable.
proof fn lemma_stable<S: Real>(r: Reading<S>, x: S)
    requires
        faithful(r),
    ensures
        (r.exp)(
            (r.of)(x.spec_larger(S::spec_zero())) + (r.of)(
                S::spec_one().spec_plus(x.spec_abs().spec_neg().spec_exp()).spec_ln(),
            ),
        ) == 1real + (r.exp)((r.of)(x)),
{
    let v = (r.of)(x);
    let d = x.spec_abs().spec_neg();
    let inside = S::spec_one().spec_plus(d.spec_exp());
    ideal::lemma_reads_signs(r, x, S::spec_zero());
    ideal::lemma_reads_signs(r, x.spec_abs(), S::spec_zero());
    ideal::lemma_reads_exp(r, d);
    ideal::lemma_powers(r, (r.of)(d), 0real);
    ideal::lemma_reads(r, S::spec_one(), d.spec_exp());
    ideal::lemma_reads_exp(r, inside);
    let l = (r.of)(inside.spec_ln());
    let (e, f) = ((r.exp)(v), (r.exp)(-v));
    ideal::lemma_powers(r, v, -v);
    ideal::lemma_powers(r, v, l);
    ideal::lemma_powers(r, 0real, l);
    if v < 0real {
        assert((r.of)(x.spec_larger(S::spec_zero())) == 0real);
        assert(0real + l == l);
    } else {
        ideal::lemma_spread(e, 1real, f);
        ideal::lemma_neutral(e);
    }
}

/// The loss of a label and a number is the loss of the label and the sigmoid of the number.
pub proof fn lemma_losses_of_labels<S: Real>(r: Reading<S>, x: S, p: S, t: S)
    requires
        faithful(r),
        p == activations::point_of(Pointwise::Sigmoid, x),
    ensures
        (r.of)(loss::element_loss(Elementwise::Logit, x, t)) == (r.of)(
            loss::element_loss(Elementwise::Probability, p, t),
        ),
{
    let y = x.spec_neg();
    ideal::lemma_reads_signs(r, x, x);
    lemma_sigmoid(r, x, y);
    let one = S::spec_one();
    let rest = one.spec_minus(p);
    ideal::lemma_reads(r, one, p);
    ideal::lemma_reads_exp(r, p);
    ideal::lemma_reads_exp(r, rest);
    let (v, w) = ((r.of)(x), (r.of)(t));
    let (a, b) = ((r.of)(p.spec_ln()), (r.of)(rest.spec_ln()));
    let top = x.spec_larger(S::spec_zero());
    let tail = one.spec_plus(x.spec_abs().spec_neg().spec_exp()).spec_ln();
    lemma_stable(r, x);
    lemma_logs(r, x, a, b, (r.of)(top) + (r.of)(tail));
    // The one loss.
    ideal::lemma_reads(r, x, t);
    ideal::lemma_reads(r, top, x.spec_times(t));
    ideal::lemma_reads(r, top.spec_minus(x.spec_times(t)), tail);
    // The other.
    ideal::lemma_reads(r, one, t);
    ideal::lemma_reads(r, t, p.spec_ln());
    ideal::lemma_reads(r, one.spec_minus(t), rest.spec_ln());
    let sum = t.spec_times(p.spec_ln()).spec_plus(one.spec_minus(t).spec_times(rest.spec_ln()));
    ideal::lemma_reads(r, t.spec_times(p.spec_ln()), one.spec_minus(t).spec_times(rest.spec_ln()));
    ideal::lemma_reads_signs(r, sum, sum);
    ideal::lemma_spread(b, 1real, w);
    ideal::lemma_neutral(b);
    ideal::lemma_spread(w, b, v);
    ideal::lemma_swap(w, v);
    assert(product(w, a) == product(w, b) + product(v, w));
}

/// The loss of a label that is one and a probability is less the greater the probability.
pub proof fn lemma_loss_of_label<S: Real>(r: Reading<S>, p: S, q: S, t: S)
    requires
        faithful(r),
        0real < (r.of)(p) < (r.of)(q) < 1real,
    ensures
        (r.of)(t) == 1real ==> (r.of)(loss::element_loss(Elementwise::Probability, p, t)) > (r.of)(
            loss::element_loss(Elementwise::Probability, q, t),
        ),
        (r.of)(t) == 0real ==> (r.of)(loss::element_loss(Elementwise::Probability, p, t)) < (r.of)(
            loss::element_loss(Elementwise::Probability, q, t),
        ),
        (r.of)(t) == 1real ==> (r.exp)(
            -(r.of)(loss::element_loss(Elementwise::Probability, p, t)),
        ) == (r.of)(p),
        (r.of)(t) == 0real ==> (r.exp)(
            -(r.of)(loss::element_loss(Elementwise::Probability, p, t)),
        ) == 1real - (r.of)(p),
{
    lemma_label(r, p, t);
    lemma_label(r, q, t);
    let (x, y) = (
        (r.of)(loss::element_loss(Elementwise::Probability, p, t)),
        (r.of)(loss::element_loss(Elementwise::Probability, q, t)),
    );
    ideal::lemma_powers(r, -x, -y);
    ideal::lemma_powers(r, -y, -x);
}

proof fn lemma_label<S: Real>(r: Reading<S>, p: S, t: S)
    requires
        faithful(r),
        0real < (r.of)(p) < 1real,
    ensures
        (r.of)(t) == 1real ==> (r.exp)(
            -(r.of)(loss::element_loss(Elementwise::Probability, p, t)),
        ) == (r.of)(p),
        (r.of)(t) == 0real ==> (r.exp)(
            -(r.of)(loss::element_loss(Elementwise::Probability, p, t)),
        ) == 1real - (r.of)(p),
{
    let one = S::spec_one();
    let rest = one.spec_minus(p);
    ideal::lemma_reads(r, one, p);
    ideal::lemma_reads_exp(r, p);
    ideal::lemma_reads_exp(r, rest);
    ideal::lemma_reads(r, one, t);
    ideal::lemma_reads(r, t, p.spec_ln());
    ideal::lemma_reads(r, one.spec_minus(t), rest.spec_ln());
    let (u, v) = (t.spec_times(p.spec_ln()), one.spec_minus(t).spec_times(rest.spec_ln()));
    ideal::lemma_reads(r, u, v);
    ideal::lemma_reads_signs(r, u.spec_plus(v), p);
    ideal::lemma_neutral((r.of)(p.spec_ln()));
    ideal::lemma_neutral((r.of)(rest.spec_ln()));
}

/// The distance of two numbers as a loss.
pub proof fn lemma_distance_loss<S: Real>(r: Reading<S>, x: S, t: S)
    requires
        faithful(r),
    ensures
        (r.of)(x) >= (r.of)(t) ==> (r.of)(loss::element_loss(Elementwise::Absolute, x, t)) == (
        r.of)(x) - (r.of)(t),
        (r.of)(x) <= (r.of)(t) ==> (r.of)(loss::element_loss(Elementwise::Absolute, x, t)) == (
        r.of)(t) - (r.of)(x),
{
    ideal::lemma_reads(r, x, t);
    ideal::lemma_reads_signs(r, x.spec_minus(t), x);
}

/// The loss that is half the squared distance near the target and grows by the bound for each unit
/// of distance beyond it; at the bound the two agree.
pub proof fn lemma_huber_loss<S: Real>(r: Reading<S>, x: S, t: S, delta: S, d: real)
    requires
        faithful(r),
        d >= 0real,
        d == (r.of)(x) - (r.of)(t) || d == (r.of)(t) - (r.of)(x),
    ensures
        d <= (r.of)(delta) ==> 2real * (r.of)(
            loss::element_loss(Elementwise::Huber(delta), x, t),
        ) == product(d, d),
        d > (r.of)(delta) ==> 2real * (r.of)(
            loss::element_loss(Elementwise::Huber(delta), x, t),
        ) == product((r.of)(delta), (d - (r.of)(delta)) + d),
{
    ideal::lemma_reads(r, x, t);
    let far = x.spec_minus(t).spec_abs();
    ideal::lemma_reads_signs(r, x.spec_minus(t), x);
    ideal::lemma_reads_signs(r, far, delta);
    let half = crate::optim::ratio::<S>(1, 2);
    ideal::lemma_reads_count(r, 1, 2);
    let h = (r.of)(half);
    let k = (r.of)(delta);
    assert(1real + 1real == 2real);
    ideal::lemma_spread(h, 1real, 1real);
    ideal::lemma_neutral(h);
    assert(h + h == 1real);
    ideal::lemma_reads(r, half, far);
    ideal::lemma_reads(r, half.spec_times(far), far);
    ideal::lemma_reads(r, half, delta);
    ideal::lemma_reads(r, far, half.spec_times(delta));
    ideal::lemma_reads(r, delta, far.spec_minus(half.spec_times(delta)));
    ideal::lemma_regroup(h, d, d);
    ideal::lemma_spread(product(d, d), h, h);
    ideal::lemma_neutral(product(d, d));
    let e = d - product(h, k);
    ideal::lemma_spread(k, h, h);
    ideal::lemma_neutral(k);
    assert(e + e == (d - k) + d);
    ideal::lemma_spread(k, e, e);
}

/// The two forms of the sigmoid agree.
pub proof fn lemma_sigmoids_agree<S: Real>(r: Reading<S>, x: S)
    requires
        faithful(r),
    ensures
        (r.of)(fused::fused_at(FusedActivation::Sigmoid, x)) == (r.of)(
            activations::point_of(Pointwise::Sigmoid, x),
        ),
{
    ideal::lemma_reads_signs(r, S::spec_zero(), x);
    let v = (r.of)(x);
    if v < 0real {
        lemma_share(r, x);
        let s = (r.of)(activations::sigmoid_of(x));
        let (e, f) = ((r.exp)(v), (r.exp)(-v));
        ideal::lemma_powers(r, v, -v);
        ideal::lemma_regroup(s, 1real + f, e);
        ideal::lemma_spread(e, 1real, f);
        ideal::lemma_neutral(e);
        ideal::lemma_swap(e, f);
        assert(product(s, 1real + e) == e);
        ideal::lemma_reads_exp(r, x);
        ideal::lemma_reads(r, S::spec_one(), x.spec_exp());
        let below = S::spec_one().spec_plus(x.spec_exp());
        ideal::lemma_reads_over(r, x.spec_exp(), below);
        ideal::lemma_cancel(s, (r.of)(x.spec_exp().spec_over(below)), 1real + e);
    }
}

} // verus!
