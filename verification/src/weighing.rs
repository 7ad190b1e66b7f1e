//! How softmax and attention weigh, for numbers without rounding.
use vstd::prelude::*;
use crate::activations;
use crate::blas;
use crate::grpo;
use crate::ideal;
use crate::ideal::{exact, rsum, Reading};
use crate::nn;
use crate::number;
use crate::number::{Number, Real};
use crate::signal;
use crate::signal::place;
use crate::tensor;
use crate::tensor::Value;

verus! {

/// Softmax shares one whole out: all shares are positive and together they are one, and two shares
/// are to each other as the exponentials of their numbers. So a greater number has a greater share.
pub proof fn lemma_softmax<S: Real>(r: Reading<S>, s: Seq<S>)
    requires
        exact(r),
        s.len() > 0,
    ensures
        activations::softmax_row(s).len() == s.len(),
        rsum(ideal::reals(r.of, activations::softmax_row(s)), s.len() as int) == 1real,
        forall|i: int|
            0 <= i < s.len() ==> (r.of)(#[trigger] activations::softmax_row(s)[i]) > 0real,
        forall|i: int, j: int|
            #![trigger activations::softmax_row(s)[i], activations::softmax_row(s)[j]]
            0 <= i < s.len() && 0 <= j < s.len() ==> (r.of)(activations::softmax_row(s)[i])
                * (r.exp)((r.of)(s[j])) == (r.of)(activations::softmax_row(s)[j]) * (r.exp)(
                (r.of)(s[i]),
            ),
        forall|i: int, j: int|
            #![trigger activations::softmax_row(s)[i], activations::softmax_row(s)[j]]
            0 <= i < s.len() && 0 <= j < s.len() && (r.of)(s[i]) < (r.of)(s[j]) ==> (r.of)(
                activations::softmax_row(s)[i],
            ) < (r.of)(activations::softmax_row(s)[j]),
{
    let n = s.len() as int;
    let w = activations::softmax_row(s);
    let top = grpo::greatest(s, n);
    let e = activations::exponentials(s, top);
    let m = (r.of)(top);
    let total = tensor::sum_of(e);
    ideal::lemma_total(r.of, e);
    let re = ideal::reals(r.of, e);
    assert forall|i: int| 0 <= i < n implies #[trigger] re(i) >= 0real by {
        assert((r.of)(e[i]) == (r.exp)((r.of)(s[i]) - m));
    }
    ideal::lemma_rsum_bounds(re, 0, n);
    assert(re(0) == (r.exp)((r.of)(s[0]) - m));
    let t = (r.of)(total);
    assert(t > 0real);
    let inv = activations::reciprocal(total);
    let k = (r.of)(inv);
    assert(k == 1real / t);
    assert(k > 0real && k * t == 1real) by (nonlinear_arith)
        requires
            k == 1real / t,
            t > 0real,
    ;
    let rw = ideal::reals(r.of, w);
    assert forall|i: int| 0 <= i < n implies #[trigger] rw(i) == k * re(i) by {
        let x = re(i);
        assert(x * k == k * x) by (nonlinear_arith);
    }
    ideal::lemma_rsum_times(re, rw, k, n);
    assert forall|i: int| 0 <= i < n implies (r.of)(#[trigger] w[i]) > 0real by {
        let x = re(i);
        assert(rw(i) == k * x);
        assert(x == (r.exp)((r.of)(s[i]) - m));
        assert(k * x > 0real) by (nonlinear_arith)
            requires
                k > 0real,
                x > 0real,
        ;
    }
    assert forall|i: int, j: int|
        #![trigger w[i], w[j]]
        0 <= i < n && 0 <= j < n implies (r.of)(w[i]) * (r.exp)((r.of)(s[j])) == (r.of)(w[j])
        * (r.exp)((r.of)(s[i])) && ((r.of)(s[i]) < (r.of)(s[j]) ==> (r.of)(w[i]) < (r.of)(
        w[j],
    )) by {
        let (a, b) = ((r.of)(s[i]), (r.of)(s[j]));
        let (x, y) = (re(i), re(j));
        assert(rw(i) == k * x && rw(j) == k * y);
        ideal::lemma_exp(r, a, m);
        ideal::lemma_exp(r, b, m);
        let (ea, eb, em) = ((r.exp)(a), (r.exp)(b), (r.exp)(m));
        assert((k * x) * eb == (k * y) * ea) by (nonlinear_arith)
            requires
                x * em == ea,
                y * em == eb,
        ;
        if a < b {
            assert(a - m < b - m);
            assert(x < y);
            assert(k * x < k * y) by (nonlinear_arith)
                requires
                    k > 0real,
                    x < y,
            ;
        }
    }
}

/// What a query has in common with a key.
pub open spec fn common<S>(
    of: spec_fn(S) -> real,
    q: Value<S>,
    k: Value<S>,
    g: int,
    t: int,
    j: int,
) -> real {
    rsum(
        |p: int| of(q.data[place(q.shape, g, t, p)]) * of(k.data[place(k.shape, g, j, p)]),
        q.shape[2] as int,
    )
}

/// How much a key counts for a query: the exponential of what they have in common, times a scale.
pub open spec fn counts<S: Real>(
    r: Reading<S>,
    q: Value<S>,
    k: Value<S>,
    scale: S,
    g: int,
    t: int,
) -> spec_fn(int) -> real {
    |j: int| (r.exp)((r.of)(scale) * common(r.of, q, k, g, t, j))
}

proof fn lemma_row_place<S>(v: Value<S>, g: int, t: int, c: int)
    requires
        v.wf(),
        v.shape.len() == 3,
        0 <= g < v.shape[0],
        0 <= t < v.shape[1],
        0 <= c < v.shape[2],
    ensures
        activations::row_at(v.data, v.shape[2] as int, g * v.shape[1] + t)[c]
            == v.data[place(v.shape, g, t, c)],
        activations::row_at(v.data, v.shape[2] as int, g * v.shape[1] + t).len() == v.shape[2],
{
    signal::lemma_place(v, g, t, c);
    signal::lemma_place(v, g, t, 0);
    signal::lemma_place(v, g, t, v.shape[2] - 1);
}

/// The score of a key is what it has in common with the query, times the scale.
proof fn lemma_score<S: Real>(
    r: Reading<S>,
    q: Value<S>,
    k: Value<S>,
    v: Value<S>,
    scale: S,
    g: int,
    t: int,
    j: int,
)
    requires
        exact(r),
        q.wf(),
        k.wf(),
        nn::attention_fits(q, k, v),
        0 <= g < q.shape[0],
        0 <= t < q.shape[1],
        0 <= j < k.shape[1],
        q.shape[2] > 0,
    ensures
        (r.of)(
            nn::scores(
                activations::row_at(q.data, q.shape[2] as int, g * q.shape[1] + t),
                k.data,
                g * k.shape[1],
                k.shape[1] as int,
                scale,
            )[j],
        ) == (r.of)(scale) * common(r.of, q, k, g, t, j),
{
    let d = q.shape[2] as int;
    let query = activations::row_at(q.data, d, g * q.shape[1] + t);
    lemma_row_place(q, g, t, 0);
    let key = activations::row_at(k.data, d, g * k.shape[1] + j);
    let f = |p: int| query[p].spec_times(key[p]);
    let h = |p: int|
        (r.of)(q.data[place(q.shape, g, t, p)]) * (r.of)(k.data[place(k.shape, g, j, p)]);
    assert forall|p: int| 0 <= p < d implies (r.of)(#[trigger] f(p)) == h(p) by {
        lemma_row_place(q, g, t, p);
        lemma_row_place(k, g, j, p);
    }
    ideal::lemma_sum_as(r.of, f, h, d);
    let (x, y) = (common(r.of, q, k, g, t, j), (r.of)(scale));
    assert((r.of)(nn::inner(query, key)) == x);
    assert(x * y == y * x) by (nonlinear_arith);
}

/// Attention takes from each value as much as its key counts for the query: the output times the
/// sum of what all keys count is the sum of the values, each times what its key counts.
pub proof fn lemma_attention<S: Real>(
    r: Reading<S>,
    q: Value<S>,
    k: Value<S>,
    v: Value<S>,
    scale: S,
    g: int,
    t: int,
    c: int,
)
    requires
        exact(r),
        q.wf(),
        k.wf(),
        v.wf(),
        nn::attention_fits(q, k, v),
        0 <= g < q.shape[0],
        0 <= t < q.shape[1],
        0 <= c < q.shape[2],
        k.shape[1] > 0,
    ensures
        (r.of)(nn::attention_value(q, k, v, scale).data[place(q.shape, g, t, c)]) * rsum(
            counts(r, q, k, scale, g, t),
            k.shape[1] as int,
        ) == rsum(
            |j: int|
                counts(r, q, k, scale, g, t)(j) * (r.of)(v.data[place(v.shape, g, j, c)]),
            k.shape[1] as int,
        ),
{
    signal::lemma_place(q, g, t, c);
    let (d, n) = (q.shape[2] as int, k.shape[1] as int);
    let first = g * k.shape[1];
    let query = activations::row_at(q.data, d, g * q.shape[1] + t);
    lemma_row_place(q, g, t, c);
    blas::lemma_cell(g * q.shape[1] + t, c, d);
    let s = nn::scores(query, k.data, first, n, scale);
    let w = activations::softmax_row(s);
    lemma_softmax(r, s);
    let e = counts(r, q, k, scale, g, t);
    assert forall|j: int| 0 <= j < n implies (r.exp)((r.of)(#[trigger] s[j])) == e(j) by {
        lemma_score(r, q, k, v, scale, g, t, j);
    }
    let total = rsum(e, n);
    let rw = ideal::reals(r.of, w);
    // Each share times the total is what the key counts.
    assert forall|i: int| 0 <= i < n implies (r.of)(#[trigger] w[i]) * total == e(i) by {
        let ei = e(i);
        let wi = (r.of)(w[i]);
        let left = |j: int| wi * e(j);
        let right = |j: int| ei * rw(j);
        assert forall|j: int| 0 <= j < n implies #[trigger] left(j) == right(j) by {
            assert((r.exp)((r.of)(s[j])) == e(j) && (r.exp)((r.of)(s[i])) == e(i));
            assert((r.of)(w[i]) * (r.exp)((r.of)(s[j])) == (r.of)(w[j]) * (r.exp)((r.of)(s[i])));
            let x = (r.of)(w[j]);
            assert(x * ei == ei * x) by (nonlinear_arith);
        }
        ideal::lemma_rsum_agree(left, right, n);
        ideal::lemma_rsum_times(e, left, wi, n);
        ideal::lemma_rsum_times(rw, right, ei, n);
        assert(ei * 1real == ei) by (nonlinear_arith);
    }
    let f = |j: int| w[j].spec_times(activations::row_at(v.data, d, first + j)[c]);
    let y = |j: int| (r.of)(w[j]) * (r.of)(v.data[place(v.shape, g, j, c)]);
    assert forall|j: int| 0 <= j < n implies (r.of)(#[trigger] f(j)) == y(j) by {
        lemma_row_place(v, g, j, c);
    }
    ideal::lemma_sum_as(r.of, f, y, n);
    let want = |j: int| e(j) * (r.of)(v.data[place(v.shape, g, j, c)]);
    assert forall|j: int| 0 <= j < n implies #[trigger] want(j) == total * y(j) by {
        let (a, b) = ((r.of)(w[j]), (r.of)(v.data[place(v.shape, g, j, c)]));
        assert((r.of)(w[j]) * total == e(j));
        assert((a * total) * b == total * (a * b)) by (nonlinear_arith);
    }
    ideal::lemma_rsum_times(y, want, total, n);
    let out = rsum(y, n);
    assert(out * total == total * out) by (nonlinear_arith);
    ideal::lemma_rsum_agree(
        want,
        |j: int| counts(r, q, k, scale, g, t)(j) * (r.of)(v.data[place(v.shape, g, j, c)]),
        n,
    );
}

/// Under a positive scale a key that has more in common with a query counts for more.
pub proof fn lemma_closer_counts_more<S: Real>(
    r: Reading<S>,
    q: Value<S>,
    k: Value<S>,
    scale: S,
    g: int,
    t: int,
    i: int,
    j: int,
)
    requires
        exact(r),
        (r.of)(scale) > 0real,
        common(r.of, q, k, g, t, i) < common(r.of, q, k, g, t, j),
    ensures
        counts(r, q, k, scale, g, t)(i) < counts(r, q, k, scale, g, t)(j),
{
    let (s, x, y) = (
        (r.of)(scale),
        common(r.of, q, k, g, t, i),
        common(r.of, q, k, g, t, j),
    );
    assert(s * x < s * y) by (nonlinear_arith)
        requires
            s > 0real,
            x < y,
    ;
    assert((r.exp)(s * x) < (r.exp)(s * y));
}

/// Where each value is one at a place of its own, the output shows what each key counts: at the
/// place of a key that has more in common with the query it is greater.
pub proof fn lemma_attention_prefers<S: Real>(
    r: Reading<S>,
    q: Value<S>,
    k: Value<S>,
    v: Value<S>,
    scale: S,
    g: int,
    t: int,
    i: int,
    j: int,
)
    requires
        exact(r),
        q.wf(),
        k.wf(),
        v.wf(),
        nn::attention_fits(q, k, v),
        0 <= g < q.shape[0],
        0 <= t < q.shape[1],
        0 <= i < q.shape[2],
        0 <= j < q.shape[2],
        k.shape[1] == q.shape[2],
        forall|a: int, c: int|
            #![trigger v.data[place(v.shape, g, a, c)]]
            0 <= a < k.shape[1] && 0 <= c < q.shape[2] ==> (r.of)(
                v.data[place(v.shape, g, a, c)],
            ) == (if a == c {
                1real
            } else {
                0real
            }),
        (r.of)(scale) > 0real,
        common(r.of, q, k, g, t, i) < common(r.of, q, k, g, t, j),
    ensures
        0real < (r.of)(nn::attention_value(q, k, v, scale).data[place(q.shape, g, t, i)]) < (r.of)(
            nn::attention_value(q, k, v, scale).data[place(q.shape, g, t, j)],
        ) < 1real,
{
    let n = k.shape[1] as int;
    let e = counts(r, q, k, scale, g, t);
    let total = rsum(e, n);
    assert forall|a: int| 0 <= a < n implies #[trigger] e(a) >= 0real by {
        assert((r.exp)((r.of)(scale) * common(r.of, q, k, g, t, a)) > 0real);
    }
    lemma_two_of(e, i, j, n);
    lemma_closer_counts_more(r, q, k, scale, g, t, i, j);
    let out = nn::attention_value(q, k, v, scale).data;
    let (x, y) = ((r.of)(out[place(q.shape, g, t, i)]), (r.of)(out[place(q.shape, g, t, j)]));
    lemma_attention(r, q, k, v, scale, g, t, i);
    lemma_attention(r, q, k, v, scale, g, t, j);
    lemma_only(r, q, k, v, scale, g, t, i);
    lemma_only(r, q, k, v, scale, g, t, j);
    let (ei, ej) = (e(i), e(j));
    assert(ei > 0real) by {
        assert((r.exp)((r.of)(scale) * common(r.of, q, k, g, t, i)) > 0real);
    }
    assert(0real < x && x < y && y < 1real) by (nonlinear_arith)
        requires
            x * total == ei,
            y * total == ej,
            0real < ei,
            ei < ej,
            ei + ej <= total,
    ;
}

proof fn lemma_only<S: Real>(
    r: Reading<S>,
    q: Value<S>,
    k: Value<S>,
    v: Value<S>,
    scale: S,
    g: int,
    t: int,
    c: int,
)
    requires
        0 <= c < k.shape[1],
        k.shape[1] == q.shape[2],
        forall|a: int, c: int|
            #![trigger v.data[place(v.shape, g, a, c)]]
            0 <= a < k.shape[1] && 0 <= c < q.shape[2] ==> (r.of)(
                v.data[place(v.shape, g, a, c)],
            ) == (if a == c {
                1real
            } else {
                0real
            }),
    ensures
        rsum(
            |j: int|
                counts(r, q, k, scale, g, t)(j) * (r.of)(v.data[place(v.shape, g, j, c)]),
            k.shape[1] as int,
        ) == counts(r, q, k, scale, g, t)(c),
{
    let e = counts(r, q, k, scale, g, t);
    let f = |j: int|
        counts(r, q, k, scale, g, t)(j) * (r.of)(v.data[place(v.shape, g, j, c)]);
    assert forall|a: int| 0 <= a < k.shape[1] && a != c implies #[trigger] f(a) == 0real by {
        let (x, y) = (e(a), (r.of)(v.data[place(v.shape, g, a, c)]));
        assert(x * y == 0real) by (nonlinear_arith)
            requires
                y == 0real,
        ;
    }
    ideal::lemma_rsum_one(f, c, k.shape[1] as int);
    let x = e(c);
    assert((r.of)(v.data[place(v.shape, g, c, c)]) == 1real);
    assert(x * 1real == x) by (nonlinear_arith);
}

/// Two different parts are together no more than the whole.
proof fn lemma_two_of(f: spec_fn(int) -> real, i: int, j: int, n: int)
    requires
        0 <= i < n,
        0 <= j < n,
        i != j,
        forall|a: int| 0 <= a < n ==> #[trigger] f(a) >= 0real,
    ensures
        f(i) + f(j) <= rsum(f, n),
    decreases n,
{
    assert(f(n - 1) >= 0real);
    if i == n - 1 {
        ideal::lemma_rsum_bounds(f, j, n - 1);
    } else if j == n - 1 {
        ideal::lemma_rsum_bounds(f, i, n - 1);
    } else {
        lemma_two_of(f, i, j, n - 1);
    }
}

/// The scale of attention is positive, and its square times the width is one.
pub proof fn lemma_width_scale<S: Real>(r: Reading<S>, d: usize)
    requires
        exact(r),
        d > 0,
    ensures
        (r.of)(nn::width_scale::<S>(d)) > 0real,
        (r.of)(nn::width_scale::<S>(d)) * (r.of)(nn::width_scale::<S>(d)) * ((d as int) as real)
            == 1real,
{
    let w = (d as int) as real;
    let s = (r.of)(S::spec_count(d).spec_sqrt());
    let x = (r.of)(nn::width_scale::<S>(d));
    assert(w > 0real);
    assert(s != 0real) by (nonlinear_arith)
        requires
            s * s == w,
            w > 0real,
    ;
    assert(x > 0real && x * x * w == 1real) by (nonlinear_arith)
        requires
            x == 1real / s,
            s > 0real,
            s * s == w,
    ;
}

} // verus!
