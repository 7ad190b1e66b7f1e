//! What a scan and a convolution make of a signal, for numbers without rounding.
use vstd::prelude::*;
use crate::blas;
use crate::ideal;
use crate::ideal::{exact, rsum, Reading};
use crate::mamba;
use crate::mamba::Scan;
use crate::nn;
use crate::number::{Number, Real};
use crate::tensor;
use crate::tensor::Value;

verus! {

/// A place in a tensor of three axes.
pub open spec fn place(shape: Seq<usize>, g: int, t: int, c: int) -> int {
    (g * shape[1] + t) * shape[2] + c
}

/// A place lies within the tensor and is found again by its axes.
pub proof fn lemma_place<S>(v: Value<S>, g: int, t: int, c: int)
    requires
        v.wf(),
        v.shape.len() == 3,
        0 <= g < v.shape[0],
        0 <= t < v.shape[1],
        0 <= c < v.shape[2],
    ensures
        0 <= place(v.shape, g, t, c) < v.data.len(),
        blas::col_of(place(v.shape, g, t, c), v.shape[2] as int) == c,
        blas::row_of(
            blas::row_of(place(v.shape, g, t, c), v.shape[2] as int),
            v.shape[1] as int,
        ) == g,
        blas::col_of(
            blas::row_of(place(v.shape, g, t, c), v.shape[2] as int),
            v.shape[1] as int,
        ) == t,
{
    let (b, s, w) = (v.shape[0] as int, v.shape[1] as int, v.shape[2] as int);
    assert(v.shape =~= seq![v.shape[0], v.shape[1], v.shape[2]]);
    nn::lemma_volume_three(v.shape[0], v.shape[1], v.shape[2]);
    assert(0 <= g * s) by (nonlinear_arith)
        requires
            0 <= g,
            0 <= s,
    ;
    blas::lemma_cell(g, t, s);
    blas::lemma_cell(g * s + t, c, w);
    blas::lemma_in_storage(g, t, b, s);
    blas::lemma_in_storage(g * s + t, c, b * s, w);
}

/// The true values that drive one state of one channel.
pub struct Drive {
    /// The sizes of the steps.
    pub d: spec_fn(int) -> real,
    /// What of the signal comes into the state.
    pub b: spec_fn(int) -> real,
    /// The signal.
    pub u: spec_fn(int) -> real,
    /// How the state decays.
    pub a: real,
}

/// What of the signal of step `j` is left in the state after step `t`: the signal as it came in,
/// decayed over the steps since.
pub open spec fn left_of<S: Real>(r: Reading<S>, v: Drive, j: int, t: int) -> real {
    (r.exp)(v.a * (rsum(v.d, t + 1) - rsum(v.d, j + 1))) * ((v.d)(j) * (v.b)(j) * (v.u)(j))
}

/// The true values that drive a state, as they stand in the tensors.
pub open spec fn driven<S: Real>(
    r: Reading<S>,
    delta: Value<S>,
    b: Value<S>,
    u: Value<S>,
    a: Value<S>,
    g: int,
    c: int,
    m: int,
) -> Drive {
    Drive {
        d: |t: int| (r.of)(delta.data[place(u.shape, g, t, c)]),
        b: |t: int| (r.of)(b.data[place(b.shape, g, t, m)]),
        u: |t: int| (r.of)(u.data[place(u.shape, g, t, c)]),
        a: (r.of)(a.data[c * a.shape[1] + m]),
    }
}

spec fn drive<S: Real>(r: Reading<S>, x: Scan<S>, g: int, c: int, m: int) -> Drive {
    Drive {
        d: |t: int| (r.of)(x.delta[(g * x.seq + t) * x.channels + c]),
        b: |t: int| (r.of)(x.b[(g * x.seq + t) * x.states + m]),
        u: |t: int| (r.of)(x.u[(g * x.seq + t) * x.channels + c]),
        a: (r.of)(x.a[c * x.states + m]),
    }
}

proof fn lemma_state<S: Real>(r: Reading<S>, x: Scan<S>, g: int, c: int, m: int, t: int)
    requires
        exact(r),
        0 <= t,
    ensures
        (r.of)(x.hidden(g, c, m, t)) == rsum(
            |j: int| left_of(r, drive(r, x, g, c, m), j, t - 1),
            t,
        ),
    decreases t,
{
    let v = drive(r, x, g, c, m);
    if t > 0 {
        lemma_state(r, x, g, c, m, t - 1);
        let old = |j: int| left_of(r, v, j, t - 2);
        let old1 = |j: int| left_of(r, v, j, (t - 1) - 1);
        ideal::lemma_rsum_agree(old, old1, t - 1);
        let new = |j: int| left_of(r, v, j, t - 1);
        let (d, a) = ((v.d)(t - 1), v.a);
        let k = (r.exp)(d * a);
        assert forall|j: int| 0 <= j < t - 1 implies #[trigger] new(j) == k * old(j) by {
            let (p, q, o) = (rsum(v.d, t), rsum(v.d, t - 1), rsum(v.d, j + 1));
            assert(p == q + d);
            assert(a * (p - o) == d * a + a * (q - o)) by (nonlinear_arith)
                requires
                    p == q + d,
            ;
            ideal::lemma_exp(r, d * a, a * (q - o));
            let (e, w) = ((r.exp)(a * (q - o)), (v.d)(j) * (v.b)(j) * (v.u)(j));
            assert((k * e) * w == k * (e * w)) by (nonlinear_arith);
        }
        ideal::lemma_rsum_times(old, new, k, t - 1);
        let p = rsum(v.d, t);
        assert(a * (p - p) == 0real) by (nonlinear_arith);
        let w = d * (v.b)(t - 1) * (v.u)(t - 1);
        assert(1real * w == w) by (nonlinear_arith);
        assert(new(t - 1) == w);
    }
}

/// A scan gathers the signal: an output is the sum over the states of what each gives out times
/// what is in it, and in it is all of the signal so far, each step of it as it came in and decayed
/// over the steps since.
pub proof fn lemma_scan_gathers<S: Real>(
    r: Reading<S>,
    delta: Value<S>,
    b: Value<S>,
    c: Value<S>,
    u: Value<S>,
    a: Value<S>,
    g: int,
    t: int,
    ch: int,
)
    requires
        exact(r),
        u.wf(),
        mamba::scan_fits(delta, b, c, u, a),
        0 <= g < u.shape[0],
        0 <= t < u.shape[1],
        0 <= ch < u.shape[2],
    ensures
        (r.of)(mamba::scanned(delta, b, c, u, a).data[place(u.shape, g, t, ch)]) == rsum(
            |m: int|
                (r.of)(c.data[place(c.shape, g, t, m)]) * rsum(
                    |j: int| left_of(r, driven(r, delta, b, u, a, g, ch, m), j, t),
                    t + 1,
                ),
            a.shape[1] as int,
        ),
{
    let x = mamba::scan_of(delta, b, c, u, a);
    lemma_place(u, g, t, ch);
    let f = |m: int|
        x.c[(g * x.seq + t) * x.states + m].spec_times(x.hidden(g, ch, m, t + 1));
    let h = |m: int|
        (r.of)(c.data[place(c.shape, g, t, m)]) * rsum(
            |j: int| left_of(r, driven(r, delta, b, u, a, g, ch, m), j, t),
            t + 1,
        );
    assert forall|m: int| 0 <= m < x.states implies (r.of)(#[trigger] f(m)) == h(m) by {
        let (v, w) = (drive(r, x, g, ch, m), driven(r, delta, b, u, a, g, ch, m));
        assert(v.d =~= w.d);
        assert(v.b =~= w.b);
        assert(v.u =~= w.u);
        assert(v == w);
        lemma_state(r, x, g, ch, m, t + 1);
        ideal::lemma_rsum_agree(
            |j: int| left_of(r, drive(r, x, g, ch, m), j, (t + 1) - 1),
            |j: int| left_of(r, driven(r, delta, b, u, a, g, ch, m), j, t),
            t + 1,
        );
    }
    ideal::lemma_sum_as(r.of, f, h, x.states);
}

/// Without decay a scan adds up the signal: an output is the sum over all steps so far of the
/// signal times the size of the step, times how well what came in then fits what is given out now.
pub proof fn lemma_scan_without_decay<S: Real>(
    r: Reading<S>,
    delta: Value<S>,
    b: Value<S>,
    c: Value<S>,
    u: Value<S>,
    a: Value<S>,
    g: int,
    t: int,
    ch: int,
)
    requires
        exact(r),
        u.wf(),
        mamba::scan_fits(delta, b, c, u, a),
        0 <= g < u.shape[0],
        0 <= t < u.shape[1],
        0 <= ch < u.shape[2],
        forall|m: int|
            0 <= m < a.shape[1] ==> (r.of)(#[trigger] a.data[ch * a.shape[1] + m]) == 0real,
    ensures
        (r.of)(mamba::scanned(delta, b, c, u, a).data[place(u.shape, g, t, ch)]) == rsum(
            |j: int|
                rsum(
                    |m: int|
                        (r.of)(c.data[place(c.shape, g, t, m)]) * (r.of)(
                            b.data[place(b.shape, g, j, m)],
                        ),
                    a.shape[1] as int,
                ) * (r.of)(delta.data[place(u.shape, g, j, ch)]) * (r.of)(
                    u.data[place(u.shape, g, j, ch)],
                ),
            t + 1,
        ),
{
    lemma_scan_gathers(r, delta, b, c, u, a, g, t, ch);
    let n = a.shape[1] as int;
    let cm = |m: int| (r.of)(c.data[place(c.shape, g, t, m)]);
    let bj = |j: int, m: int| (r.of)(b.data[place(b.shape, g, j, m)]);
    let w = |j: int|
        (r.of)(delta.data[place(u.shape, g, j, ch)]) * (r.of)(u.data[place(u.shape, g, j, ch)]);
    let f = |m: int, j: int| cm(m) * (bj(j, m) * w(j));
    let outer = |m: int| cm(m) * rsum(|j: int| left_of(r, driven(r, delta, b, u, a, g, ch, m), j, t), t + 1);
    let rows = |m: int| rsum(|j: int| f(m, j), t + 1);
    assert forall|m: int| 0 <= m < n implies #[trigger] outer(m) == rows(m) by {
        let inner = |j: int| left_of(r, driven(r, delta, b, u, a, g, ch, m), j, t);
        let row = |j: int| f(m, j);
        assert((r.of)(a.data[ch * a.shape[1] + m]) == 0real);
        assert forall|j: int| 0 <= j < t + 1 implies #[trigger] row(j) == cm(m) * inner(j) by {
            let v = driven(r, delta, b, u, a, g, ch, m);
            let p = rsum(v.d, t + 1) - rsum(v.d, j + 1);
            assert(0real * p == 0real) by (nonlinear_arith);
            let (d, y, z) = ((v.d)(j), (v.b)(j), (v.u)(j));
            assert(1real * (d * y * z) == y * (d * z)) by (nonlinear_arith);
        }
        ideal::lemma_rsum_times(inner, row, cm(m), t + 1);
    }
    ideal::lemma_rsum_agree(outer, rows, n);
    let told = |m: int|
        (r.of)(c.data[place(c.shape, g, t, m)]) * rsum(
            |j: int|
                left_of(r, driven(r, delta, b, u, a, g, ch, m), j, t),
            t + 1,
        );
    ideal::lemma_rsum_agree(told, outer, n);
    ideal::lemma_rsum_exchange(f, n, t + 1);
    ideal::lemma_rsum_agree(rows, |i: int| rsum(|j: int| f(i, j), t + 1), n);
    let cols = |j: int| rsum(|m: int| f(m, j), n);
    ideal::lemma_rsum_agree(cols, |j: int| rsum(|i: int| f(i, j), n), t + 1);
    let want = |j: int|
        rsum(
            |m: int|
                (r.of)(c.data[place(c.shape, g, t, m)]) * (r.of)(b.data[place(b.shape, g, j, m)]),
            a.shape[1] as int,
        ) * (r.of)(delta.data[place(u.shape, g, j, ch)]) * (r.of)(
            u.data[place(u.shape, g, j, ch)],
        );
    assert forall|j: int| 0 <= j < t + 1 implies #[trigger] cols(j) == want(j) by {
        let col = |m: int| f(m, j);
        let fit = |m: int|
            (r.of)(c.data[place(c.shape, g, t, m)]) * (r.of)(b.data[place(b.shape, g, j, m)]);
        let k = w(j);
        assert forall|m: int| 0 <= m < n implies #[trigger] col(m) == k * fit(m) by {
            let (y, z) = (cm(m), bj(j, m));
            assert(y * (z * k) == k * (y * z)) by (nonlinear_arith);
        }
        ideal::lemma_rsum_times(fit, col, k, n);
        let (s, y, z) = (
            rsum(fit, n),
            (r.of)(delta.data[place(u.shape, g, j, ch)]),
            (r.of)(u.data[place(u.shape, g, j, ch)]),
        );
        assert((y * z) * s == s * y * z) by (nonlinear_arith);
    }
    ideal::lemma_rsum_agree(cols, want, t + 1);
}

/// The signal of a channel at a step; nothing before the first.
pub open spec fn signal_at<S>(of: spec_fn(S) -> real, x: Value<S>, g: int, t: int, c: int) -> real {
    if t < 0 {
        0real
    } else {
        of(x.data[place(x.shape, g, t, c)])
    }
}

/// A convolution that looks back: a step is the sum of the last steps of the channel, the present
/// one times the last weight, the one before it times the weight before that, and so on.
pub proof fn lemma_convolution<S: Real>(
    r: Reading<S>,
    x: Value<S>,
    w: Value<S>,
    g: int,
    t: int,
    c: int,
)
    requires
        exact(r),
        x.wf(),
        x.shape.len() == 3,
        w.shape.len() == 2,
        0 <= g < x.shape[0],
        0 <= t < x.shape[1],
        0 <= c < x.shape[2],
    ensures
        (r.of)(mamba::convolved(x, w).data[place(x.shape, g, t, c)]) == rsum(
            |n: int|
                (r.of)(w.data[c * w.shape[1] + n]) * signal_at(
                    r.of,
                    x,
                    g,
                    t - (w.shape[1] - 1 - n),
                    c,
                ),
            w.shape[1] as int,
        ),
{
    lemma_place(x, g, t, c);
    lemma_taps(r, x, w, g, t, c, w.shape[1] as int);
}

proof fn lemma_taps<S: Real>(r: Reading<S>, x: Value<S>, w: Value<S>, g: int, t: int, c: int, n: int)
    requires
        exact(r),
    ensures
        (r.of)(
            mamba::taps(
                x.data,
                w.data,
                g * x.shape[1],
                t,
                x.shape[2] as int,
                w.shape[1] as int,
                c,
                n,
            ),
        ) == rsum(
            |n: int|
                (r.of)(w.data[c * w.shape[1] + n]) * signal_at(
                    r.of,
                    x,
                    g,
                    t - (w.shape[1] - 1 - n),
                    c,
                ),
            n,
        ),
    decreases n,
{
    if n > 0 {
        lemma_taps(r, x, w, g, t, c, n - 1);
        let y = (r.of)(w.data[c * w.shape[1] + (n - 1)]);
        assert(y * 0real == 0real) by (nonlinear_arith);
    }
}

} // verus!
