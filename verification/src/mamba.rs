//! Selective state space models, alone and together with attention.
use vstd::prelude::*;
use crate::activations;
use crate::activations::{apply, Pointwise};
use crate::blas;
use crate::looped_transformer::{MultiHeadAttention, TransformerBlock};
use crate::nn;
use crate::nn::{Draws, Layer, Linear, Module, Sequential};
use crate::number;
use crate::number::{filled, Real};
use crate::optim;
use crate::optim::fraction;
use crate::tensor;
use crate::tensor::{Op, Tensor, Value};

verus! {

// ---- Convolution

/// The weighted sum of the first of the last `k` inputs of a channel; there are none before the
/// first step.
pub open spec fn taps<S: Real>(
    x: Seq<S>,
    w: Seq<S>,
    first: int,
    t: int,
    ch: int,
    k: int,
    c: int,
    n: int,
) -> S
    decreases n,
{
    if n <= 0 {
        S::spec_zero()
    } else {
        let before = taps(x, w, first, t, ch, k, c, n - 1);
        let p = t + n - k;
        if p < 0 {
            before
        } else {
            before.spec_plus(w[c * k + (n - 1)].spec_times(x[(first + p) * ch + c]))
        }
    }
}

/// Each step of each channel as the weighted sum of the last steps of the channel.
pub open spec fn convolved<S: Real>(x: Value<S>, w: Value<S>) -> Value<S> {
    let (s, ch, k) = (x.shape[1] as int, x.shape[2] as int, w.shape[1] as int);
    Value {
        data: Seq::new(
            x.data.len(),
            |i: int|
                taps(
                    x.data,
                    w.data,
                    blas::row_of(blas::row_of(i, ch), s) * s,
                    blas::col_of(blas::row_of(i, ch), s),
                    ch,
                    k,
                    blas::col_of(i, ch),
                    k,
                ),
        ),
        shape: x.shape,
    }
}

/// A convolution looks back only: a step does not depend on the steps after it.
pub proof fn lemma_taps_look_back<S: Real>(
    x: Seq<S>,
    y: Seq<S>,
    w: Seq<S>,
    first: int,
    t: int,
    ch: int,
    k: int,
    c: int,
    n: int,
)
    requires
        n <= k,
        forall|p: int| first <= p <= first + t ==> #[trigger] x[p * ch + c] == y[p * ch + c],
    ensures
        taps(x, w, first, t, ch, k, c, n) == taps(y, w, first, t, ch, k, c, n),
    decreases n,
{
    if n > 0 {
        lemma_taps_look_back(x, y, w, first, t, ch, k, c, n - 1);
        let p = t + n - k;
        if p >= 0 {
            assert(x[(first + p) * ch + c] == y[(first + p) * ch + c]);
        }
    }
}

/// A convolution over the steps of each channel that looks back only.
#[verifier::loop_isolation(false)]
pub fn conv1d_causal<S: Real>(x: &Tensor<S>, w: &Tensor<S>) -> (r: Tensor<S>)
    requires
        x.wf(),
        w.wf(),
        x@.shape.len() == 3,
        w@.shape.len() == 2,
        w@.shape[0] == x@.shape[2],
    ensures
        r.wf(),
        r@ == convolved(x@, w@),
        r.requires_grad == (x.requires_grad || w.requires_grad),
{
    let b: usize = x.shape[0];
    let s: usize = x.shape[1];
    let ch: usize = x.shape[2];
    let k: usize = w.shape[1];
    let ghost (bi, si, ci, ki) = (b as int, s as int, ch as int, k as int);
    let ghost want = convolved(x@, w@).data;
    proof {
        assert(x.shape@ =~= seq![b, s, ch]);
        assert(w.shape@ =~= seq![ch, k]);
        reveal_with_fuel(tensor::countable, 3);
        assert(x.shape@.drop_last() =~= seq![b, s]);
        tensor::lemma_volume_two(b, s);
        nn::lemma_volume_three(b, s, ch);
        tensor::lemma_volume_two(ch, k);
        assert(0 * si == 0) by (nonlinear_arith);
        assert(0 * ci == 0) by (nonlinear_arith);
    }
    let xlen: usize = x.data.len();
    let wlen: usize = w.data.len();
    let mut data: Vec<S> = Vec::new();
    for a in 0..b
        invariant
            data@.len() == (a * si) * ci,
            forall|i: int| 0 <= i < (a * si) * ci ==> #[trigger] data@[i] == want[i],
    {
        proof {
            nn::lemma_row_in(a as int, bi, si, bi * si);
        }
        let first: usize = a * s;
        for t in 0..s
            invariant
                data@.len() == (a * si + t) * ci,
                forall|i: int| 0 <= i < (a * si + t) * ci ==> #[trigger] data@[i] == want[i],
        {
            proof {
                nn::lemma_row_in(a * si + t, bi * si, ci, (bi * si) * ci);
                blas::lemma_cell(a as int, t as int, si);
            }
            for c in 0..ch
                invariant
                    data@.len() == (a * si + t) * ci + c,
                    forall|i: int|
                        0 <= i < (a * si + t) * ci + c ==> #[trigger] data@[i] == want[i],
            {
                let mut sum = S::zero();
                proof {
                    nn::lemma_row_in(c as int, ci, ki, ci * ki);
                    blas::lemma_cell(a * si + t, c as int, ci);
                }
                for j in 0..k
                    invariant
                        sum == taps(
                            x.data@,
                            w.data@,
                            first as int,
                            t as int,
                            ci,
                            ki,
                            c as int,
                            j as int,
                        ),
                {
                    if t as u128 + j as u128 + 1 >= k as u128 {
                        let p: usize = t - (k - 1 - j);
                        proof {
                            nn::lemma_row_in(first + p, bi * si, ci, (bi * si) * ci);
                        }
                        sum = sum.plus(w.data[c * k + j].times(x.data[(first + p) * ch + c]));
                    }
                }
                data.push(sum);
            }
            assert((a * si + t) * ci + ci == (a * si + (t + 1)) * ci) by (nonlinear_arith);
        }
        assert(a * si + si == (a + 1) * si) by (nonlinear_arith);
    }
    assert(data@ =~= want);
    Tensor {
        data,
        shape: tensor::copy_slice(&x.shape),
        requires_grad: x.requires_grad || w.requires_grad,
        grad: None,
    }
}

// ---- The scan

/// The tensors that drive a scan: step sizes, inputs and outputs of the state, the signal, and the
/// decay of the state.
pub struct Scan<S> {
    pub delta: Seq<S>,
    pub b: Seq<S>,
    pub c: Seq<S>,
    pub u: Seq<S>,
    pub a: Seq<S>,
    pub seq: int,
    pub channels: int,
    pub states: int,
}

impl<S: Real> Scan<S> {
    /// A state of a channel after some steps.
    pub open spec fn hidden(self, batch: int, c: int, m: int, t: int) -> S
        decreases t,
    {
        if t <= 0 {
            S::spec_zero()
        } else {
            let row = batch * self.seq + (t - 1);
            let d = self.delta[row * self.channels + c];
            d.spec_times(self.a[c * self.states + m]).spec_exp().spec_times(
                self.hidden(batch, c, m, t - 1),
            ).spec_plus(
                d.spec_times(self.b[row * self.states + m]).spec_times(
                    self.u[row * self.channels + c],
                ),
            )
        }
    }

    /// The output of a channel at a step.
    pub open spec fn observed(self, batch: int, t: int, c: int) -> S {
        number::sum_n(
            |m: int|
                self.c[(batch * self.seq + t) * self.states + m].spec_times(
                    self.hidden(batch, c, m, t + 1),
                ),
            self.states,
        )
    }

    /// The outputs of all channels at all steps.
    pub open spec fn outputs(self, n: nat) -> Seq<S> {
        Seq::new(
            n,
            |i: int|
                self.observed(
                    blas::row_of(blas::row_of(i, self.channels), self.seq),
                    blas::col_of(blas::row_of(i, self.channels), self.seq),
                    blas::col_of(i, self.channels),
                ),
        )
    }
}

/// Two scans have the same decays and the same steps from the first of a sequence on.
pub open spec fn same_steps<S: Real>(x: Scan<S>, y: Scan<S>, batch: int, n: int) -> bool {
    &&& x.a == y.a && x.seq == y.seq && x.channels == y.channels && x.states == y.states
    &&& forall|t: int, c: int|
        #![trigger x.delta[(batch * x.seq + t) * x.channels + c]]
        0 <= t < n && 0 <= c < x.channels ==> {
            let i = (batch * x.seq + t) * x.channels + c;
            x.delta[i] == y.delta[i] && x.u[i] == y.u[i]
        }
    &&& forall|t: int, m: int|
        #![trigger x.b[(batch * x.seq + t) * x.states + m]]
        0 <= t < n && 0 <= m < x.states ==> {
            let i = (batch * x.seq + t) * x.states + m;
            x.b[i] == y.b[i] && x.c[i] == y.c[i]
        }
}

proof fn lemma_hidden_agree<S: Real>(x: Scan<S>, y: Scan<S>, batch: int, c: int, m: int, t: int)
    requires
        same_steps(x, y, batch, t),
        0 <= c < x.channels,
        0 <= m < x.states,
    ensures
        x.hidden(batch, c, m, t) == y.hidden(batch, c, m, t),
    decreases t,
{
    if t > 0 {
        lemma_hidden_agree(x, y, batch, c, m, t - 1);
        let r = batch * x.seq + (t - 1);
        assert(x.delta[r * x.channels + c] == y.delta[r * x.channels + c]);
        assert(x.b[r * x.states + m] == y.b[r * x.states + m]);
    }
}

/// A scan looks back only: the output of a step does not depend on the steps after it.
pub proof fn lemma_scan_looks_back<S: Real>(x: Scan<S>, y: Scan<S>, batch: int, t: int, c: int)
    requires
        0 <= t,
        0 <= c < x.channels,
        same_steps(x, y, batch, t + 1),
    ensures
        x.observed(batch, t, c) == y.observed(batch, t, c),
{
    let f = |m: int|
        x.c[(batch * x.seq + t) * x.states + m].spec_times(x.hidden(batch, c, m, t + 1));
    let g = |m: int|
        y.c[(batch * y.seq + t) * y.states + m].spec_times(y.hidden(batch, c, m, t + 1));
    assert forall|m: int| 0 <= m < x.states implies #[trigger] f(m) == g(m) by {
        lemma_hidden_agree(x, y, batch, c, m, t + 1);
        let i = (batch * x.seq + t) * x.states + m;
        assert(x.b[i] == y.b[i]);
    }
    number::lemma_sum_agree(f, g, x.states);
}

/// The scan of the given tensors.
pub open spec fn scan_of<S: Real>(
    delta: Value<S>,
    b: Value<S>,
    c: Value<S>,
    u: Value<S>,
    a: Value<S>,
) -> Scan<S> {
    Scan {
        delta: delta.data,
        b: b.data,
        c: c.data,
        u: u.data,
        a: a.data,
        seq: u.shape[1] as int,
        channels: u.shape[2] as int,
        states: a.shape[1] as int,
    }
}

/// The outputs of a scan.
pub open spec fn scanned<S: Real>(
    delta: Value<S>,
    b: Value<S>,
    c: Value<S>,
    u: Value<S>,
    a: Value<S>,
) -> Value<S> {
    Value { data: scan_of(delta, b, c, u, a).outputs(u.data.len()), shape: u.shape }
}

/// The shapes of the tensors that drive a scan.
pub open spec fn scan_fits<S>(
    delta: Value<S>,
    b: Value<S>,
    c: Value<S>,
    u: Value<S>,
    a: Value<S>,
) -> bool {
    &&& u.shape.len() == 3
    &&& a.shape.len() == 2
    &&& a.shape[0] == u.shape[2]
    &&& delta.shape == u.shape
    &&& b.shape == seq![u.shape[0], u.shape[1], a.shape[1]]
    &&& c.shape == b.shape
}

/// One step of all states of a channel. Returns the output of the channel.
fn scan_step<S: Real>(
    h: &mut Vec<S>,
    at: usize,
    states: usize,
    d: S,
    x: S,
    a: &[S],
    b: &[S],
    c: &[S],
    row: usize,
    Ghost(scan): Ghost<Scan<S>>,
    Ghost(batch): Ghost<int>,
    Ghost(ch): Ghost<int>,
    Ghost(t): Ghost<int>,
) -> (r: S)
    requires
        scan.states == states,
        scan.a == a@,
        scan.b == b@,
        scan.c == c@,
        at == ch * states,
        0 <= ch,
        0 <= t,
        at + states <= old(h)@.len(),
        old(h)@.len() == a@.len(),
        row == (batch * scan.seq + t) * states,
        row + states <= b@.len(),
        b@.len() == c@.len(),
        d == scan.delta[(batch * scan.seq + t) * scan.channels + ch],
        x == scan.u[(batch * scan.seq + t) * scan.channels + ch],
        forall|m: int|
            0 <= m < states ==> #[trigger] old(h)@[at + m] == scan.hidden(batch, ch, m, t),
    ensures
        final(h)@.len() == old(h)@.len(),
        forall|m: int|
            0 <= m < states ==> #[trigger] final(h)@[at + m] == scan.hidden(batch, ch, m, t + 1),
        forall|p: int|
            0 <= p < old(h)@.len() && !(at <= p < at + states) ==> #[trigger] final(h)@[p]
                == old(h)@[p],
        r == scan.observed(batch, t, ch),
{
    let ghost f = |m: int|
        scan.c[(batch * scan.seq + t) * scan.states + m].spec_times(
            scan.hidden(batch, ch, m, t + 1),
        );
    let hlen: usize = h.len();
    let blen: usize = b.len();
    let mut y = S::zero();
    for m in 0..states
        invariant
            scan.states == states,
            scan.a == a@,
            scan.b == b@,
            scan.c == c@,
            at == ch * states,
            0 <= t,
            hlen == h@.len(),
            hlen == old(h)@.len(),
            hlen == a@.len(),
            at + states <= hlen,
            row == (batch * scan.seq + t) * states,
            row + states <= blen,
            blen == b@.len(),
            blen == c@.len(),
            d == scan.delta[(batch * scan.seq + t) * scan.channels + ch],
            x == scan.u[(batch * scan.seq + t) * scan.channels + ch],
            f == (|m: int|
                scan.c[(batch * scan.seq + t) * scan.states + m].spec_times(
                    scan.hidden(batch, ch, m, t + 1),
                )),
            forall|k: int|
                0 <= k < states ==> #[trigger] h@[at + k] == scan.hidden(
                    batch,
                    ch,
                    k,
                    if k < m {
                        t + 1
                    } else {
                        t
                    },
                ),
            forall|p: int|
                0 <= p < hlen && !(at <= p < at + states) ==> #[trigger] h@[p] == old(h)@[p],
            y == number::sum_n(f, m as int),
    {
        assert(h@[at + m] == scan.hidden(batch, ch, m as int, t));
        let v = d.times(a[at + m]).exp().times(h[at + m]).plus(d.times(b[row + m]).times(x));
        assert(v == scan.hidden(batch, ch, m as int, t + 1));
        let ghost before = h@;
        h.set(at + m, v);
        assert forall|k: int| 0 <= k < states implies #[trigger] h@[at + k] == scan.hidden(
            batch,
            ch,
            k,
            if k < m + 1 {
                t + 1
            } else {
                t
            },
        ) by {
            if k != m {
                assert(h@[at + k] == before[at + k]);
            }
        }
        y = y.plus(c[row + m].times(v));
    }
    y
}

/// The place of a state holds its value after some steps, one more for the first channels.
spec fn state_held<S: Real>(h: Seq<S>, scan: Scan<S>, g: int, k: int, m: int, t: int, q: int) -> bool {
    &&& k < q ==> h[k * scan.states + m] == scan.hidden(g, k, m, t + 1)
    &&& k >= q ==> h[k * scan.states + m] == scan.hidden(g, k, m, t)
}

/// One step of all channels. Appends their outputs.
fn scan_row<S: Real>(
    h: &mut Vec<S>,
    data: &mut Vec<S>,
    delta: &[S],
    b: &[S],
    c: &[S],
    u: &[S],
    a: &[S],
    row: usize,
    ch: usize,
    n: usize,
    Ghost(scan): Ghost<Scan<S>>,
    Ghost(g): Ghost<int>,
    Ghost(t): Ghost<int>,
)
    requires
        scan == (Scan {
            delta: delta@,
            b: b@,
            c: c@,
            u: u@,
            a: a@,
            seq: scan.seq,
            channels: ch as int,
            states: n as int,
        }),
        0 <= t,
        row == g * scan.seq + t,
        old(h)@.len() == ch * n,
        a@.len() == ch * n,
        delta@.len() == u@.len(),
        b@.len() == c@.len(),
        row * ch + ch <= u@.len(),
        row * n + n <= b@.len(),
        forall|k: int, m: int|
            0 <= k < ch && 0 <= m < n ==> #[trigger] state_held(old(h)@, scan, g, k, m, t, 0),
    ensures
        final(h)@.len() == old(h)@.len(),
        forall|k: int, m: int|
            0 <= k < ch && 0 <= m < n ==> #[trigger] state_held(final(h)@, scan, g, k, m, t + 1, 0),
        final(data)@ == old(data)@ + Seq::new(ch as nat, |q: int| scan.observed(g, t, q)),
{
    let ghost (ci, ni) = (ch as int, n as int);
    let ulen: usize = u.len();
    let blen: usize = b.len();
    let hlen: usize = h.len();
    assert(0 <= row * ci && 0 <= row * ni) by (nonlinear_arith)
        requires
            0 <= ci,
            0 <= ni,
    ;
    assert forall|k: int, m: int| 0 <= k < ci && 0 <= m < ni implies #[trigger] state_held(
        h@,
        scan,
        g,
        k,
        m,
        t,
        0,
    ) by {}
    let mut q: usize = 0;
    while q < ch
        invariant
            q <= ch,
            ci == ch,
            ni == n,
            scan == (Scan {
                delta: delta@,
                b: b@,
                c: c@,
                u: u@,
                a: a@,
                seq: scan.seq,
                channels: ch as int,
                states: n as int,
            }),
            0 <= t,
            row == g * scan.seq + t,
            h@.len() == hlen,
            hlen == ci * ni,
            a@.len() == hlen,
            ulen == delta@.len(),
            ulen == u@.len(),
            blen == b@.len(),
            blen == c@.len(),
            0 <= row * ci,
            0 <= row * ni,
            row * ci + ci <= ulen,
            row * ni + ni <= blen,
            forall|k: int, m: int|
                0 <= k < ci && 0 <= m < ni ==> #[trigger] state_held(
                    h@,
                    scan,
                    g,
                    k,
                    m,
                    t,
                    q as int,
                ),
            data@ =~= old(data)@ + Seq::new(q as nat, |i: int| scan.observed(g, t, i)),
        decreases ch - q,
    {
        proof {
            nn::lemma_row_in(q as int, ci, ni, ci * ni);
        }
        let ghost before = h@;
        let at: usize = q * n;
        assert forall|m: int| 0 <= m < n implies #[trigger] h@[at + m] == scan.hidden(
            g,
            q as int,
            m,
            t,
        ) by {
            assert(state_held(h@, scan, g, q as int, m, t, q as int));
        }
        let y = scan_step(
            h,
            at,
            n,
            delta[row * ch + q],
            u[row * ch + q],
            a,
            b,
            c,
            row * n,
            Ghost(scan),
            Ghost(g),
            Ghost(q as int),
            Ghost(t),
        );
        data.push(y);
        assert forall|k: int, m: int| 0 <= k < ci && 0 <= m < ni implies #[trigger] state_held(
            h@,
            scan,
            g,
            k,
            m,
            t,
            q + 1,
        ) by {
            lemma_apart(k, m, q as int, ci, ni);
            if k == q {
                assert(h@[at + m] == scan.hidden(g, k, m, t + 1));
            } else {
                assert(h@[k * ni + m] == before[k * ni + m]);
                assert(state_held(before, scan, g, k, m, t, q as int));
            }
        }
        q += 1;
    }
    assert forall|k: int, m: int| 0 <= k < ch && 0 <= m < n implies #[trigger] state_held(
        h@,
        scan,
        g,
        k,
        m,
        t + 1,
        0,
    ) by {
        assert(state_held(h@, scan, g, k, m, t, ch as int));
    }
}

/// Runs the states of each channel along the steps: each decays by the exponential of the step
/// size times its decay, and takes in the signal.
pub fn selective_scan<S: Real>(
    delta: &Tensor<S>,
    b: &Tensor<S>,
    c: &Tensor<S>,
    u: &Tensor<S>,
    a: &Tensor<S>,
) -> (r: Tensor<S>)
    requires
        delta.wf(),
        b.wf(),
        c.wf(),
        u.wf(),
        a.wf(),
        scan_fits(delta@, b@, c@, u@, a@),
    ensures
        r.wf(),
        r@ == scanned(delta@, b@, c@, u@, a@),
        r.requires_grad == (delta.requires_grad || b.requires_grad || c.requires_grad
            || u.requires_grad || a.requires_grad),
{
    let nb: usize = u.shape[0];
    let s: usize = u.shape[1];
    let ch: usize = u.shape[2];
    let n: usize = a.shape[1];
    let ghost (bi, si, ci, ni) = (nb as int, s as int, ch as int, n as int);
    let ghost scan = scan_of(delta@, b@, c@, u@, a@);
    let ghost want = scan.outputs(u.data@.len());
    proof {
        assert(u.shape@ =~= seq![nb, s, ch]);
        assert(a.shape@ =~= seq![ch, n]);
        reveal_with_fuel(tensor::countable, 3);
        assert(u.shape@.drop_last() =~= seq![nb, s]);
        assert(b.shape@.drop_last() =~= seq![nb, s]);
        tensor::lemma_volume_two(nb, s);
        nn::lemma_volume_three(nb, s, ch);
        nn::lemma_volume_three(nb, s, n);
        tensor::lemma_volume_two(ch, n);
        assert(0 * si == 0) by (nonlinear_arith);
        assert(0 * ci == 0) by (nonlinear_arith);
    }
    let alen: usize = a.data.len();
    let mut data: Vec<S> = Vec::new();
    for g in 0..nb
        invariant
            bi == nb,
            si == s,
            ci == ch,
            ni == n,
            bi * si <= usize::MAX,
            alen == ci * ni,
            alen == a.data@.len(),
            u.data@.len() == (bi * si) * ci,
            delta.data@.len() == u.data@.len(),
            b.data@.len() == (bi * si) * ni,
            c.data@.len() == b.data@.len(),
            scan == (Scan {
                delta: delta.data@,
                b: b.data@,
                c: c.data@,
                u: u.data@,
                a: a.data@,
                seq: si,
                channels: ci,
                states: ni,
            }),
            want == scan.outputs(u.data@.len()),
            data@ =~= want.take((g * si) * ci),
    {
        proof {
            nn::lemma_row_in(g as int, bi, si, bi * si);
        }
        let mut h = filled(S::zero(), alen);
        assert forall|k: int, m: int| 0 <= k < ci && 0 <= m < ni implies #[trigger] state_held(
            h@,
            scan,
            g as int,
            k,
            m,
            0,
            0,
        ) by {
            lemma_apart(k, m, k, ci, ni);
        }
        let mut t: usize = 0;
        while t < s
            invariant
                t <= s,
                bi == nb,
                si == s,
                ci == ch,
                ni == n,
                g < nb,
                0 <= g * si,
                g * si + si <= bi * si,
                bi * si <= usize::MAX,
                alen == ci * ni,
                alen == a.data@.len(),
                u.data@.len() == (bi * si) * ci,
                delta.data@.len() == u.data@.len(),
                b.data@.len() == (bi * si) * ni,
                c.data@.len() == b.data@.len(),
                scan == (Scan {
                    delta: delta.data@,
                    b: b.data@,
                    c: c.data@,
                    u: u.data@,
                    a: a.data@,
                    seq: si,
                    channels: ci,
                    states: ni,
                }),
                want == scan.outputs(u.data@.len()),
                data@ =~= want.take((g * si + t) * ci),
                h@.len() == alen,
                forall|k: int, m: int|
                    0 <= k < ci && 0 <= m < ni ==> #[trigger] state_held(
                        h@,
                        scan,
                        g as int,
                        k,
                        m,
                        t as int,
                        0,
                    ),
            decreases s - t,
        {
            let row: usize = g * s + t;
            proof {
                nn::lemma_row_in(row as int, bi * si, ci, (bi * si) * ci);
                nn::lemma_row_in(row as int, bi * si, ni, (bi * si) * ni);
                blas::lemma_cell(g as int, t as int, si);
            }
            let ghost before = data@;
            scan_row(
                &mut h,
                &mut data,
                &delta.data,
                &b.data,
                &c.data,
                &u.data,
                &a.data,
                row,
                ch,
                n,
                Ghost(scan),
                Ghost(g as int),
                Ghost(t as int),
            );
            proof {
                assert(row * ci + ci == (row + 1) * ci) by (nonlinear_arith);
                assert forall|i: int| 0 <= i < (row + 1) * ci implies #[trigger] data@[i]
                    == want[i] by {
                    if i < row * ci {
                        assert(data@[i] == before[i]);
                    } else {
                        blas::lemma_cell(row as int, i - row * ci, ci);
                    }
                }
            }
            t += 1;
        }
        assert(g * si + si == (g + 1) * si) by (nonlinear_arith);
    }
    assert(data@ =~= want);
    Tensor {
        data,
        shape: tensor::copy_slice(&u.shape),
        requires_grad: delta.requires_grad || b.requires_grad || c.requires_grad
            || u.requires_grad || a.requires_grad,
        grad: None,
    }
}

/// The states of different channels lie apart.
proof fn lemma_apart(k: int, m: int, q: int, channels: int, n: int)
    requires
        0 <= k < channels,
        0 <= m < n,
        0 <= q < channels,
    ensures
        0 <= k * n + m < channels * n,
        k != q ==> !(q * n <= k * n + m < q * n + n),
{
    nn::lemma_row_in(k, channels, n, channels * n);
    if k < q {
        assert(k * n + n <= q * n) by (nonlinear_arith)
            requires
                k < q,
                0 <= n,
        ;
    } else if q < k {
        assert(q * n + n <= k * n) by (nonlinear_arith)
            requires
                q < k,
                0 <= n,
        ;
    }
}

// ---- Blocks

/// A selective state space block: a projection, a convolution, a scan and a gate.
#[derive(Debug, Clone)]
pub struct MambaBlock<S> {
    pub d_model: usize,
    pub d_inner: usize,
    pub d_state: usize,
    pub kernel_size: usize,
    pub in_proj_x: Linear<S>,
    pub in_proj_z: Linear<S>,
    pub conv_weight: Tensor<S>,
    pub a: Tensor<S>,
    pub proj_delta: Linear<S>,
    pub proj_b: Linear<S>,
    pub proj_c: Linear<S>,
    pub out_proj: Linear<S>,
}

/// Decays that grow with the number of the state.
pub open spec fn first_decays<S: Real>(d_inner: usize, d_state: usize) -> Value<S> {
    Value {
        data: Seq::new(
            (d_inner * d_state) as nat,
            |i: int|
                S::spec_count((i % (d_state as int) + 1) as usize).spec_neg().spec_times(
                    optim::ratio(1, 2),
                ),
        ),
        shape: seq![d_inner, d_state],
    }
}

/// Weights by which a convolution takes the last step alone.
pub open spec fn last_taps<S: Real>(d_inner: usize, kernel_size: usize) -> Value<S> {
    Value {
        data: Seq::new(
            (d_inner * kernel_size) as nat,
            |i: int|
                if i % (kernel_size as int) == kernel_size - 1 {
                    S::spec_one()
                } else {
                    S::spec_zero()
                },
        ),
        shape: seq![d_inner, kernel_size],
    }
}

impl<S: Real> MambaBlock<S> {
    /// The number of weights that are drawn.
    pub open spec fn size(d_model: int, d_inner: int, d_state: int) -> int {
        d_inner * d_model + d_inner * d_model + d_inner * d_inner + d_state * d_inner + d_state
            * d_inner + d_model * d_inner
    }

    /// The block as drawn.
    pub open spec fn drawn(
        &self,
        d_model: usize,
        d_state: usize,
        expand: usize,
        kernel_size: usize,
        draws: Seq<S>,
        at: int,
    ) -> bool {
        let n = (expand * d_model) as usize;
        let b = at + n * d_model;
        let c = b + n * d_model;
        let d = c + n * n;
        let e = d + d_state * n;
        let f = e + d_state * n;
        &&& self.d_model == d_model
        &&& self.d_inner == n
        &&& self.d_state == d_state
        &&& self.kernel_size == kernel_size
        &&& nn::drawn_linear(self.in_proj_x, d_model, n, true, draws, at)
        &&& nn::drawn_linear(self.in_proj_z, d_model, n, true, draws, b)
        &&& self.conv_weight@ == last_taps::<S>(n, kernel_size)
        &&& self.conv_weight.requires_grad
        &&& self.a@ == first_decays::<S>(n, d_state)
        &&& self.a.requires_grad
        &&& nn::drawn_linear(self.proj_delta, n, n, true, draws, c)
        &&& nn::drawn_linear(self.proj_b, n, d_state, true, draws, d)
        &&& nn::drawn_linear(self.proj_c, n, d_state, true, draws, e)
        &&& nn::drawn_linear(self.out_proj, n, d_model, true, draws, f)
    }

    pub fn new(
        d_model: usize,
        d_state: usize,
        expand: usize,
        kernel_size: usize,
        draws: &mut Draws<S>,
    ) -> (r: Self)
        requires
            expand * d_model <= usize::MAX,
            expand * d_model > 0 ==> kernel_size > 0,
            (expand * d_model) * d_state <= usize::MAX,
            (expand * d_model) * kernel_size <= usize::MAX,
            old(draws).wf(),
            Self::size(d_model as int, expand * d_model, d_state as int) <= old(draws).left(),
        ensures
            old(draws).taken(
                final(draws),
                Self::size(d_model as int, expand * d_model, d_state as int),
            ),
            r.drawn(
                d_model,
                d_state,
                expand,
                kernel_size,
                old(draws).values@,
                old(draws).next as int,
            ),
            r.wf(),
    {
        let ghost n = expand * d_model;
        proof {
            assert(0 <= n) by (nonlinear_arith)
                requires
                    n == expand * d_model,
            ;
            assert(0 <= n * d_model && 0 <= n * n && 0 <= d_state * n && 0 <= d_model * n && 0 <= n
                * d_state && 0 <= n * kernel_size) by (nonlinear_arith)
                requires
                    0 <= n,
            ;
        }
        let d_inner: usize = expand * d_model;
        let states: usize = d_inner * d_state;
        let mut a_data: Vec<S> = Vec::new();
        for i in 0..states
            invariant
                states == d_inner * d_state,
                a_data@ =~= first_decays::<S>(d_inner, d_state).data.take(i as int),
        {
            proof {
                if d_state == 0 {
                    assert(d_inner * 0 == 0) by (nonlinear_arith);
                }
            }
            let k: usize = i % d_state;
            a_data.push(S::count(k + 1).neg().times(fraction(1, 2)));
        }
        assert(a_data@ =~= first_decays::<S>(d_inner, d_state).data);
        let taps: usize = d_inner * kernel_size;
        let mut conv_data: Vec<S> = Vec::new();
        for i in 0..taps
            invariant
                taps == d_inner * kernel_size,
                conv_data@ =~= last_taps::<S>(d_inner, kernel_size).data.take(i as int),
        {
            proof {
                if kernel_size == 0 {
                    assert(d_inner * 0 == 0) by (nonlinear_arith);
                }
            }
            if i % kernel_size == kernel_size - 1 {
                conv_data.push(S::one());
            } else {
                conv_data.push(S::zero());
            }
        }
        assert(conv_data@ =~= last_taps::<S>(d_inner, kernel_size).data);
        let a_shape: Vec<usize> = vec![d_inner, d_state];
        let c_shape: Vec<usize> = vec![d_inner, kernel_size];
        proof {
            assert(a_shape@ =~= seq![d_inner, d_state]);
            assert(c_shape@ =~= seq![d_inner, kernel_size]);
            tensor::lemma_volume_two(d_inner, d_state);
            tensor::lemma_volume_two(d_inner, kernel_size);
        }
        let a = Tensor::new(a_data, a_shape, true);
        let conv_weight = Tensor::new(conv_data, c_shape, true);
        let in_proj_x = Linear::new(d_model, d_inner, true, draws);
        let in_proj_z = Linear::new(d_model, d_inner, true, draws);
        let proj_delta = Linear::new(d_inner, d_inner, true, draws);
        let proj_b = Linear::new(d_inner, d_state, true, draws);
        let proj_c = Linear::new(d_inner, d_state, true, draws);
        let out_proj = Linear::new(d_inner, d_model, true, draws);
        MambaBlock {
            d_model,
            d_inner,
            d_state,
            kernel_size,
            in_proj_x,
            in_proj_z,
            conv_weight,
            a,
            proj_delta,
            proj_b,
            proj_c,
            out_proj,
        }
    }

    /// The signal of the state space.
    pub open spec fn signal(&self, x: Value<S>) -> Value<S> {
        activations::pointwise(
            Pointwise::Silu,
            convolved(self.in_proj_x.output(x), self.conv_weight@),
        )
    }

    /// The outputs of the state space.
    pub open spec fn scan(&self, x: Value<S>) -> Value<S> {
        let u = self.signal(x);
        scanned(
            activations::pointwise(Pointwise::Softplus, self.proj_delta.output(u)),
            self.proj_b.output(u),
            self.proj_c.output(u),
            u,
            self.a@,
        )
    }

    /// The outputs of the state space, each times its activation.
    pub open spec fn gated(&self, x: Value<S>) -> Value<S> {
        tensor::zipped(
            Op::Mul,
            self.scan(x),
            activations::pointwise(Pointwise::Silu, self.in_proj_z.output(x)),
        )
    }
}

impl<S: Real> Module<S> for MambaBlock<S> {
    open spec fn wf(&self) -> bool {
        &&& self.in_proj_x.wf()
        &&& self.in_proj_z.wf()
        &&& self.conv_weight.wf()
        &&& self.a.wf()
        &&& self.proj_delta.wf()
        &&& self.proj_b.wf()
        &&& self.proj_c.wf()
        &&& self.out_proj.wf()
        &&& self.in_proj_x.weight@.shape[0] == self.d_inner
        &&& self.in_proj_z.weight@.shape[0] == self.d_inner
        &&& self.conv_weight@.shape == seq![self.d_inner, self.kernel_size]
        &&& self.a@.shape == seq![self.d_inner, self.d_state]
        &&& self.proj_delta.weight@.shape[0] == self.d_inner
        &&& self.proj_b.weight@.shape[0] == self.d_state
        &&& self.proj_c.weight@.shape[0] == self.d_state
    }

    open spec fn accepts(&self, x: Value<S>) -> bool {
        let u = self.signal(x);
        &&& x.shape.len() == 3
        &&& self.in_proj_x.accepts(x)
        &&& self.in_proj_z.accepts(x)
        &&& self.proj_delta.accepts(u)
        &&& self.proj_b.accepts(u)
        &&& self.proj_c.accepts(u)
        &&& self.out_proj.accepts(self.gated(x))
    }

    open spec fn output(&self, x: Value<S>) -> Value<S> {
        self.out_proj.output(self.gated(x))
    }

    open spec fn values(&self) -> Seq<Value<S>> {
        self.in_proj_x.values() + self.in_proj_z.values() + seq![self.conv_weight@, self.a@]
            + self.proj_delta.values() + self.proj_b.values() + self.proj_c.values()
            + self.out_proj.values()
    }

    open spec fn switched(&self, new: &Self, training: bool) -> bool {
        *new == *self
    }

    fn forward(&self, input: &Tensor<S>) -> (r: Tensor<S>) {
        let x = self.in_proj_x.forward(input);
        let z = self.in_proj_z.forward(input);
        proof {
            nn::lemma_linear_shape(self.in_proj_x, input@);
            nn::lemma_linear_shape(self.in_proj_z, input@);
            assert(x@.shape =~= seq![input@.shape[0], input@.shape[1], self.d_inner]);
            assert(z@.shape =~= x@.shape);
        }
        let x_conv = conv1d_causal(&x, &self.conv_weight);
        let x_act = apply(Pointwise::Silu, &x_conv);
        proof {
            nn::lemma_linear_shape(self.proj_delta, x_act@);
            nn::lemma_linear_shape(self.proj_b, x_act@);
            nn::lemma_linear_shape(self.proj_c, x_act@);
        }
        let delta = apply(Pointwise::Softplus, &self.proj_delta.forward(&x_act));
        let b_vec = self.proj_b.forward(&x_act);
        let c_vec = self.proj_c.forward(&x_act);
        proof {
            assert(delta@.shape =~= x_act@.shape);
            assert(b_vec@.shape =~= seq![input@.shape[0], input@.shape[1], self.d_state]);
            assert(c_vec@.shape =~= b_vec@.shape);
        }
        let y = selective_scan(&delta, &b_vec, &c_vec, &x_act, &self.a);
        let gate = apply(Pointwise::Silu, &z);
        proof {
            tensor::lemma_zip_same_shape(Op::Mul, y@, gate@);
        }
        let y_gated = y.mul(&gate);
        self.out_proj.forward(&y_gated)
    }

    fn parameters(&self) -> (r: Vec<Tensor<S>>) {
        let mut p = self.in_proj_x.parameters();
        let ghost mut so_far = self.in_proj_x.values();
        let more = self.in_proj_z.parameters();
        nn::push_tensors(&mut p, more, Ghost(so_far), Ghost(self.in_proj_z.values()));
        proof {
            so_far = so_far + self.in_proj_z.values();
        }
        let more: Vec<Tensor<S>> = vec![self.conv_weight.duplicate(), self.a.duplicate()];
        let ghost own = seq![self.conv_weight@, self.a@];
        nn::push_tensors(&mut p, more, Ghost(so_far), Ghost(own));
        proof {
            so_far = so_far + own;
        }
        let more = self.proj_delta.parameters();
        nn::push_tensors(&mut p, more, Ghost(so_far), Ghost(self.proj_delta.values()));
        proof {
            so_far = so_far + self.proj_delta.values();
        }
        let more = self.proj_b.parameters();
        nn::push_tensors(&mut p, more, Ghost(so_far), Ghost(self.proj_b.values()));
        proof {
            so_far = so_far + self.proj_b.values();
        }
        let more = self.proj_c.parameters();
        nn::push_tensors(&mut p, more, Ghost(so_far), Ghost(self.proj_c.values()));
        proof {
            so_far = so_far + self.proj_c.values();
        }
        let more = self.out_proj.parameters();
        nn::push_tensors(&mut p, more, Ghost(so_far), Ghost(self.out_proj.values()));
        p
    }

    fn set_training(&mut self, training: bool) {
    }
}

// ---- Stacks

/// A tensor after some blocks, each of which adds to it.
pub open spec fn carried<S: Real, M: Module<S>>(blocks: Seq<M>, x: Value<S>, n: int) -> Value<S>
    decreases n,
{
    if n <= 0 {
        x
    } else {
        let before = carried(blocks, x, n - 1);
        tensor::zipped(Op::Add, before, blocks[n - 1].output(before))
    }
}

/// Each block can be applied, and its output added.
pub open spec fn carries<S: Real, M: Module<S>>(blocks: Seq<M>, x: Value<S>) -> bool {
    forall|i: int|
        0 <= i < blocks.len() ==> {
            let before = carried(blocks, x, i);
            (#[trigger] blocks[i]).accepts(before) && tensor::zips(
                before,
                blocks[i].output(before),
            )
        }
}

/// Applies blocks, each of which adds to the tensor.
fn carry<S: Real, M: Module<S>>(blocks: &[M], input: &Tensor<S>) -> (r: Tensor<S>)
    requires
        nn::all_wf::<S, M>(blocks@),
        input.wf(),
        carries(blocks@, input@),
    ensures
        r.wf(),
        r@ == carried(blocks@, input@, blocks@.len() as int),
{
    let mut x = input.duplicate();
    for i in 0..blocks.len()
        invariant
            nn::all_wf::<S, M>(blocks@),
            carries(blocks@, input@),
            x.wf(),
            x@ == carried(blocks@, input@, i as int),
    {
        let out = blocks[i].forward(&x);
        x = x.add(&out);
    }
    x
}

/// A stack of selective state space blocks.
#[derive(Debug, Clone)]
pub struct Mamba<S> {
    pub blocks: Vec<MambaBlock<S>>,
    pub d_model: usize,
}

impl<S: Real> Mamba<S> {
    pub fn new(
        d_model: usize,
        d_state: usize,
        expand: usize,
        kernel_size: usize,
        num_layers: usize,
        draws: &mut Draws<S>,
    ) -> (r: Self)
        requires
            num_layers > 0 ==> {
                &&& expand * d_model <= usize::MAX
                &&& expand * d_model > 0 ==> kernel_size > 0
                &&& (expand * d_model) * d_state <= usize::MAX
                &&& (expand * d_model) * kernel_size <= usize::MAX
            },
            old(draws).wf(),
            num_layers * MambaBlock::<S>::size(d_model as int, expand * d_model, d_state as int)
                <= old(draws).left(),
        ensures
            old(draws).taken(
                final(draws),
                num_layers * MambaBlock::<S>::size(
                    d_model as int,
                    expand * d_model,
                    d_state as int,
                ),
            ),
            r.d_model == d_model,
            r.blocks@.len() == num_layers,
            forall|i: int|
                0 <= i < num_layers ==> (#[trigger] r.blocks@[i]).drawn(
                    d_model,
                    d_state,
                    expand,
                    kernel_size,
                    old(draws).values@,
                    old(draws).next + i * MambaBlock::<S>::size(
                        d_model as int,
                        expand * d_model,
                        d_state as int,
                    ),
                ),
            r.wf(),
    {
        let ghost e = MambaBlock::<S>::size(d_model as int, expand * d_model, d_state as int);
        let ghost first = *draws;
        proof {
            let n = expand * d_model;
            assert(0 <= n) by (nonlinear_arith)
                requires
                    n == expand * d_model,
            ;
            assert(0 <= n * d_model && 0 <= n * n && 0 <= d_state * n && 0 <= d_model * n)
                by (nonlinear_arith)
                requires
                    0 <= n,
            ;
            assert(0 * e == 0) by (nonlinear_arith);
        }
        let mut blocks: Vec<MambaBlock<S>> = Vec::new();
        for i in 0..num_layers
            invariant
                num_layers > 0 ==> {
                    &&& expand * d_model <= usize::MAX
                    &&& expand * d_model > 0 ==> kernel_size > 0
                    &&& (expand * d_model) * d_state <= usize::MAX
                    &&& (expand * d_model) * kernel_size <= usize::MAX
                },
                0 <= e == MambaBlock::<S>::size(d_model as int, expand * d_model, d_state as int),
                num_layers * e <= first.left(),
                first.taken(draws, i * e),
                blocks@.len() == i,
                nn::all_wf::<S, MambaBlock<S>>(blocks@),
                forall|k: int|
                    0 <= k < i ==> (#[trigger] blocks@[k]).drawn(
                        d_model,
                        d_state,
                        expand,
                        kernel_size,
                        first.values@,
                        first.next + k * e,
                    ),
        {
            proof {
                assert(i * e + e <= num_layers * e && 0 <= i * e && i * e + e == (i + 1) * e)
                    by (nonlinear_arith)
                    requires
                        i < num_layers,
                        0 <= e,
                ;
            }
            blocks.push(MambaBlock::new(d_model, d_state, expand, kernel_size, draws));
        }
        Mamba { blocks, d_model }
    }
}

impl<S: Real> Module<S> for Mamba<S> {
    open spec fn wf(&self) -> bool {
        nn::all_wf::<S, MambaBlock<S>>(self.blocks@)
    }

    open spec fn accepts(&self, x: Value<S>) -> bool {
        carries(self.blocks@, x)
    }

    open spec fn output(&self, x: Value<S>) -> Value<S> {
        carried(self.blocks@, x, self.blocks@.len() as int)
    }

    open spec fn values(&self) -> Seq<Value<S>> {
        nn::layer_values(self.blocks@, self.blocks@.len() as int)
    }

    open spec fn switched(&self, new: &Self, training: bool) -> bool {
        *new == *self
    }

    fn forward(&self, input: &Tensor<S>) -> (r: Tensor<S>) {
        carry(&self.blocks, input)
    }

    fn parameters(&self) -> (r: Vec<Tensor<S>>) {
        let mut p: Vec<Tensor<S>> = Vec::new();
        nn::push_experts(&mut p, &self.blocks, Ghost(Seq::empty()));
        assert(Seq::<Value<S>>::empty() + self.values() =~= self.values());
        p
    }

    fn set_training(&mut self, training: bool) {
    }
}

/// A block of a mixed stack.
#[derive(Debug, Clone)]
pub enum HybridBlock<S> {
    Mamba(MambaBlock<S>),
    Attention(MultiHeadAttention<S>),
    Transformer(TransformerBlock<S>),
    Layers(Sequential<Layer<S>>),
}

impl<S: Real> Module<S> for HybridBlock<S> {
    open spec fn wf(&self) -> bool {
        match self {
            HybridBlock::Mamba(m) => m.wf(),
            HybridBlock::Attention(m) => m.wf(),
            HybridBlock::Transformer(m) => m.wf(),
            HybridBlock::Layers(m) => m.wf(),
        }
    }

    open spec fn accepts(&self, x: Value<S>) -> bool {
        match self {
            HybridBlock::Mamba(m) => m.accepts(x),
            HybridBlock::Attention(m) => m.accepts(x),
            HybridBlock::Transformer(m) => m.accepts(x),
            HybridBlock::Layers(m) => m.accepts(x),
        }
    }

    open spec fn output(&self, x: Value<S>) -> Value<S> {
        match self {
            HybridBlock::Mamba(m) => m.output(x),
            HybridBlock::Attention(m) => m.output(x),
            HybridBlock::Transformer(m) => m.output(x),
            HybridBlock::Layers(m) => m.output(x),
        }
    }

    open spec fn values(&self) -> Seq<Value<S>> {
        match self {
            HybridBlock::Mamba(m) => m.values(),
            HybridBlock::Attention(m) => m.values(),
            HybridBlock::Transformer(m) => m.values(),
            HybridBlock::Layers(m) => m.values(),
        }
    }

    open spec fn switched(&self, new: &Self, training: bool) -> bool {
        match (self, new) {
            (HybridBlock::Layers(a), HybridBlock::Layers(b)) => <Sequential<Layer<S>> as Module<
                S,
            >>::switched(a, b, training),
            _ => *new == *self && self !is Layers,
        }
    }

    fn forward(&self, input: &Tensor<S>) -> (r: Tensor<S>) {
        match self {
            HybridBlock::Mamba(m) => m.forward(input),
            HybridBlock::Attention(m) => m.forward(input),
            HybridBlock::Transformer(m) => m.forward(input),
            HybridBlock::Layers(m) => m.forward(input),
        }
    }

    fn parameters(&self) -> (r: Vec<Tensor<S>>) {
        match self {
            HybridBlock::Mamba(m) => m.parameters(),
            HybridBlock::Attention(m) => m.parameters(),
            HybridBlock::Transformer(m) => m.parameters(),
            HybridBlock::Layers(m) => m.parameters(),
        }
    }

    fn set_training(&mut self, training: bool) {
        match self {
            HybridBlock::Layers(m) => {
                <Sequential<Layer<S>> as Module<S>>::set_training(m, training);
            },
            _ => {},
        }
    }
}

/// A stack of blocks in any order, each of which adds to the tensor.
#[derive(Debug, Clone)]
pub struct HybridMamba<M> {
    pub blocks: Vec<M>,
    pub d_model: usize,
}

impl<M> HybridMamba<M> {
    pub fn new(d_model: usize) -> (r: Self)
        ensures
            r.blocks@ == Seq::<M>::empty(),
            r.d_model == d_model,
    {
        HybridMamba { blocks: Vec::new(), d_model }
    }

    /// The stack with one more block at its end.
    pub fn with_block(self, block: M) -> (r: Self)
        ensures
            r.blocks@ == self.blocks@.push(block),
            r.d_model == self.d_model,
    {
        let mut blocks = self.blocks;
        blocks.push(block);
        HybridMamba { blocks, d_model: self.d_model }
    }

    /// The same as [`HybridMamba::with_block`].
    pub fn with_layer(self, layer: M) -> (r: Self)
        ensures
            r.blocks@ == self.blocks@.push(layer),
            r.d_model == self.d_model,
    {
        self.with_block(layer)
    }
}

impl<S: Real> HybridMamba<HybridBlock<S>> {
    /// The stack with one more selective state space block at its end.
    pub fn with_mamba(
        self,
        d_state: usize,
        expand: usize,
        kernel_size: usize,
        draws: &mut Draws<S>,
    ) -> (r: Self)
        requires
            expand * self.d_model <= usize::MAX,
            expand * self.d_model > 0 ==> kernel_size > 0,
            (expand * self.d_model) * d_state <= usize::MAX,
            (expand * self.d_model) * kernel_size <= usize::MAX,
            old(draws).wf(),
            MambaBlock::<S>::size(self.d_model as int, expand * self.d_model, d_state as int)
                <= old(draws).left(),
        ensures
            old(draws).taken(
                final(draws),
                MambaBlock::<S>::size(self.d_model as int, expand * self.d_model, d_state as int),
            ),
            r.d_model == self.d_model,
            r.blocks@.len() == self.blocks@.len() + 1,
            r.blocks@.drop_last() == self.blocks@,
            r.blocks@.last() matches HybridBlock::Mamba(m) && m.wf() && m.drawn(
                self.d_model,
                d_state,
                expand,
                kernel_size,
                old(draws).values@,
                old(draws).next as int,
            ),
    {
        let block = MambaBlock::new(self.d_model, d_state, expand, kernel_size, draws);
        let ghost before = self.blocks@;
        let r = self.with_block(HybridBlock::Mamba(block));
        assert(r.blocks@.drop_last() =~= before);
        r
    }
}

impl<S: Real, M: Module<S>> Module<S> for HybridMamba<M> {
    open spec fn wf(&self) -> bool {
        nn::all_wf::<S, M>(self.blocks@)
    }

    open spec fn accepts(&self, x: Value<S>) -> bool {
        carries(self.blocks@, x)
    }

    open spec fn output(&self, x: Value<S>) -> Value<S> {
        carried(self.blocks@, x, self.blocks@.len() as int)
    }

    open spec fn values(&self) -> Seq<Value<S>> {
        nn::layer_values(self.blocks@, self.blocks@.len() as int)
    }

    open spec fn switched(&self, new: &Self, training: bool) -> bool {
        *new == *self
    }

    fn forward(&self, input: &Tensor<S>) -> (r: Tensor<S>) {
        carry(&self.blocks, input)
    }

    fn parameters(&self) -> (r: Vec<Tensor<S>>) {
        let mut p: Vec<Tensor<S>> = Vec::new();
        nn::push_experts(&mut p, &self.blocks, Ghost(Seq::empty()));
        assert(Seq::<Value<S>>::empty() + self.values() =~= self.values());
        p
    }

    fn set_training(&mut self, training: bool) {
    }
}

} // verus!
