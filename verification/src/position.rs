//! Encodings of positions in sequences: rotations, linear biases and tables to add.
use vstd::prelude::*;
use crate::blas;
use crate::nn;
use crate::nn::Draws;
use crate::number;
use crate::number::Real;
use crate::optim;
use crate::optim::fraction;
use crate::tensor;
use crate::tensor::{copy_slice, Op, Tensor, Value};

verus! {

// ---- Frequencies and tables

/// The frequency of a pair of dimensions.
pub open spec fn frequency<S: Real>(head_dim: usize, base: S, i: int) -> S {
    base.spec_powf(
        S::spec_count(2).spec_times(S::spec_count(i as usize)).spec_neg().spec_over(
            S::spec_count(head_dim),
        ),
    )
}

/// The frequencies of all pairs of dimensions.
pub open spec fn frequencies<S: Real>(head_dim: usize, base: S) -> Seq<S> {
    Seq::new((head_dim / 2) as nat, |i: int| frequency(head_dim, base, i))
}

/// The base that stretches the low frequencies to a longer context.
pub open spec fn stretched<S: Real>(head_dim: usize, base: S, scale: S) -> S {
    base.spec_times(
        scale.spec_powf(
            S::spec_count(head_dim).spec_over(S::spec_count((head_dim - 2) as usize)),
        ),
    )
}

fn inv_freq<S: Real>(head_dim: usize, base: S) -> (r: Vec<S>)
    ensures
        r@ == frequencies(head_dim, base),
{
    let half: usize = head_dim / 2;
    let mut v: Vec<S> = Vec::new();
    for i in 0..half
        invariant
            half == head_dim / 2,
            v@ =~= frequencies(head_dim, base).take(i as int),
    {
        v.push(base.powf(S::count(2).times(S::count(i)).neg().over(S::count(head_dim))));
    }
    v
}

fn inv_freq_yarn<S: Real>(head_dim: usize, base: S, scale: S) -> (r: Vec<S>)
    requires
        head_dim >= 2,
    ensures
        r@ == frequencies(head_dim, stretched(head_dim, base, scale)),
{
    let effective = base.times(scale.powf(S::count(head_dim).over(S::count(head_dim - 2))));
    inv_freq(head_dim, effective)
}

/// The dimension that a dimension shares its angle with, in the lower half.
pub open spec fn folded(c: int, half: int) -> int {
    if c < half {
        c
    } else {
        c - half
    }
}

/// A table with a row for each position, each angle in it twice.
pub open spec fn doubled<S: Real>(angles: Seq<S>, seq: int, half: int, f: spec_fn(S) -> S) -> Seq<S> {
    Seq::new(
        (seq * (2 * half)) as nat,
        |x: int|
            f(
                angles[blas::row_of(x, 2 * half) * half + folded(
                    blas::col_of(x, 2 * half),
                    half,
                )],
            ),
    )
}

pub open spec fn cosine<S: Real>() -> spec_fn(S) -> S {
    |a: S| a.spec_cos()
}

pub open spec fn sine<S: Real>() -> spec_fn(S) -> S {
    |a: S| a.spec_sin()
}

/// The angles of all positions.
pub open spec fn angles_of<S: Real>(freqs: Seq<S>, seq: int) -> Seq<S> {
    Seq::new(
        (seq * freqs.len()) as nat,
        |x: int|
            S::spec_count(blas::row_of(x, freqs.len() as int) as usize).spec_times(
                freqs[blas::col_of(x, freqs.len() as int)],
            ),
    )
}

proof fn lemma_twice(seq: int, half: int)
    requires
        0 <= seq,
        0 <= half,
    ensures
        0 <= seq * half <= seq * (2 * half),
        seq * (2 * half) == 2 * (seq * half),
{
    assert(0 <= seq * half <= seq * (2 * half) && seq * (2 * half) == 2 * (seq * half))
        by (nonlinear_arith)
        requires
            0 <= seq,
            0 <= half,
    ;
}

/// The cosines and the sines of angles, each twice in its row.
#[verifier::loop_isolation(false)]
fn tables_from<S: Real>(angles: &[S], seq: usize, half: usize) -> (r: (Vec<S>, Vec<S>))
    requires
        angles@.len() == seq * half,
        seq * (2 * half) <= usize::MAX,
        2 * half <= usize::MAX,
    ensures
        r.0@ == doubled(angles@, seq as int, half as int, cosine()),
        r.1@ == doubled(angles@, seq as int, half as int, sine()),
{
    let dim: usize = 2 * half;
    let ghost (si, hi, di) = (seq as int, half as int, dim as int);
    let ghost wc = doubled(angles@, si, hi, cosine());
    let ghost ws = doubled(angles@, si, hi, sine());
    let mut cos: Vec<S> = Vec::new();
    let mut sin: Vec<S> = Vec::new();
    assert(0 * di == 0) by (nonlinear_arith);
    for pos in 0..seq
        invariant
            cos@.len() == pos * di,
            sin@.len() == pos * di,
            forall|x: int| 0 <= x < pos * di ==> #[trigger] cos@[x] == wc[x],
            forall|x: int| 0 <= x < pos * di ==> #[trigger] sin@[x] == ws[x],
    {
        proof {
            nn::lemma_row_in(pos as int, si, di, si * di);
            nn::lemma_row_in(pos as int, si, hi, si * hi);
        }
        for c in 0..dim
            invariant
                cos@.len() == pos * di + c,
                sin@.len() == pos * di + c,
                forall|x: int| 0 <= x < pos * di + c ==> #[trigger] cos@[x] == wc[x],
                forall|x: int| 0 <= x < pos * di + c ==> #[trigger] sin@[x] == ws[x],
        {
            let j: usize = if c < half {
                c
            } else {
                c - half
            };
            proof {
                blas::lemma_cell(pos as int, c as int, di);
                lemma_twice(si, hi);
            }
            let a = angles[pos * half + j];
            cos.push(a.cos());
            sin.push(a.sin());
        }
        assert(pos * di + di == (pos + 1) * di) by (nonlinear_arith);
    }
    assert(cos@ =~= wc);
    assert(sin@ =~= ws);
    (cos, sin)
}

#[verifier::loop_isolation(false)]
fn build_tables<S: Real>(inv_f: &[S], seq_len: usize) -> (r: (Vec<S>, Vec<S>))
    requires
        2 * inv_f@.len() <= usize::MAX,
        seq_len * (2 * inv_f@.len()) <= usize::MAX,
    ensures
        r.0@ == doubled(
            angles_of(inv_f@, seq_len as int),
            seq_len as int,
            inv_f@.len() as int,
            cosine(),
        ),
        r.1@ == doubled(
            angles_of(inv_f@, seq_len as int),
            seq_len as int,
            inv_f@.len() as int,
            sine(),
        ),
{
    let half: usize = inv_f.len();
    let ghost (si, hi) = (seq_len as int, half as int);
    let ghost want = angles_of(inv_f@, si);
    let mut angles: Vec<S> = Vec::new();
    assert(0 * hi == 0) by (nonlinear_arith);
    for pos in 0..seq_len
        invariant
            angles@.len() == pos * hi,
            forall|x: int| 0 <= x < pos * hi ==> #[trigger] angles@[x] == want[x],
    {
        proof {
            nn::lemma_row_in(pos as int, si, hi, si * hi);
        }
        for j in 0..half
            invariant
                angles@.len() == pos * hi + j,
                forall|x: int| 0 <= x < pos * hi + j ==> #[trigger] angles@[x] == want[x],
        {
            proof {
                blas::lemma_cell(pos as int, j as int, hi);
            }
            angles.push(S::count(pos).times(inv_f[j]));
        }
        assert(pos * hi + hi == (pos + 1) * hi) by (nonlinear_arith);
    }
    assert(angles@ =~= want);
    tables_from(&angles, seq_len, half)
}

// ---- Rotations

/// The length of the sequence of a tensor: its last axis but one.
pub open spec fn seq_of(shape: Seq<usize>) -> usize {
    if shape.len() >= 2 {
        shape[shape.len() - 2]
    } else {
        1
    }
}

fn seq_len_of(shape: &[usize]) -> (r: usize)
    ensures
        r == seq_of(shape@),
{
    let n: usize = shape.len();
    if n >= 2 {
        shape[n - 2]
    } else {
        1
    }
}

/// A number of a row rotated with its partner, half a row apart.
pub open spec fn rotated_at<S: Real>(
    row: Seq<S>,
    cos: Seq<S>,
    sin: Seq<S>,
    at: int,
    half: int,
    c: int,
) -> S {
    if c < half {
        row[c].spec_times(cos[at + c]).spec_minus(row[c + half].spec_times(sin[at + c]))
    } else {
        row[c].spec_times(cos[at + c]).spec_plus(row[c - half].spec_times(sin[at + c]))
    }
}

/// Each row of a tensor rotated by the angles of its position.
pub open spec fn rotated<S: Real>(v: Value<S>, cos: Seq<S>, sin: Seq<S>, half: int) -> Value<S> {
    let d = 2 * half;
    let seq = seq_of(v.shape) as int;
    Value {
        data: Seq::new(
            v.data.len(),
            |x: int|
                rotated_at(
                    v.data.subrange(blas::row_of(x, d) * d, blas::row_of(x, d) * d + d),
                    cos,
                    sin,
                    blas::col_of(blas::row_of(x, d), seq) * d,
                    half,
                    blas::col_of(x, d),
                ),
        ),
        shape: v.shape,
    }
}

proof fn lemma_seq_rows(shape: Seq<usize>)
    requires
        shape.len() > 0,
        tensor::volume(shape.drop_last()) > 0,
    ensures
        seq_of(shape) > 0,
{
    if shape.len() >= 2 {
        let lead = shape.drop_last();
        assert(lead.last() == shape[shape.len() - 2]);
        assert(lead.last() != 0) by {
            if lead.last() == 0 {
                assert(tensor::volume(lead.drop_last()) * 0 == 0) by (nonlinear_arith);
            }
        }
    }
}

/// Rotates each row of a tensor by the angles of its position.
#[verifier::loop_isolation(false)]
pub fn apply_rope<S: Real>(x: &Tensor<S>, cos: &[S], sin: &[S], half: usize) -> (r: Tensor<S>)
    requires
        x.wf(),
        x@.shape.len() > 0,
        x@.shape.last() == 2 * half,
        seq_of(x@.shape) * (2 * half) <= cos@.len(),
        seq_of(x@.shape) * (2 * half) <= sin@.len(),
    ensures
        r.wf(),
        r@ == rotated(x@, cos@, sin@, half as int),
        r.requires_grad == x.requires_grad,
{
    let axes: usize = x.shape.len();
    let d: usize = x.shape[axes - 1];
    let seq: usize = seq_len_of(&x.shape);
    let len: usize = x.data.len();
    let clen: usize = cos.len();
    let slen: usize = sin.len();
    let ghost (di, si, hi) = (d as int, seq as int, half as int);
    let ghost want = rotated(x@, cos@, sin@, hi).data;
    let ghost lead = tensor::volume(x.shape@.drop_last());
    if d == 0 {
        proof {
            assert(lead * 0 == 0) by (nonlinear_arith);
            assert(x.data@ =~= want);
        }
        return x.duplicate();
    }
    let rows: usize = len / d;
    proof {
        assert(len as int / di == lead) by {
            vstd::arithmetic::div_mod::lemma_div_multiples_vanish(lead, di);
            assert(di * lead == lead * di) by (nonlinear_arith);
        }
        assert(0 * di == 0) by (nonlinear_arith);
    }
    let mut data: Vec<S> = Vec::new();
    for i in 0..rows
        invariant
            rows == lead,
            data@.len() == i * di,
            forall|k: int| 0 <= k < i * di ==> #[trigger] data@[k] == want[k],
    {
        proof {
            nn::lemma_row_in(i as int, lead, di, len as int);
            lemma_seq_rows(x.shape@);
            vstd::arithmetic::div_mod::lemma_mod_bound(i as int, si);
        }
        let p: usize = i % seq;
        proof {
            nn::lemma_row_in(p as int, si, di, si * di);
        }
        let at: usize = p * d;
        let from: usize = i * d;
        let ghost row = x.data@.subrange(i * di, i * di + di);
        for c in 0..d
            invariant
                data@.len() == i * di + c,
                forall|k: int| 0 <= k < i * di + c ==> #[trigger] data@[k] == want[k],
        {
            proof {
                blas::lemma_cell(i as int, c as int, di);
            }
            let y = if c < half {
                x.data[from + c].times(cos[at + c]).minus(
                    x.data[from + (c + half)].times(sin[at + c]),
                )
            } else {
                x.data[from + c].times(cos[at + c]).plus(
                    x.data[from + (c - half)].times(sin[at + c]),
                )
            };
            assert(y == rotated_at(row, cos@, sin@, at as int, hi, c as int));
            data.push(y);
        }
        assert(i * di + di == (i + 1) * di) by (nonlinear_arith);
    }
    assert(data@ =~= want);
    Tensor {
        data,
        shape: copy_slice(&x.shape),
        requires_grad: x.requires_grad,
        grad: None,
    }
}

/// Rotations of pairs of dimensions by angles that grow with the position.
#[derive(Debug, Clone)]
pub struct RoPE<S> {
    pub head_dim: usize,
    pub max_seq_len: usize,
    pub base: S,
    pub cos: Vec<S>,
    pub sin: Vec<S>,
    /// How far the context is stretched; one for not at all.
    pub scale: S,
}

/// The frequencies of a rotation of the given stretch.
pub open spec fn rope_freqs<S: Real>(head_dim: usize, base: S, scale: S, yarn: bool) -> Seq<S> {
    frequencies(
        head_dim,
        if yarn {
            stretched(head_dim, base, scale)
        } else {
            base
        },
    )
}

impl<S: Real> RoPE<S> {
    /// The tables are those of the given frequencies.
    pub open spec fn turns_by(&self, freqs: Seq<S>) -> bool {
        let half = (self.head_dim / 2) as int;
        &&& freqs.len() == half
        &&& self.cos@ == doubled(
            angles_of(freqs, self.max_seq_len as int),
            self.max_seq_len as int,
            half,
            cosine(),
        )
        &&& self.sin@ == doubled(
            angles_of(freqs, self.max_seq_len as int),
            self.max_seq_len as int,
            half,
            sine(),
        )
    }

    /// The tables have a row for each position.
    pub open spec fn wf(&self) -> bool {
        let rows = self.max_seq_len * (2 * (self.head_dim / 2));
        self.cos@.len() == rows && self.sin@.len() == rows
    }

    pub fn new(head_dim: usize, max_seq_len: usize) -> (r: Self)
        requires
            max_seq_len * (2 * (head_dim / 2)) <= usize::MAX,
        ensures
            r.wf(),
            r.head_dim == head_dim,
            r.max_seq_len == max_seq_len,
            r.base == S::spec_count(10000),
            r.scale == S::spec_one(),
            r.turns_by(frequencies(head_dim, S::spec_count(10000))),
    {
        Self::with_base(head_dim, max_seq_len, S::count(10000))
    }

    pub fn with_base(head_dim: usize, max_seq_len: usize, base: S) -> (r: Self)
        requires
            max_seq_len * (2 * (head_dim / 2)) <= usize::MAX,
        ensures
            r.wf(),
            r.head_dim == head_dim,
            r.max_seq_len == max_seq_len,
            r.base == base,
            r.scale == S::spec_one(),
            r.turns_by(frequencies(head_dim, base)),
    {
        let inv_f = inv_freq(head_dim, base);
        proof {
            lemma_twice(max_seq_len as int, (head_dim / 2) as int);
        }
        let (cos, sin) = build_tables(&inv_f, max_seq_len);
        RoPE { head_dim, max_seq_len, base, cos, sin, scale: S::one() }
    }

    /// Rotations for a context that is longer by the factor `scale`.
    pub fn yarn(head_dim: usize, max_seq_len: usize, base: S, scale: S) -> (r: Self)
        requires
            head_dim >= 2,
            max_seq_len * (2 * (head_dim / 2)) <= usize::MAX,
        ensures
            r.wf(),
            r.head_dim == head_dim,
            r.max_seq_len == max_seq_len,
            r.base == base,
            r.scale == scale,
            r.turns_by(frequencies(head_dim, stretched(head_dim, base, scale))),
    {
        let inv_f = inv_freq_yarn(head_dim, base, scale);
        proof {
            lemma_twice(max_seq_len as int, (head_dim / 2) as int);
        }
        let (cos, sin) = build_tables(&inv_f, max_seq_len);
        RoPE { head_dim, max_seq_len, base, cos, sin, scale }
    }

    /// Rotates a tensor of the shape `[.., seq, head_dim]`.
    pub fn apply(&self, x: &Tensor<S>) -> (r: Tensor<S>)
        requires
            self.wf(),
            self.head_dim % 2 == 0,
            x.wf(),
            x@.shape.len() > 0,
            x@.shape.last() == self.head_dim,
            seq_of(x@.shape) <= self.max_seq_len,
        ensures
            r.wf(),
            r@ == rotated(x@, self.cos@, self.sin@, (self.head_dim / 2) as int),
            r.requires_grad == x.requires_grad,
    {
        let half: usize = self.head_dim / 2;
        proof {
            let s = seq_of(x@.shape) as int;
            let (m, d) = (self.max_seq_len as int, self.head_dim as int);
            assert(s * d <= m * d) by (nonlinear_arith)
                requires
                    s <= m,
                    0 <= d,
            ;
        }
        apply_rope(x, &self.cos, &self.sin, half)
    }

    /// Makes room for longer sequences. The tables are stretched where the scale is above one.
    pub fn extend(&mut self, new_max: usize)
        requires
            old(self).wf(),
            S::spec_one().spec_below(old(self).scale) ==> old(self).head_dim >= 2,
            new_max * (2 * (old(self).head_dim / 2)) <= usize::MAX,
        ensures
            final(self).wf(),
            final(self).head_dim == old(self).head_dim,
            final(self).base == old(self).base,
            final(self).scale == old(self).scale,
            new_max <= old(self).max_seq_len ==> *final(self) == *old(self),
            new_max > old(self).max_seq_len ==> final(self).max_seq_len == new_max && final(self).turns_by(
                rope_freqs(
                    old(self).head_dim,
                    old(self).base,
                    old(self).scale,
                    S::spec_one().spec_below(old(self).scale),
                ),
            ),
    {
        if new_max <= self.max_seq_len {
            return;
        }
        let inv_f = if S::one().below(self.scale) {
            inv_freq_yarn(self.head_dim, self.base, self.scale)
        } else {
            inv_freq(self.head_dim, self.base)
        };
        proof {
            lemma_twice(new_max as int, (self.head_dim / 2) as int);
        }
        let (cos, sin) = build_tables(&inv_f, new_max);
        self.cos = cos;
        self.sin = sin;
        self.max_seq_len = new_max;
    }
}

/// Longer tables of the same frequencies begin with the shorter ones: what a tensor is rotated to
/// does not depend on how many positions there is room for.
pub proof fn lemma_longer_tables_agree<S: Real>(a: RoPE<S>, b: RoPE<S>, freqs: Seq<S>)
    requires
        a.turns_by(freqs),
        b.turns_by(freqs),
        a.head_dim == b.head_dim,
        a.max_seq_len <= b.max_seq_len,
    ensures
        a.cos@ == b.cos@.take(a.cos@.len() as int),
        a.sin@ == b.sin@.take(a.sin@.len() as int),
{
    let half = (a.head_dim / 2) as int;
    let (m, n) = (a.max_seq_len as int, b.max_seq_len as int);
    let (p, q) = (angles_of(freqs, m), angles_of(freqs, n));
    lemma_twice(m, half);
    lemma_twice(n, half);
    assert(m * (2 * half) <= n * (2 * half) && m * half <= n * half) by (nonlinear_arith)
        requires
            0 <= m <= n,
            0 <= half,
    ;
    assert forall|x: int| 0 <= x < m * (2 * half) implies 0 <= #[trigger] blas::row_of(x, 2 * half)
        * half + folded(blas::col_of(x, 2 * half), half) < m * half by {
        let d = 2 * half;
        assert(d > 0) by {
            if half == 0 {
                assert(m * 0 == 0) by (nonlinear_arith);
            }
        }
        let r = blas::row_of(x, d);
        let c = blas::col_of(x, d);
        vstd::arithmetic::div_mod::lemma_fundamental_div_mod(x, d);
        vstd::arithmetic::div_mod::lemma_mod_bound(x, d);
        vstd::arithmetic::div_mod::lemma_div_pos_is_pos(x, d);
        assert(r < m) by (nonlinear_arith)
            requires
                x < m * d,
                x == d * r + c,
                0 <= c,
                0 < d,
        ;
        nn::lemma_row_in(r, m, half, m * half);
    }
    assert forall|k: int| 0 <= k < m * half implies p[k] == q[k] by {}
    assert(a.cos@ =~= b.cos@.take(a.cos@.len() as int));
    assert(a.sin@ =~= b.sin@.take(a.sin@.len() as int));
}

// ---- Rotations that depend on the context

/// Rotations whose frequencies are shifted by what a projection makes of the token.
#[derive(Debug, Clone)]
pub struct CARoPE<S> {
    pub head_dim: usize,
    pub max_seq_len: usize,
    pub base: S,
    pub base_inv_freq: Vec<S>,
    pub input_dim: usize,
    /// The projection, with a column for each frequency.
    pub freq_proj: Tensor<S>,
    /// How strongly the frequencies are shifted.
    pub spread: S,
}

pub open spec fn lesser(a: int, b: int) -> int {
    if a <= b {
        a
    } else {
        b
    }
}

impl<S: Real> CARoPE<S> {
    pub open spec fn wf(&self) -> bool {
        &&& self.base_inv_freq@.len() == self.head_dim / 2
        &&& self.freq_proj.wf()
        &&& self.freq_proj@.shape == seq![self.input_dim, (self.head_dim / 2) as usize]
    }

    /// A projection of the next weights.
    pub fn new(head_dim: usize, input_dim: usize, max_seq_len: usize, draws: &mut Draws<S>) -> (r:
        Self)
        requires
            old(draws).wf(),
            input_dim * (head_dim / 2) <= old(draws).left(),
        ensures
            old(draws).taken(final(draws), input_dim * (head_dim / 2)),
            r.wf(),
            r.head_dim == head_dim,
            r.max_seq_len == max_seq_len,
            r.base == S::spec_count(10000),
            r.base_inv_freq@ == frequencies(head_dim, S::spec_count(10000)),
            r.input_dim == input_dim,
            r.freq_proj@.data == old(draws).values@.subrange(
                old(draws).next as int,
                old(draws).next + input_dim * (head_dim / 2),
            ),
            r.spread == optim::ratio::<S>(1, 10),
    {
        let base = S::count(10000);
        let base_inv_freq = inv_freq(head_dim, base);
        let half: usize = head_dim / 2;
        let len: usize = draws.values.len();
        proof {
            assert(0 <= input_dim * half) by (nonlinear_arith);
            tensor::lemma_volume_two(input_dim, half);
        }
        let data = draws.take(input_dim * half);
        let shape: Vec<usize> = vec![input_dim, half];
        assert(shape@ =~= seq![input_dim, half]);
        CARoPE {
            head_dim,
            max_seq_len,
            base,
            base_inv_freq,
            input_dim,
            freq_proj: Tensor::new(data, shape, true),
            spread: fraction(1, 10),
        }
    }

    pub fn with_spread(self, spread: S) -> (r: Self)
        ensures
            r == (CARoPE { spread, ..self }),
    {
        CARoPE {
            spread,
            head_dim: self.head_dim,
            max_seq_len: self.max_seq_len,
            base: self.base,
            base_inv_freq: self.base_inv_freq,
            input_dim: self.input_dim,
            freq_proj: self.freq_proj,
        }
    }

    /// The shift of a frequency at a position; none beyond the tokens that are given.
    pub open spec fn offset(&self, emb: Value<S>, pos: int, j: int) -> S {
        let half = (self.head_dim / 2) as int;
        let width = emb.shape.last() as int;
        if pos < seq_of(emb.shape) {
            number::sum_n(
                |d: int|
                    emb.data[pos * width + d].spec_times(self.freq_proj@.data[d * half + j]),
                lesser(width, self.input_dim as int),
            ).spec_tanh().spec_times(self.spread)
        } else {
            S::spec_zero()
        }
    }

    /// The angles of all positions, with the shifts.
    pub open spec fn shifted_angles(&self, emb: Value<S>, seq: int) -> Seq<S> {
        let half = (self.head_dim / 2) as int;
        Seq::new(
            (seq * half) as nat,
            |x: int|
                S::spec_count(blas::row_of(x, half) as usize).spec_times(
                    self.base_inv_freq@[blas::col_of(x, half)].spec_plus(
                        self.offset(emb, blas::row_of(x, half), blas::col_of(x, half)),
                    ),
                ),
        )
    }

    fn offset_at(&self, embeddings: &Tensor<S>, pos: usize, j: usize) -> (r: S)
        requires
            self.wf(),
            embeddings.wf(),
            embeddings@.shape.len() > 0,
            seq_of(embeddings@.shape) * embeddings@.shape.last() <= embeddings@.data.len(),
            j < self.head_dim / 2,
        ensures
            r == self.offset(embeddings@, pos as int, j as int),
    {
        let axes: usize = embeddings.shape.len();
        let emb_seq: usize = seq_len_of(&embeddings.shape);
        let width: usize = embeddings.shape[axes - 1];
        let half: usize = self.head_dim / 2;
        if pos >= emb_seq {
            return S::zero();
        }
        let n: usize = if width <= self.input_dim {
            width
        } else {
            self.input_dim
        };
        let len: usize = embeddings.data.len();
        let plen: usize = self.freq_proj.data.len();
        let ghost (wi, hi) = (width as int, half as int);
        let ghost f = |d: int|
            embeddings@.data[pos * wi + d].spec_times(self.freq_proj@.data[d * hi + j]);
        let mut dot = S::zero();
        proof {
            nn::lemma_row_in(pos as int, emb_seq as int, wi, emb_seq * wi);
            tensor::lemma_volume_two(self.input_dim, half);
        }
        for d in 0..n
            invariant
                f == (|d: int|
                    embeddings@.data[pos * wi + d].spec_times(self.freq_proj@.data[d * hi + j])),
                wi == width,
                hi == half,
                j < half,
                n <= width,
                n <= self.input_dim,
                len == embeddings.data@.len(),
                0 <= pos * wi,
                pos * wi + wi <= len,
                plen == self.freq_proj.data@.len(),
                plen == self.input_dim * hi,
                dot == number::sum_n(f, d as int),
        {
            proof {
                nn::lemma_row_in(d as int, self.input_dim as int, hi, plen as int);
            }
            dot = dot.plus(
                embeddings.data[pos * width + d].times(self.freq_proj.data[d * half + j]),
            );
        }
        dot.tanh().times(self.spread)
    }

    /// Rotates a tensor by angles that depend on the tokens.
    #[verifier::loop_isolation(false)]
    pub fn apply(&self, x: &Tensor<S>, embeddings: &Tensor<S>) -> (r: Tensor<S>)
        requires
            self.wf(),
            self.head_dim % 2 == 0,
            x.wf(),
            x@.shape.len() > 0,
            x@.shape.last() == self.head_dim,
            seq_of(x@.shape) <= self.max_seq_len,
            seq_of(x@.shape) * self.head_dim <= usize::MAX,
            embeddings.wf(),
            embeddings@.shape.len() > 0,
            seq_of(embeddings@.shape) * embeddings@.shape.last() <= embeddings@.data.len(),
        ensures
            r.wf(),
            r@ == rotated(
                x@,
                doubled(
                    self.shifted_angles(embeddings@, seq_of(x@.shape) as int),
                    seq_of(x@.shape) as int,
                    (self.head_dim / 2) as int,
                    cosine(),
                ),
                doubled(
                    self.shifted_angles(embeddings@, seq_of(x@.shape) as int),
                    seq_of(x@.shape) as int,
                    (self.head_dim / 2) as int,
                    sine(),
                ),
                (self.head_dim / 2) as int,
            ),
    {
        let seq: usize = seq_len_of(&x.shape);
        let half: usize = self.head_dim / 2;
        let ghost (si, hi) = (seq as int, half as int);
        let ghost want = self.shifted_angles(embeddings@, si);
        let mut angles: Vec<S> = Vec::new();
        proof {
            lemma_twice(si, hi);
            assert(0 * hi == 0) by (nonlinear_arith);
        }
        for pos in 0..seq
            invariant
                angles@.len() == pos * hi,
                forall|k: int| 0 <= k < pos * hi ==> #[trigger] angles@[k] == want[k],
        {
            proof {
                nn::lemma_row_in(pos as int, si, hi, si * hi);
            }
            for j in 0..half
                invariant
                    angles@.len() == pos * hi + j,
                    forall|k: int| 0 <= k < pos * hi + j ==> #[trigger] angles@[k] == want[k],
            {
                proof {
                    blas::lemma_cell(pos as int, j as int, hi);
                }
                let shift = self.offset_at(embeddings, pos, j);
                angles.push(S::count(pos).times(self.base_inv_freq[j].plus(shift)));
            }
            assert(pos * hi + hi == (pos + 1) * hi) by (nonlinear_arith);
        }
        assert(angles@ =~= want);
        let (cos, sin) = tables_from(&angles, seq, half);
        apply_rope(x, &cos, &sin, half)
    }

    pub fn parameters(&self) -> (r: Vec<Tensor<S>>)
        requires
            self.wf(),
        ensures
            nn::tensors_are(r@, seq![self.freq_proj@]),
    {
        vec![self.freq_proj.duplicate()]
    }
}

// ---- Linear biases

/// A penalty for each head that grows with the distance of two positions.
#[derive(Debug, Clone)]
pub struct AlibiBias<S> {
    pub num_heads: usize,
    pub slopes: Vec<S>,
}

/// The slope of a head, counted from one.
pub open spec fn slope_of<S: Real>(h: int, n: usize) -> S {
    S::spec_count(2).spec_powf(
        S::spec_count(8).spec_neg().spec_times(S::spec_count(h as usize)).spec_over(
            S::spec_count(n),
        ),
    )
}

pub open spec fn slopes_of<S: Real>(n: usize) -> Seq<S> {
    Seq::new(n as nat, |i: int| slope_of(i + 1, n))
}

/// The slopes of all heads.
pub fn alibi_slopes<S: Real>(n: usize) -> (r: Vec<S>)
    ensures
        r@ == slopes_of::<S>(n),
{
    let mut v: Vec<S> = Vec::new();
    for i in 0..n
        invariant
            v@ =~= slopes_of::<S>(n).take(i as int),
    {
        v.push(
            S::count(2).powf(S::count(8).neg().times(S::count(i + 1)).over(S::count(n))),
        );
    }
    v
}

/// The distance of two positions.
pub open spec fn distance(i: int, j: int) -> int {
    if i <= j {
        j - i
    } else {
        i - j
    }
}

impl<S: Real> AlibiBias<S> {
    pub open spec fn wf(&self) -> bool {
        self.slopes@.len() == self.num_heads
    }

    pub fn new(num_heads: usize) -> (r: Self)
        ensures
            r.wf(),
            r.num_heads == num_heads,
            r.slopes@ == slopes_of::<S>(num_heads),
    {
        AlibiBias { num_heads, slopes: alibi_slopes(num_heads) }
    }

    /// The bias of two positions.
    pub open spec fn bias(&self, h: int, i: int, j: int) -> S {
        self.slopes@[h].spec_neg().spec_times(S::spec_count(distance(i, j) as usize))
    }

    /// The biases of all pairs of positions, head by head.
    pub open spec fn biases(&self, seq: int) -> Seq<S> {
        Seq::new(
            ((self.num_heads * seq) * seq) as nat,
            |x: int|
                self.bias(
                    blas::row_of(blas::row_of(x, seq), seq),
                    blas::col_of(blas::row_of(x, seq), seq),
                    blas::col_of(x, seq),
                ),
        )
    }

    /// The biases of all pairs of positions, head by head.
    #[verifier::loop_isolation(false)]
    pub fn bias_matrix(&self, seq_len: usize) -> (r: Vec<S>)
        requires
            self.wf(),
            (self.num_heads * seq_len) * seq_len <= usize::MAX,
        ensures
            r@ == self.biases(seq_len as int),
    {
        let ghost (n, si) = (self.num_heads as int, seq_len as int);
        let ghost want = self.biases(si);
        let mut bias: Vec<S> = Vec::new();
        proof {
            assert(0 * si == 0) by (nonlinear_arith);
        }
        for h in 0..self.num_heads
            invariant
                bias@.len() == (h * si) * si,
                forall|x: int| 0 <= x < (h * si) * si ==> #[trigger] bias@[x] == want[x],
        {
            let slope = self.slopes[h];
            proof {
                nn::lemma_row_in(h as int, n, si, n * si);
            }
            for i in 0..seq_len
                invariant
                    bias@.len() == (h * si + i) * si,
                    forall|x: int|
                        0 <= x < (h * si + i) * si ==> #[trigger] bias@[x] == want[x],
            {
                proof {
                    nn::lemma_row_in(h * si + i, n * si, si, (n * si) * si);
                    blas::lemma_cell(h as int, i as int, si);
                }
                for j in 0..seq_len
                    invariant
                        bias@.len() == (h * si + i) * si + j,
                        forall|x: int|
                            0 <= x < (h * si + i) * si + j ==> #[trigger] bias@[x] == want[x],
                {
                    let dist: usize = if i <= j {
                        j - i
                    } else {
                        i - j
                    };
                    proof {
                        blas::lemma_cell(h * si + i, j as int, si);
                    }
                    bias.push(slope.neg().times(S::count(dist)));
                }
                assert((h * si + i) * si + si == (h * si + (i + 1)) * si) by (nonlinear_arith);
            }
            assert(h * si + si == (h + 1) * si) by (nonlinear_arith);
        }
        assert(bias@ =~= want);
        bias
    }

    /// The slope of a head; zero where there is no such head.
    pub fn slope(&self, head: usize) -> (r: S)
        ensures
            r == (if head < self.slopes@.len() {
                self.slopes@[head as int]
            } else {
                S::spec_zero()
            }),
    {
        if head < self.slopes.len() {
            self.slopes[head]
        } else {
            S::zero()
        }
    }
}

/// The bias of two positions does not depend on their order, and is that of their distance from
/// the first position.
pub proof fn lemma_bias_is_relative<S: Real>(a: AlibiBias<S>, h: int, i: int, j: int)
    ensures
        a.bias(h, i, j) == a.bias(h, j, i),
        a.bias(h, i, j) == a.bias(h, 0, distance(i, j)),
{
}

// ---- Tables to add

/// Sines and cosines of angles that grow with the position, to add to tokens.
#[derive(Debug, Clone)]
pub struct SinusoidalPE<S> {
    pub dim: usize,
    pub max_seq_len: usize,
    pub table: Tensor<S>,
}

/// The angle of a pair of dimensions at a position.
pub open spec fn wave_angle<S: Real>(pos: int, j: int, dim: usize) -> S {
    S::spec_count(pos as usize).spec_over(
        S::spec_count(10000).spec_powf(
            S::spec_count(2).spec_times(S::spec_count(j as usize)).spec_over(S::spec_count(dim)),
        ),
    )
}

/// Sines at even places and cosines at odd ones.
pub open spec fn wave<S: Real>(pos: int, c: int, dim: usize) -> S {
    if c % 2 == 0 {
        wave_angle::<S>(pos, c / 2, dim).spec_sin()
    } else {
        wave_angle::<S>(pos, c / 2, dim).spec_cos()
    }
}

/// The table of all positions.
pub open spec fn waves<S: Real>(dim: usize, max_seq_len: usize) -> Value<S> {
    Value {
        data: Seq::new(
            (max_seq_len * dim) as nat,
            |x: int| wave(blas::row_of(x, dim as int), blas::col_of(x, dim as int), dim),
        ),
        shape: seq![max_seq_len, dim],
    }
}

fn wave_at<S: Real>(pos: usize, c: usize, dim: usize) -> (r: S)
    ensures
        r == wave::<S>(pos as int, c as int, dim),
{
    let angle = S::count(pos).over(
        S::count(10000).powf(S::count(2).times(S::count(c / 2)).over(S::count(dim))),
    );
    if c % 2 == 0 {
        angle.sin()
    } else {
        angle.cos()
    }
}

/// The first rows of a table.
pub open spec fn first_rows<S>(table: Value<S>, seq: usize, dim: usize) -> Value<S> {
    Value { data: table.data.take(seq * dim), shape: seq![seq, dim] }
}

fn rows_of<S: Real>(table: &Tensor<S>, seq: usize, dim: usize, requires_grad: bool) -> (r: Tensor<S>)
    requires
        table.wf(),
        seq * dim <= table@.data.len(),
    ensures
        r.wf(),
        r@ == first_rows(table@, seq, dim),
        r.requires_grad == requires_grad,
{
    let len: usize = table.data.len();
    proof {
        assert(0 <= seq * dim) by (nonlinear_arith);
        tensor::lemma_volume_two(seq, dim);
    }
    let n: usize = seq * dim;
    let part = vstd::slice::slice_subrange(&table.data, 0, n);
    assert(part@ =~= table.data@.take(n as int));
    let data = copy_slice(part);
    let shape: Vec<usize> = vec![seq, dim];
    assert(shape@ =~= seq![seq, dim]);
    Tensor::new(data, shape, requires_grad)
}

/// A table of the last two axes of a tensor can be added to it and keeps its shape.
pub proof fn lemma_rows_fit<S>(x: Value<S>, seq: usize, dim: usize)
    requires
        x.wf(),
        x.shape.len() > 0,
        x.shape.last() == dim,
        seq == seq_of(x.shape),
    ensures
        tensor::broadcastable(x.shape, seq![seq, dim]),
        x.shape.len() >= 2 ==> tensor::broadcast(x.shape, seq![seq, dim]) == x.shape,
        tensor::countable(tensor::broadcast(x.shape, seq![seq, dim])),
{
    reveal_with_fuel(tensor::broadcastable, 3);
    let (a, b) = (x.shape, seq![seq, dim]);
    let empty = Seq::<usize>::empty();
    assert(b.drop_last() =~= seq![seq]);
    assert(seq![seq].drop_last() =~= empty);
    if a.len() >= 2 {
        let lead = a.drop_last();
        assert(lead.last() == seq);
        assert(tensor::broadcast(lead.drop_last(), empty) == lead.drop_last());
        assert(tensor::broadcast(lead, seq![seq]) =~= lead);
        assert(tensor::broadcast(a, b) =~= a);
    } else {
        assert(a.drop_last() =~= empty);
        assert(tensor::broadcast(empty, seq![seq]) =~= seq![seq]);
        assert(tensor::broadcast(a, b) =~= b);
        assert(a =~= seq![dim]);
        assert(1 * dim == dim) by (nonlinear_arith);
        tensor::lemma_volume_two(1, dim);
        tensor::lemma_volume_two(dim, 1);
    }
}

impl<S: Real> SinusoidalPE<S> {
    pub open spec fn wf(&self) -> bool {
        self.table.wf() && self.table@.shape == seq![self.max_seq_len, self.dim]
    }

    #[verifier::loop_isolation(false)]
    pub fn new(dim: usize, max_seq_len: usize) -> (r: Self)
        requires
            max_seq_len * dim <= usize::MAX,
        ensures
            r.wf(),
            r.dim == dim,
            r.max_seq_len == max_seq_len,
            r.table@ == waves::<S>(dim, max_seq_len),
    {
        let ghost (m, d) = (max_seq_len as int, dim as int);
        let ghost want = waves::<S>(dim, max_seq_len).data;
        let mut data: Vec<S> = Vec::new();
        assert(0 * d == 0) by (nonlinear_arith);
        for pos in 0..max_seq_len
            invariant
                data@.len() == pos * d,
                forall|x: int| 0 <= x < pos * d ==> #[trigger] data@[x] == want[x],
        {
            proof {
                nn::lemma_row_in(pos as int, m, d, m * d);
            }
            for c in 0..dim
                invariant
                    data@.len() == pos * d + c,
                    forall|x: int| 0 <= x < pos * d + c ==> #[trigger] data@[x] == want[x],
            {
                proof {
                    blas::lemma_cell(pos as int, c as int, d);
                }
                data.push(wave_at(pos, c, dim));
            }
            assert(pos * d + d == (pos + 1) * d) by (nonlinear_arith);
        }
        assert(data@ =~= want);
        let shape: Vec<usize> = vec![max_seq_len, dim];
        proof {
            assert(shape@ =~= seq![max_seq_len, dim]);
            tensor::lemma_volume_two(max_seq_len, dim);
        }
        SinusoidalPE { dim, max_seq_len, table: Tensor::from_vec(data, shape) }
    }

    /// Adds the rows of the positions to a tensor of the shape `[.., seq, dim]`.
    pub fn apply(&self, x: &Tensor<S>) -> (r: Tensor<S>)
        requires
            self.wf(),
            x.wf(),
            x@.shape.len() > 0,
            x@.shape.last() == self.dim,
            seq_of(x@.shape) <= self.max_seq_len,
        ensures
            r.wf(),
            r@ == tensor::zipped(
                Op::Add,
                x@,
                first_rows(self.table@, seq_of(x@.shape), self.dim),
            ),
            x@.shape.len() >= 2 ==> r@.shape == x@.shape,
    {
        let seq: usize = seq_len_of(&x.shape);
        proof {
            let (m, d) = (self.max_seq_len as int, self.dim as int);
            assert(seq * d <= m * d) by (nonlinear_arith)
                requires
                    seq <= m,
                    0 <= d,
            ;
            tensor::lemma_volume_two(self.max_seq_len, self.dim);
            lemma_rows_fit(x@, seq, self.dim);
        }
        let pe = rows_of(&self.table, seq, self.dim, false);
        x.add(&pe)
    }

    /// The table of all positions.
    pub fn table(&self) -> (r: &Tensor<S>)
        ensures
            *r == self.table,
    {
        &self.table
    }
}

/// A table of positions that is learned.
#[derive(Debug, Clone)]
pub struct LearnedPE<S> {
    pub dim: usize,
    pub max_seq_len: usize,
    pub table: Tensor<S>,
}

impl<S: Real> LearnedPE<S> {
    pub open spec fn wf(&self) -> bool {
        self.table.wf() && self.table@.shape == seq![self.max_seq_len, self.dim]
    }

    pub fn new(dim: usize, max_seq_len: usize) -> (r: Self)
        requires
            max_seq_len * dim <= usize::MAX,
        ensures
            r.wf(),
            r.dim == dim,
            r.max_seq_len == max_seq_len,
            r.table.requires_grad,
            r.table@.data == Seq::new((max_seq_len * dim) as nat, |i: int| S::spec_zero()),
    {
        let shape: Vec<usize> = vec![max_seq_len, dim];
        proof {
            assert(shape@ =~= seq![max_seq_len, dim]);
            tensor::lemma_volume_two(max_seq_len, dim);
        }
        LearnedPE { dim, max_seq_len, table: Tensor::constant(&shape, S::zero(), true) }
    }

    /// Starts with sines and cosines.
    pub fn init_sinusoidal(self) -> (r: Self)
        requires
            self.max_seq_len * self.dim <= usize::MAX,
        ensures
            r.wf(),
            r.dim == self.dim,
            r.max_seq_len == self.max_seq_len,
            r.table.requires_grad,
            r.table@ == waves::<S>(self.dim, self.max_seq_len),
    {
        let pe: SinusoidalPE<S> = SinusoidalPE::new(self.dim, self.max_seq_len);
        let mut table = pe.table;
        table.requires_grad = true;
        LearnedPE { dim: self.dim, max_seq_len: self.max_seq_len, table }
    }

    /// Adds the rows of the positions to a tensor.
    pub fn apply(&self, x: &Tensor<S>) -> (r: Tensor<S>)
        requires
            self.wf(),
            x.wf(),
            seq_of(x@.shape) <= self.max_seq_len,
            tensor::zips(x@, first_rows(self.table@, seq_of(x@.shape), self.dim)),
        ensures
            r.wf(),
            r@ == tensor::zipped(
                Op::Add,
                x@,
                first_rows(self.table@, seq_of(x@.shape), self.dim),
            ),
            r.requires_grad,
    {
        let seq: usize = seq_len_of(&x.shape);
        proof {
            let (m, d) = (self.max_seq_len as int, self.dim as int);
            assert(seq * d <= m * d) by (nonlinear_arith)
                requires
                    seq <= m,
                    0 <= d,
            ;
            tensor::lemma_volume_two(self.max_seq_len, self.dim);
        }
        let pe = rows_of(&self.table, seq, self.dim, true);
        x.add(&pe)
    }

    pub fn parameters(&self) -> (r: Vec<Tensor<S>>)
        requires
            self.wf(),
        ensures
            nn::tensors_are(r@, seq![self.table@]),
    {
        vec![self.table.duplicate()]
    }
}

/// A table to add, or none.
#[derive(Debug, Clone)]
pub enum PositionalEncoding<S> {
    Absent,
    Sinusoidal(SinusoidalPE<S>),
    Learned(LearnedPE<S>),
}

impl<S: Real> PositionalEncoding<S> {
    pub open spec fn wf(&self) -> bool {
        match self {
            PositionalEncoding::Absent => true,
            PositionalEncoding::Sinusoidal(pe) => pe.wf(),
            PositionalEncoding::Learned(pe) => pe.wf(),
        }
    }

    /// The encoding has a row for each position of a tensor.
    pub open spec fn accepts(&self, x: Value<S>) -> bool {
        match self {
            PositionalEncoding::Absent => true,
            PositionalEncoding::Sinusoidal(pe) => x.shape.len() > 0 && x.shape.last() == pe.dim
                && seq_of(x.shape) <= pe.max_seq_len,
            PositionalEncoding::Learned(pe) => seq_of(x.shape) <= pe.max_seq_len && tensor::zips(
                x,
                first_rows(pe.table@, seq_of(x.shape), pe.dim),
            ),
        }
    }

    pub open spec fn output(&self, x: Value<S>) -> Value<S> {
        match self {
            PositionalEncoding::Absent => x,
            PositionalEncoding::Sinusoidal(pe) => tensor::zipped(
                Op::Add,
                x,
                first_rows(pe.table@, seq_of(x.shape), pe.dim),
            ),
            PositionalEncoding::Learned(pe) => tensor::zipped(
                Op::Add,
                x,
                first_rows(pe.table@, seq_of(x.shape), pe.dim),
            ),
        }
    }

    pub fn apply(&self, x: &Tensor<S>) -> (r: Tensor<S>)
        requires
            self.wf(),
            x.wf(),
            self.accepts(x@),
        ensures
            r.wf(),
            r@ == self.output(x@),
    {
        match self {
            PositionalEncoding::Absent => x.duplicate(),
            PositionalEncoding::Sinusoidal(pe) => pe.apply(x),
            PositionalEncoding::Learned(pe) => pe.apply(x),
        }
    }

    /// The table, where it is learned.
    pub fn parameters(&self) -> (r: Vec<Tensor<S>>)
        requires
            self.wf(),
        ensures
            nn::tensors_are(
                r@,
                match self {
                    PositionalEncoding::Learned(pe) => seq![pe.table@],
                    _ => Seq::empty(),
                },
            ),
    {
        match self {
            PositionalEncoding::Learned(pe) => pe.parameters(),
            _ => Vec::new(),
        }
    }
}

} // verus!
