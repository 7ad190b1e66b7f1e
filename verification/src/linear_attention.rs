//! Kernelized attention in time linear in the sequence length.
//!
//! The softmax kernel is replaced by a feature map, so that keys and values can be folded
//! into one state that every query is answered from.
use vstd::prelude::*;
use crate::blas;
use crate::blas::{fresh_product, Mat, Transpose};
use crate::number;
use crate::number::{filled, Number, Real};

verus! {

/// The feature map of the attention kernel.
#[derive(Debug, Clone, Copy, PartialEq, Eq, Structural)]
pub enum KernelKind {
    /// `x + 1` above zero, the exponential below.
    Elu,
    /// The square of the positive part.
    Relu2,
}

impl KernelKind {
    pub open spec fn spec_code(self) -> u8 {
        match self {
            KernelKind::Elu => 0,
            KernelKind::Relu2 => 1,
        }
    }

    /// The code of the kernel: 0 for `Elu`, 1 for `Relu2`.
    pub fn to_u8(self) -> (r: u8)
        ensures
            r == self.spec_code(),
    {
        match self {
            KernelKind::Elu => 0,
            KernelKind::Relu2 => 1,
        }
    }

    /// The kernel with the given code; an unknown code gives `Elu`.
    pub fn from_u8(v: u8) -> (r: KernelKind)
        ensures
            r == (if v == 1 {
                KernelKind::Relu2
            } else {
                KernelKind::Elu
            }),
    {
        if v == 1 {
            KernelKind::Relu2
        } else {
            KernelKind::Elu
        }
    }
}

/// Decoding gives back what was encoded.
pub proof fn lemma_kernel_round_trip(kind: KernelKind)
    ensures
        (if kind.spec_code() == 1 {
            KernelKind::Relu2
        } else {
            KernelKind::Elu
        }) == kind,
{
}

/// The feature of a number.
pub open spec fn phi_of<S: Real>(kind: KernelKind, x: S) -> S {
    match kind {
        KernelKind::Elu => if S::spec_zero().spec_below(x) {
            x.spec_plus(S::spec_one())
        } else {
            x.spec_exp()
        },
        KernelKind::Relu2 => {
            let r = x.spec_larger(S::spec_zero());
            r.spec_times(r)
        },
    }
}

/// The derivative of the feature map.
pub open spec fn phi_prime_of<S: Real>(kind: KernelKind, x: S) -> S {
    match kind {
        KernelKind::Elu => if S::spec_zero().spec_below(x) {
            S::spec_one()
        } else {
            x.spec_exp()
        },
        KernelKind::Relu2 => S::spec_one().spec_plus(S::spec_one()).spec_times(
            x.spec_larger(S::spec_zero()),
        ),
    }
}

pub fn phi<S: Real>(kind: KernelKind, x: S) -> (r: S)
    ensures
        r == phi_of(kind, x),
{
    match kind {
        KernelKind::Elu => if S::zero().below(x) {
            x.plus(S::one())
        } else {
            x.exp()
        },
        KernelKind::Relu2 => {
            let r = x.larger(S::zero());
            r.times(r)
        },
    }
}

pub fn phi_prime<S: Real>(kind: KernelKind, x: S) -> (r: S)
    ensures
        r == phi_prime_of(kind, x),
{
    match kind {
        KernelKind::Elu => if S::zero().below(x) {
            S::one()
        } else {
            x.exp()
        },
        KernelKind::Relu2 => S::one().plus(S::one()).times(x.larger(S::zero())),
    }
}

/// A sequence of vectors as a matrix with `d` columns.
pub open spec fn rows<S>(x: Seq<S>, d: int) -> Mat<S> {
    blas::operand(Transpose::NoTrans, x, d)
}

/// The features of all scaled entries.
pub open spec fn feat<S: Real>(kind: KernelKind, x: Mat<S>, scale: S) -> Mat<S> {
    |t: int, a: int| phi_of(kind, x(t, a).spec_times(scale))
}

pub open spec fn column<S>(m: Mat<S>, a: int) -> spec_fn(int) -> S {
    |t: int| m(t, a)
}

/// The entries of row `t`, each times its weight.
pub open spec fn weighted<S: Number>(x: Mat<S>, t: int, w: spec_fn(int) -> S) -> spec_fn(int) -> S {
    |a: int| x(t, a).spec_times(w(a))
}

/// The sum of the first `n` rows.
pub open spec fn key_sum<S: Number>(pk: Mat<S>, n: int) -> spec_fn(int) -> S {
    |a: int| number::sum_n(column(pk, a), n)
}

/// Row `t` times a vector of `d` weights.
pub open spec fn row_dot<S: Number>(x: Mat<S>, t: int, w: spec_fn(int) -> S, d: int) -> S {
    number::sum_n(weighted(x, t, w), d)
}

/// The features of the keys times the values, over the whole sequence.
pub open spec fn kv_state<S: Number>(pk: Mat<S>, v: Mat<S>, seq: int, d: int) -> Mat<S> {
    blas::mat_product(Transpose::NoTrans, d, d, seq, blas::transposed(pk), v)
}

pub open spec fn inverse<S: Real>(den: S, eps: S) -> S {
    S::spec_one().spec_over(den.spec_plus(eps))
}

/// What the queries gather before it is normalised.
pub open spec fn gathered<S: Number>(pq: Mat<S>, pk: Mat<S>, v: Mat<S>, seq: int, d: int) -> Mat<S> {
    blas::mat_product(Transpose::NoTrans, seq, d, d, pq, kv_state(pk, v, seq, d))
}

/// The products of key feature `a` and value entry `b`, position by position.
pub open spec fn outer<S: Number>(x: Mat<S>, y: Mat<S>, a: int, b: int) -> spec_fn(int) -> S {
    |t: int| x(t, a).spec_times(y(t, b))
}

/// The state after the first `n` positions.
pub open spec fn state_at<S: Number>(pk: Mat<S>, v: Mat<S>, n: int) -> Mat<S> {
    |a: int, b: int| number::sum_n(outer(pk, v, a, b), n)
}

/// What the queries gather, each from the state after its own position.
pub open spec fn gathered_causal<S: Number>(pq: Mat<S>, pk: Mat<S>, v: Mat<S>, d: int) -> Mat<S> {
    |t: int, b: int| row_dot(pq, t, column(state_at(pk, v, t + 1), b), d)
}

/// How strongly query `t` matches each key.
pub open spec fn score<S: Number>(pq: Mat<S>, pk: Mat<S>, t: int, d: int) -> spec_fn(int) -> S {
    |j: int| row_dot(pq, t, row(pk, j), d)
}

/// Value entry `b` of each position, weighted by how strongly query `t` matches its key.
pub open spec fn scored_value<S: Number>(
    pq: Mat<S>,
    pk: Mat<S>,
    v: Mat<S>,
    t: int,
    b: int,
    d: int,
) -> spec_fn(int) -> S {
    |j: int| score(pq, pk, t, d)(j).spec_times(v(j, b))
}

/// The reciprocal normaliser of each position.
pub open spec fn inverses<S: Real>(
    pq: Mat<S>,
    pk: Mat<S>,
    seq: int,
    d: int,
    eps: S,
    causal: bool,
) -> spec_fn(int) -> S {
    |t: int|
        inverse(
            row_dot(
                pq,
                t,
                key_sum(
                    pk,
                    if causal {
                        t + 1
                    } else {
                        seq
                    },
                ),
                d,
            ),
            eps,
        )
}

/// Linear attention over one sequence.
pub open spec fn attention<S: Real>(
    kind: KernelKind,
    q: Mat<S>,
    k: Mat<S>,
    v: Mat<S>,
    seq: int,
    d: int,
    scale: S,
    eps: S,
    causal: bool,
) -> Mat<S> {
    let pq = feat(kind, q, scale);
    let pk = feat(kind, k, scale);
    let num = if causal {
        gathered_causal(pq, pk, v, d)
    } else {
        gathered(pq, pk, v, seq, d)
    };
    |t: int, b: int| num(t, b).spec_times(inverses(pq, pk, seq, d, eps, causal)(t))
}

/// The first rows of two matrices are the same.
pub open spec fn same_rows<S>(x: Mat<S>, y: Mat<S>, n: int, d: int) -> bool {
    forall|t: int, a: int| 0 <= t < n && 0 <= a < d ==> #[trigger] x(t, a) == y(t, a)
}

/// Causal attention looks back only: what a position gathers does not depend on the queries, keys
/// and values after it.
pub proof fn lemma_looks_back<S: Real>(
    kind: KernelKind,
    q: Mat<S>,
    k: Mat<S>,
    v: Mat<S>,
    q2: Mat<S>,
    k2: Mat<S>,
    v2: Mat<S>,
    seq: int,
    d: int,
    scale: S,
    eps: S,
    t: int,
    b: int,
)
    requires
        0 <= t < seq,
        0 <= b < d,
        same_rows(q, q2, t + 1, d),
        same_rows(k, k2, t + 1, d),
        same_rows(v, v2, t + 1, d),
    ensures
        attention(kind, q, k, v, seq, d, scale, eps, true)(t, b) == attention(
            kind,
            q2,
            k2,
            v2,
            seq,
            d,
            scale,
            eps,
            true,
        )(t, b),
{
    let (pq, pk) = (feat(kind, q, scale), feat(kind, k, scale));
    let (pq2, pk2) = (feat(kind, q2, scale), feat(kind, k2, scale));
    let (w, w2) = (column(state_at(pk, v, t + 1), b), column(state_at(pk2, v2, t + 1), b));
    let (z, z2) = (key_sum(pk, t + 1), key_sum(pk2, t + 1));
    assert forall|a: int| 0 <= a < d implies #[trigger] pq(t, a) == pq2(t, a) && w(a) == w2(a) && z(
        a,
    ) == z2(a) by {
        assert(q(t, a) == q2(t, a));
        let (f, g) = (outer(pk, v, a, b), outer(pk2, v2, a, b));
        assert forall|r: int| 0 <= r < t + 1 implies #[trigger] f(r) == g(r) by {
            assert(k(r, a) == k2(r, a));
            assert(v(r, b) == v2(r, b));
        }
        number::lemma_sum_agree(f, g, t + 1);
        let (m, n) = (column(pk, a), column(pk2, a));
        assert forall|r: int| 0 <= r < t + 1 implies #[trigger] m(r) == n(r) by {
            assert(k(r, a) == k2(r, a));
        }
        number::lemma_sum_agree(m, n, t + 1);
    }
    let (f, g) = (weighted(pq, t, w), weighted(pq2, t, w2));
    assert forall|a: int| 0 <= a < d implies #[trigger] f(a) == g(a) by {
        assert(pq(t, a) == pq2(t, a));
    }
    number::lemma_sum_agree(f, g, d);
    let (f, g) = (weighted(pq, t, z), weighted(pq2, t, z2));
    assert forall|a: int| 0 <= a < d implies #[trigger] f(a) == g(a) by {
        assert(pq(t, a) == pq2(t, a));
    }
    number::lemma_sum_agree(f, g, d);
}

/// The features of a sequence.
fn features<S: Real>(
    kind: KernelKind,
    x: &[S],
    scale: S,
    Ghost(seq): Ghost<int>,
    Ghost(d): Ghost<int>,
) -> (r: Vec<S>)
    requires
        x@.len() == seq * d,
        0 <= seq,
        0 <= d,
    ensures
        blas::holds(r@, feat(kind, rows(x@, d), scale), seq, d),
{
    let mut r: Vec<S> = Vec::new();
    for i in 0..x.len()
        invariant
            r@ =~= Seq::new(i as nat, |i: int| phi_of(kind, x@[i].spec_times(scale))),
    {
        r.push(phi(kind, x[i].times(scale)));
    }
    proof {
        let f = feat(kind, rows(x@, d), scale);
        let g = rows(r@, d);
        assert forall|t: int, a: int|
            #![trigger g(t, a)]
            #![trigger f(t, a)]
            0 <= t < seq && 0 <= a < d implies g(t, a) == f(t, a) by {
            blas::lemma_in_storage(t, a, seq, d);
        }
    }
    r
}

/// The sums of the columns.
#[verifier::loop_isolation(false)]
pub(crate) fn column_sums<S: Real>(x: &[S], seq: usize, d: usize, Ghost(m): Ghost<Mat<S>>) -> (r: Vec<S>)
    requires
        blas::holds(x@, m, seq as int, d as int),
        seq * d <= usize::MAX,
    ensures
        r@.len() == d,
        forall|a: int| 0 <= a < d ==> #[trigger] r@[a] == key_sum(m, seq as int)(a),
{
    let mut r: Vec<S> = filled(S::zero(), d);
    let ghost xm = rows(x@, d as int);
    for t in 0..seq
        invariant
            r@.len() == d,
            forall|a: int| 0 <= a < d ==> #[trigger] r@[a] == number::sum_n(column(m, a), t as int),
    {
        for a in 0..d
            invariant
                r@.len() == d,
                forall|e: int|
                    0 <= e < d ==> #[trigger] r@[e] == number::sum_n(
                        column(m, e),
                        if e < a {
                            t + 1
                        } else {
                            t as int
                        },
                    ),
        {
            proof {
                blas::lemma_in_storage(t as int, a as int, seq as int, d as int);
                blas::lemma_row_fits(t as int, seq as int, d as int);
                assert(xm(t as int, a as int) == m(t as int, a as int));
            }
            let v = r[a].plus(x[t * d + a]);
            r[a] = v;
        }
    }
    r
}

/// Row `t` times a vector.
#[verifier::loop_isolation(false)]
fn row_times<S: Real>(
    x: &[S],
    t: usize,
    w: &[S],
    seq: usize,
    d: usize,
    Ghost(m): Ghost<Mat<S>>,
    Ghost(f): Ghost<spec_fn(int) -> S>,
) -> (r: S)
    requires
        blas::holds(x@, m, seq as int, d as int),
        seq * d <= usize::MAX,
        t < seq,
        w@.len() == d,
        forall|a: int| 0 <= a < d ==> #[trigger] w@[a] == f(a),
    ensures
        r == row_dot(m, t as int, f, d as int),
{
    let ghost xm = rows(x@, d as int);
    let mut acc = S::zero();
    for a in 0..d
        invariant
            acc == number::sum_n(weighted(m, t as int, f), a as int),
    {
        proof {
            blas::lemma_in_storage(t as int, a as int, seq as int, d as int);
            blas::lemma_row_fits(t as int, seq as int, d as int);
            assert(xm(t as int, a as int) == m(t as int, a as int));
        }
        acc = acc.plus(x[t * d + a].times(w[a]));
    }
    acc
}

/// Attention of every position to every position: one product builds the state, another
/// answers the queries.
#[verifier::loop_isolation(false)]
fn forward_ncausal<S: Real>(
    kind: KernelKind,
    q: &[S],
    k: &[S],
    v: &[S],
    seq: usize,
    d: usize,
    scale: S,
    eps: S,
) -> (r: Vec<S>)
    requires
        q@.len() == seq * d,
        k@.len() == seq * d,
        v@.len() == seq * d,
        seq * d * d <= usize::MAX,
        d * d <= usize::MAX,
        seq * d <= usize::MAX,
    ensures
        blas::holds(
            r@,
            attention(
                kind,
                rows(q@, d as int),
                rows(k@, d as int),
                rows(v@, d as int),
                seq as int,
                d as int,
                scale,
                eps,
                false,
            ),
            seq as int,
            d as int,
        ),
{
    let ghost (n, e) = (seq as int, d as int);
    let ghost (qm, km, vm) = (rows(q@, e), rows(k@, e), rows(v@, e));
    let ghost (pq, pk) = (feat(kind, qm, scale), feat(kind, km, scale));
    let phi_q = features(kind, q, scale, Ghost(n), Ghost(e));
    let phi_k = features(kind, k, scale, Ghost(n), Ghost(e));
    proof {
        blas::lemma_contiguous(n, e);
        blas::lemma_contiguous(e, e);
        assert(d * d * seq == seq * d * d) by (nonlinear_arith);
        let tk = blas::operand(Transpose::Trans, phi_k@, e);
        let mk = rows(phi_k@, e);
        assert forall|a: int, t: int|
            #![trigger tk(a, t)]
            #![trigger blas::transposed(pk)(a, t)]
            0 <= a < d && 0 <= t < seq implies tk(a, t) == blas::transposed(pk)(a, t) by {
            assert(mk(t, a) == pk(t, a));
        }
    }
    let ghost state = kv_state(pk, vm, n, e);
    let s = fresh_product(
        Transpose::Trans,
        Transpose::NoTrans,
        d,
        d,
        seq,
        &phi_k,
        d,
        v,
        d,
        Ghost(blas::transposed(pk)),
        Ghost(vm),
    );
    let z = column_sums(&phi_k, seq, d, Ghost(pk));
    let num = fresh_product(
        Transpose::NoTrans,
        Transpose::NoTrans,
        seq,
        d,
        d,
        &phi_q,
        d,
        &s,
        d,
        Ghost(pq),
        Ghost(state),
    );
    let ghost gm = gathered(pq, pk, vm, n, e);
    let ghost out = attention(kind, qm, km, vm, n, e, scale, eps, false);
    let mut r: Vec<S> = Vec::new();
    proof {
        blas::lemma_holds_at(num@, gm, n, e);
        assert(0 * d == 0) by (nonlinear_arith);
    }
    for t in 0..seq
        invariant
            r@.len() == t * d,
            forall|x: int|
                0 <= x < r@.len() ==> #[trigger] r@[x] == out(
                    blas::row_of(x, e),
                    blas::col_of(x, e),
                ),
    {
        let den = row_times(&phi_q, t, &z, seq, d, Ghost(pq), Ghost(key_sum(pk, n)));
        let inv = S::one().over(den.plus(eps));
        for b in 0..d
            invariant
                r@.len() == t * d + b,
                forall|x: int|
                    0 <= x < r@.len() ==> #[trigger] r@[x] == out(
                        blas::row_of(x, e),
                        blas::col_of(x, e),
                    ),
        {
            proof {
                blas::lemma_in_storage(t as int, b as int, n, e);
                blas::lemma_row_fits(t as int, n, e);
                blas::lemma_cell(t as int, b as int, e);
            }
            r.push(num[t * d + b].times(inv));
        }
        assert(t * d + d == (t + 1) * d) by (nonlinear_arith);
    }
    proof {
        blas::lemma_holds_from(r@, out, n, e);
    }
    r
}

/// Column `b` of a square matrix, weighted by row `t`.
#[verifier::loop_isolation(false)]
fn row_times_column<S: Real>(
    x: &[S],
    t: usize,
    m: &[S],
    b: usize,
    seq: usize,
    d: usize,
    Ghost(xm): Ghost<Mat<S>>,
    Ghost(mm): Ghost<Mat<S>>,
) -> (r: S)
    requires
        blas::holds(x@, xm, seq as int, d as int),
        blas::holds(m@, mm, d as int, d as int),
        seq * d <= usize::MAX,
        d * d <= usize::MAX,
        t < seq,
        b < d,
    ensures
        r == row_dot(xm, t as int, column(mm, b as int), d as int),
{
    let ghost xr = rows(x@, d as int);
    let ghost mr = rows(m@, d as int);
    let mut acc = S::zero();
    for a in 0..d
        invariant
            acc == number::sum_n(weighted(xm, t as int, column(mm, b as int)), a as int),
    {
        proof {
            blas::lemma_in_storage(t as int, a as int, seq as int, d as int);
            blas::lemma_row_fits(t as int, seq as int, d as int);
            blas::lemma_in_storage(a as int, b as int, d as int, d as int);
            blas::lemma_row_fits(a as int, d as int, d as int);
            assert(xr(t as int, a as int) == xm(t as int, a as int));
            assert(mr(a as int, b as int) == mm(a as int, b as int));
        }
        acc = acc.plus(x[t * d + a].times(m[a * d + b]));
    }
    acc
}

/// Adds the outer product of row `t` of `x` and row `t` of `y` to a state.
#[verifier::loop_isolation(false)]
fn absorb<S: Real>(
    x: &[S],
    y: &[S],
    t: usize,
    seq: usize,
    d: usize,
    s: &mut Vec<S>,
    Ghost(xm): Ghost<Mat<S>>,
    Ghost(ym): Ghost<Mat<S>>,
)
    requires
        blas::holds(x@, xm, seq as int, d as int),
        blas::holds(y@, ym, seq as int, d as int),
        seq * d <= usize::MAX,
        d * d <= usize::MAX,
        t < seq,
        old(s)@.len() == d * d,
    ensures
        final(s)@.len() == d * d,
        forall|z: int|
            0 <= z < d * d ==> #[trigger] final(s)@[z] == old(s)@[z].spec_plus(
                outer(xm, ym, blas::row_of(z, d as int), blas::col_of(z, d as int))(t as int),
            ),
{
    let ghost e = d as int;
    let ghost (xr, yr) = (rows(x@, e), rows(y@, e));
    let ghost f = |z: int| outer(xm, ym, blas::row_of(z, e), blas::col_of(z, e))(t as int);
    assert(0 * d == 0) by (nonlinear_arith);
    for a in 0..d
        invariant
            s@.len() == d * d,
            forall|z: int|
                0 <= z < d * d ==> #[trigger] s@[z] == if z < a * d {
                    old(s)@[z].spec_plus(f(z))
                } else {
                    old(s)@[z]
                },
    {
        proof {
            blas::lemma_in_storage(t as int, a as int, seq as int, e);
            blas::lemma_row_fits(t as int, seq as int, e);
            assert(xr(t as int, a as int) == xm(t as int, a as int));
        }
        let xa = x[t * d + a];
        for b in 0..d
            invariant
                s@.len() == d * d,
                forall|z: int|
                    0 <= z < d * d ==> #[trigger] s@[z] == if z < a * d + b {
                        old(s)@[z].spec_plus(f(z))
                    } else {
                        old(s)@[z]
                    },
        {
            proof {
                blas::lemma_in_storage(t as int, b as int, seq as int, e);
                blas::lemma_in_storage(a as int, b as int, e, e);
                blas::lemma_row_fits(a as int, e, e);
                blas::lemma_cell(a as int, b as int, e);
                assert(yr(t as int, b as int) == ym(t as int, b as int));
            }
            let v = s[a * d + b].plus(xa.times(y[t * d + b]));
            s[a * d + b] = v;
        }
        assert(a * d + d == (a + 1) * d) by (nonlinear_arith);
    }
}

/// Adds row `t` to a sum of rows.
#[verifier::loop_isolation(false)]
fn absorb_row<S: Real>(
    x: &[S],
    t: usize,
    seq: usize,
    d: usize,
    z: &mut Vec<S>,
    Ghost(xm): Ghost<Mat<S>>,
)
    requires
        blas::holds(x@, xm, seq as int, d as int),
        seq * d <= usize::MAX,
        t < seq,
        old(z)@.len() == d,
    ensures
        final(z)@.len() == d,
        forall|a: int|
            0 <= a < d ==> #[trigger] final(z)@[a] == old(z)@[a].spec_plus(xm(t as int, a)),
{
    let ghost xr = rows(x@, d as int);
    for a in 0..d
        invariant
            z@.len() == d,
            forall|c: int|
                0 <= c < d ==> #[trigger] z@[c] == if c < a {
                    old(z)@[c].spec_plus(xm(t as int, c))
                } else {
                    old(z)@[c]
                },
    {
        proof {
            blas::lemma_in_storage(t as int, a as int, seq as int, d as int);
            blas::lemma_row_fits(t as int, seq as int, d as int);
            assert(xr(t as int, a as int) == xm(t as int, a as int));
        }
        let v = z[a].plus(x[t * d + a]);
        z[a] = v;
    }
}

/// Attention of every position to itself and those before it, by a running state.
#[verifier::loop_isolation(false)]
fn forward_causal<S: Real>(
    kind: KernelKind,
    q: &[S],
    k: &[S],
    v: &[S],
    seq: usize,
    d: usize,
    scale: S,
    eps: S,
) -> (r: Vec<S>)
    requires
        q@.len() == seq * d,
        k@.len() == seq * d,
        v@.len() == seq * d,
        d * d <= usize::MAX,
        seq * d <= usize::MAX,
    ensures
        blas::holds(
            r@,
            attention(
                kind,
                rows(q@, d as int),
                rows(k@, d as int),
                rows(v@, d as int),
                seq as int,
                d as int,
                scale,
                eps,
                true,
            ),
            seq as int,
            d as int,
        ),
{
    let ghost (n, e) = (seq as int, d as int);
    let ghost (qm, km, vm) = (rows(q@, e), rows(k@, e), rows(v@, e));
    let ghost (pq, pk) = (feat(kind, qm, scale), feat(kind, km, scale));
    let phi_q = features(kind, q, scale, Ghost(n), Ghost(e));
    let phi_k = features(kind, k, scale, Ghost(n), Ghost(e));
    let mut s: Vec<S> = filled(S::zero(), d * d);
    let mut z: Vec<S> = filled(S::zero(), d);
    let ghost out = attention(kind, qm, km, vm, n, e, scale, eps, true);
    let mut r: Vec<S> = Vec::new();
    assert(0 * d == 0) by (nonlinear_arith);
    for t in 0..seq
        invariant
            r@.len() == t * d,
            forall|x: int|
                0 <= x < r@.len() ==> #[trigger] r@[x] == out(
                    blas::row_of(x, e),
                    blas::col_of(x, e),
                ),
            s@.len() == d * d,
            z@.len() == d,
            forall|x: int|
                0 <= x < d * d ==> #[trigger] s@[x] == state_at(pk, vm, t as int)(
                    blas::row_of(x, e),
                    blas::col_of(x, e),
                ),
            forall|a: int| 0 <= a < d ==> #[trigger] z@[a] == key_sum(pk, t as int)(a),
    {
        absorb(&phi_k, v, t, seq, d, &mut s, Ghost(pk), Ghost(vm));
        absorb_row(&phi_k, t, seq, d, &mut z, Ghost(pk));
        let ghost state = state_at(pk, vm, t + 1);
        proof {
            blas::lemma_holds_from(s@, state, e, e);
        }
        let den = row_times(&phi_q, t, &z, seq, d, Ghost(pq), Ghost(key_sum(pk, t + 1)));
        let inv = S::one().over(den.plus(eps));
        for b in 0..d
            invariant
                r@.len() == t * d + b,
                forall|x: int|
                    0 <= x < r@.len() ==> #[trigger] r@[x] == out(
                        blas::row_of(x, e),
                        blas::col_of(x, e),
                    ),
        {
            proof {
                blas::lemma_cell(t as int, b as int, e);
            }
            let num = row_times_column(
                &phi_q,
                t,
                &s,
                b,
                seq,
                d,
                Ghost(pq),
                Ghost(state),
            );
            r.push(num.times(inv));
        }
        assert(t * d + d == (t + 1) * d) by (nonlinear_arith);
    }
    proof {
        blas::lemma_holds_from(r@, out, n, e);
    }
    r
}

/// The products of the entries of row `t` of two matrices.
pub open spec fn pairwise<S: Real>(x: Mat<S>, y: Mat<S>, t: int) -> spec_fn(int) -> S {
    |b: int| x(t, b).spec_times(y(t, b))
}

/// The gradient of what was gathered.
pub open spec fn gathered_grad<S: Real>(g: Mat<S>, inv: spec_fn(int) -> S) -> Mat<S> {
    |t: int, b: int| g(t, b).spec_times(inv(t))
}

/// The gradient of the normalisers.
pub open spec fn normaliser_grad<S: Real>(
    g: Mat<S>,
    num: Mat<S>,
    inv: spec_fn(int) -> S,
    d: int,
) -> spec_fn(int) -> S {
    |t: int|
        number::sum_n(pairwise(g, num, t), d).spec_neg().spec_times(inv(t).spec_times(inv(t)))
}

/// Column `a`, each entry times the weight of its row.
pub open spec fn scaled_column<S: Real>(
    x: Mat<S>,
    a: int,
    w: spec_fn(int) -> S,
) -> spec_fn(int) -> S {
    |t: int| x(t, a).spec_times(w(t))
}

pub open spec fn row<S>(m: Mat<S>, t: int) -> spec_fn(int) -> S {
    |b: int| m(t, b)
}

/// The entries of column `b`, each times its weight.
pub open spec fn weighted_column<S: Real>(
    m: Mat<S>,
    b: int,
    w: spec_fn(int) -> S,
) -> spec_fn(int) -> S {
    |a: int| m(a, b).spec_times(w(a))
}

/// The gradient of the state after position `t`, gathered from the end of the sequence.
pub open spec fn state_grad_at<S: Real>(pq: Mat<S>, gn: Mat<S>, t: int, seq: int) -> Mat<S> {
    |a: int, b: int| number::sum_back(outer(pq, gn, a, b), t, seq)
}

/// The gradients of query features, key features and values.
pub open spec fn feature_grads<S: Real>(
    pq: Mat<S>,
    pk: Mat<S>,
    v: Mat<S>,
    g: Mat<S>,
    seq: int,
    d: int,
    eps: S,
    causal: bool,
) -> (Mat<S>, Mat<S>, Mat<S>) {
    let inv = inverses(pq, pk, seq, d, eps, causal);
    let num = if causal {
        gathered_causal(pq, pk, v, d)
    } else {
        gathered(pq, pk, v, seq, d)
    };
    let gn = gathered_grad(g, inv);
    let gd = normaliser_grad(g, num, inv, d);
    if causal {
        (
            |t: int, a: int|
                row_dot(state_at(pk, v, t + 1), a, row(gn, t), d).spec_plus(
                    key_sum(pk, t + 1)(a).spec_times(gd(t)),
                ),
            |t: int, a: int|
                row_dot(state_grad_at(pq, gn, t, seq), a, row(v, t), d).spec_plus(
                    number::sum_back(scaled_column(pq, a, gd), t, seq),
                ),
            |t: int, b: int|
                number::sum_n(
                    weighted_column(state_grad_at(pq, gn, t, seq), b, row(pk, t)),
                    d,
                ),
        )
    } else {
        let sg = blas::mat_product(Transpose::NoTrans, d, d, seq, blas::transposed(pq), gn);
        let by_query = blas::mat_product(
            Transpose::Trans,
            seq,
            d,
            d,
            gn,
            blas::transposed(kv_state(pk, v, seq, d)),
        );
        let by_key = blas::mat_product(Transpose::Trans, seq, d, d, v, blas::transposed(sg));
        (
            |t: int, a: int|
                by_query(t, a).spec_plus(gd(t).spec_times(key_sum(pk, seq)(a))),
            |t: int, a: int|
                by_key(t, a).spec_plus(number::sum_n(scaled_column(pq, a, gd), seq)),
            blas::mat_product(Transpose::NoTrans, seq, d, d, pk, sg),
        )
    }
}

/// The gradient of an input, by the chain rule through the scaled feature map.
pub open spec fn input_grad<S: Real>(
    kind: KernelKind,
    x: Mat<S>,
    fg: Mat<S>,
    scale: S,
) -> Mat<S> {
    |t: int, a: int|
        fg(t, a).spec_times(phi_prime_of(kind, x(t, a).spec_times(scale))).spec_times(scale)
}

/// The gradients of queries, keys and values of one sequence.
pub open spec fn attention_grads<S: Real>(
    kind: KernelKind,
    q: Mat<S>,
    k: Mat<S>,
    v: Mat<S>,
    g: Mat<S>,
    seq: int,
    d: int,
    scale: S,
    eps: S,
    causal: bool,
) -> (Mat<S>, Mat<S>, Mat<S>) {
    let (fq, fk, fv) = feature_grads(
        feat(kind, q, scale),
        feat(kind, k, scale),
        v,
        g,
        seq,
        d,
        eps,
        causal,
    );
    (input_grad(kind, q, fq, scale), input_grad(kind, k, fk, scale), fv)
}

/// The gradients of what was gathered and of the normalisers.
#[verifier::loop_isolation(false)]
fn local_grads<S: Real>(
    grad: &[S],
    num: &[S],
    inv: &[S],
    seq: usize,
    d: usize,
    Ghost(gm): Ghost<Mat<S>>,
    Ghost(nm): Ghost<Mat<S>>,
    Ghost(iv): Ghost<spec_fn(int) -> S>,
) -> (r: (Vec<S>, Vec<S>))
    requires
        blas::holds(grad@, gm, seq as int, d as int),
        blas::holds(num@, nm, seq as int, d as int),
        inv@.len() == seq,
        forall|t: int| 0 <= t < seq ==> #[trigger] inv@[t] == iv(t),
        seq * d <= usize::MAX,
    ensures
        blas::holds(r.0@, gathered_grad(gm, iv), seq as int, d as int),
        r.1@.len() == seq,
        forall|t: int|
            0 <= t < seq ==> #[trigger] r.1@[t] == normaliser_grad(gm, nm, iv, d as int)(t),
{
    let ghost (n, e) = (seq as int, d as int);
    let ghost gn = gathered_grad(gm, iv);
    let mut gnum: Vec<S> = Vec::new();
    let mut gdi: Vec<S> = Vec::new();
    proof {
        blas::lemma_holds_at(grad@, gm, n, e);
        blas::lemma_holds_at(num@, nm, n, e);
        assert(0 * d == 0) by (nonlinear_arith);
    }
    for t in 0..seq
        invariant
            gnum@.len() == t * d,
            gdi@.len() == t,
            forall|x: int|
                0 <= x < gnum@.len() ==> #[trigger] gnum@[x] == gn(
                    blas::row_of(x, e),
                    blas::col_of(x, e),
                ),
            forall|i: int|
                0 <= i < t ==> #[trigger] gdi@[i] == normaliser_grad(gm, nm, iv, e)(i),
    {
        let mut dot = S::zero();
        for b in 0..d
            invariant
                gnum@.len() == t * d + b,
                forall|x: int|
                    0 <= x < gnum@.len() ==> #[trigger] gnum@[x] == gn(
                        blas::row_of(x, e),
                        blas::col_of(x, e),
                    ),
                dot == number::sum_n(pairwise(gm, nm, t as int), b as int),
        {
            proof {
                blas::lemma_in_storage(t as int, b as int, n, e);
                blas::lemma_row_fits(t as int, n, e);
                blas::lemma_cell(t as int, b as int, e);
            }
            let x: usize = t * d + b;
            gnum.push(grad[x].times(inv[t]));
            dot = dot.plus(grad[x].times(num[x]));
        }
        gdi.push(dot.neg().times(inv[t].times(inv[t])));
        assert(t * d + d == (t + 1) * d) by (nonlinear_arith);
    }
    proof {
        blas::lemma_holds_from(gnum@, gn, n, e);
    }
    (gnum, gdi)
}

/// The sums of the columns, each entry times the weight of its row.
#[verifier::loop_isolation(false)]
fn weighted_sums<S: Real>(
    x: &[S],
    w: &[S],
    seq: usize,
    d: usize,
    Ghost(m): Ghost<Mat<S>>,
    Ghost(f): Ghost<spec_fn(int) -> S>,
) -> (r: Vec<S>)
    requires
        blas::holds(x@, m, seq as int, d as int),
        w@.len() == seq,
        forall|t: int| 0 <= t < seq ==> #[trigger] w@[t] == f(t),
        seq * d <= usize::MAX,
    ensures
        r@.len() == d,
        forall|a: int|
            0 <= a < d ==> #[trigger] r@[a] == number::sum_n(scaled_column(m, a, f), seq as int),
{
    let mut r: Vec<S> = filled(S::zero(), d);
    let ghost xm = rows(x@, d as int);
    for t in 0..seq
        invariant
            r@.len() == d,
            forall|a: int|
                0 <= a < d ==> #[trigger] r@[a] == number::sum_n(
                    scaled_column(m, a, f),
                    t as int,
                ),
    {
        for a in 0..d
            invariant
                r@.len() == d,
                forall|e: int|
                    0 <= e < d ==> #[trigger] r@[e] == number::sum_n(
                        scaled_column(m, e, f),
                        if e < a {
                            t + 1
                        } else {
                            t as int
                        },
                    ),
        {
            proof {
                blas::lemma_in_storage(t as int, a as int, seq as int, d as int);
                blas::lemma_row_fits(t as int, seq as int, d as int);
                assert(xm(t as int, a as int) == m(t as int, a as int));
            }
            let v = r[a].plus(x[t * d + a].times(w[t]));
            r[a] = v;
        }
    }
    r
}

/// Multiplies feature gradients by the derivative of the feature map and the scale.
#[verifier::loop_isolation(false)]
fn chain<S: Real>(
    kind: KernelKind,
    x: &[S],
    fg: &[S],
    scale: S,
    Ghost(fm): Ghost<Mat<S>>,
    Ghost(n): Ghost<int>,
    Ghost(e): Ghost<int>,
) -> (r: Vec<S>)
    requires
        x@.len() == n * e,
        blas::holds(fg@, fm, n, e),
        0 <= n,
        0 <= e,
    ensures
        blas::holds(r@, input_grad(kind, rows(x@, e), fm, scale), n, e),
{
    let mut r: Vec<S> = Vec::new();
    for i in 0..x.len()
        invariant
            r@ =~= Seq::new(
                i as nat,
                |i: int|
                    fg@[i].spec_times(phi_prime_of(kind, x@[i].spec_times(scale))).spec_times(
                        scale,
                    ),
            ),
    {
        r.push(fg[i].times(phi_prime(kind, x[i].times(scale))).times(scale));
    }
    proof {
        let f = input_grad(kind, rows(x@, e), fm, scale);
        let g = rows(r@, e);
        let h = rows(fg@, e);
        assert forall|t: int, a: int|
            #![trigger g(t, a)]
            #![trigger f(t, a)]
            0 <= t < n && 0 <= a < e implies g(t, a) == f(t, a) by {
            blas::lemma_in_storage(t, a, n, e);
            assert(h(t, a) == fm(t, a));
        }
    }
    r
}

/// Contiguous storage, read as transposed, holds the transpose.
pub proof fn lemma_transposed_operand<S>(v: Seq<S>, m: Mat<S>, n: int, e: int)
    requires
        blas::holds(v, m, n, e),
    ensures
        blas::agree(blas::operand(Transpose::Trans, v, e), blas::transposed(m), e, n),
{
    let tk = blas::operand(Transpose::Trans, v, e);
    let mk = rows(v, e);
    assert forall|a: int, t: int|
        #![trigger tk(a, t)]
        #![trigger blas::transposed(m)(a, t)]
        0 <= a < e && 0 <= t < n implies tk(a, t) == blas::transposed(m)(a, t) by {
        assert(mk(t, a) == m(t, a));
    }
}

/// The gradients of attention of every position to every position.
#[verifier::loop_isolation(false)]
#[verifier::rlimit(40)]
fn backward_ncausal<S: Real>(
    kind: KernelKind,
    q: &[S],
    k: &[S],
    v: &[S],
    grad: &[S],
    seq: usize,
    d: usize,
    scale: S,
    eps: S,
) -> (r: (Vec<S>, Vec<S>, Vec<S>))
    requires
        q@.len() == seq * d,
        k@.len() == seq * d,
        v@.len() == seq * d,
        grad@.len() == seq * d,
        seq * d * d <= usize::MAX,
        d * d <= usize::MAX,
        seq * d <= usize::MAX,
    ensures
        ({
            let (dq, dk, dv) = attention_grads(
                kind,
                rows(q@, d as int),
                rows(k@, d as int),
                rows(v@, d as int),
                rows(grad@, d as int),
                seq as int,
                d as int,
                scale,
                eps,
                false,
            );
            &&& blas::holds(r.0@, dq, seq as int, d as int)
            &&& blas::holds(r.1@, dk, seq as int, d as int)
            &&& blas::holds(r.2@, dv, seq as int, d as int)
        }),
{
    let ghost (n, e) = (seq as int, d as int);
    let ghost (qm, km, vm, gm) = (rows(q@, e), rows(k@, e), rows(v@, e), rows(grad@, e));
    let ghost (pq, pk) = (feat(kind, qm, scale), feat(kind, km, scale));
    let phi_q = features(kind, q, scale, Ghost(n), Ghost(e));
    let phi_k = features(kind, k, scale, Ghost(n), Ghost(e));
    proof {
        blas::lemma_contiguous(n, e);
        blas::lemma_contiguous(e, e);
        assert(d * d * seq == seq * d * d) by (nonlinear_arith);
        lemma_transposed_operand(phi_k@, pk, n, e);
        lemma_transposed_operand(phi_q@, pq, n, e);
    }
    let ghost state = kv_state(pk, vm, n, e);
    let s = fresh_product(
        Transpose::Trans,
        Transpose::NoTrans,
        d,
        d,
        seq,
        &phi_k,
        d,
        v,
        d,
        Ghost(blas::transposed(pk)),
        Ghost(vm),
    );
    let z = column_sums(&phi_k, seq, d, Ghost(pk));
    let num = fresh_product(
        Transpose::NoTrans,
        Transpose::NoTrans,
        seq,
        d,
        d,
        &phi_q,
        d,
        &s,
        d,
        Ghost(pq),
        Ghost(state),
    );
    let ghost iv = inverses(pq, pk, n, e, eps, false);
    let mut inv: Vec<S> = Vec::new();
    for t in 0..seq
        invariant
            inv@.len() == t,
            forall|i: int| 0 <= i < t ==> #[trigger] inv@[i] == iv(i),
    {
        let den = row_times(&phi_q, t, &z, seq, d, Ghost(pq), Ghost(key_sum(pk, n)));
        inv.push(S::one().over(den.plus(eps)));
    }
    let ghost nm = gathered(pq, pk, vm, n, e);
    let (gnum, gdi) = local_grads(grad, &num, &inv, seq, d, Ghost(gm), Ghost(nm), Ghost(iv));
    let ghost gn = gathered_grad(gm, iv);
    let ghost gd = normaliser_grad(gm, nm, iv, e);
    let ghost sg = blas::mat_product(Transpose::NoTrans, e, e, n, blas::transposed(pq), gn);
    let s_grad = fresh_product(
        Transpose::Trans,
        Transpose::NoTrans,
        d,
        d,
        seq,
        &phi_q,
        d,
        &gnum,
        d,
        Ghost(blas::transposed(pq)),
        Ghost(gn),
    );
    let z_grad = weighted_sums(&phi_q, &gdi, seq, d, Ghost(pq), Ghost(gd));
    proof {
        lemma_transposed_operand(s@, state, e, e);
        lemma_transposed_operand(s_grad@, sg, e, e);
    }
    let ghost by_query = blas::mat_product(
        Transpose::Trans,
        n,
        e,
        e,
        gn,
        blas::transposed(state),
    );
    let ghost by_key = blas::mat_product(Transpose::Trans, n, e, e, vm, blas::transposed(sg));
    let q_part = fresh_product(
        Transpose::NoTrans,
        Transpose::Trans,
        seq,
        d,
        d,
        &gnum,
        d,
        &s,
        d,
        Ghost(gn),
        Ghost(blas::transposed(state)),
    );
    let dv = fresh_product(
        Transpose::NoTrans,
        Transpose::NoTrans,
        seq,
        d,
        d,
        &phi_k,
        d,
        &s_grad,
        d,
        Ghost(pk),
        Ghost(sg),
    );
    let k_part = fresh_product(
        Transpose::NoTrans,
        Transpose::Trans,
        seq,
        d,
        d,
        v,
        d,
        &s_grad,
        d,
        Ghost(vm),
        Ghost(blas::transposed(sg)),
    );
    let ghost (fq, fk, fv) = feature_grads(pq, pk, vm, gm, n, e, eps, false);
    let mut phi_q_grad: Vec<S> = Vec::new();
    let mut phi_k_grad: Vec<S> = Vec::new();
    proof {
        blas::lemma_holds_at(q_part@, by_query, n, e);
        blas::lemma_holds_at(k_part@, by_key, n, e);
        assert(0 * d == 0) by (nonlinear_arith);
    }
    for t in 0..seq
        invariant
            phi_q_grad@.len() == t * d,
            phi_k_grad@.len() == t * d,
            forall|x: int|
                0 <= x < t * d ==> #[trigger] phi_q_grad@[x] == fq(
                    blas::row_of(x, e),
                    blas::col_of(x, e),
                ),
            forall|x: int|
                0 <= x < t * d ==> #[trigger] phi_k_grad@[x] == fk(
                    blas::row_of(x, e),
                    blas::col_of(x, e),
                ),
    {
        for a in 0..d
            invariant
                phi_q_grad@.len() == t * d + a,
                phi_k_grad@.len() == t * d + a,
                forall|x: int|
                    0 <= x < t * d + a ==> #[trigger] phi_q_grad@[x] == fq(
                        blas::row_of(x, e),
                        blas::col_of(x, e),
                    ),
                forall|x: int|
                    0 <= x < t * d + a ==> #[trigger] phi_k_grad@[x] == fk(
                        blas::row_of(x, e),
                        blas::col_of(x, e),
                    ),
        {
            proof {
                blas::lemma_in_storage(t as int, a as int, n, e);
                blas::lemma_row_fits(t as int, n, e);
                blas::lemma_cell(t as int, a as int, e);
            }
            let x: usize = t * d + a;
            phi_q_grad.push(q_part[x].plus(gdi[t].times(z[a])));
            phi_k_grad.push(k_part[x].plus(z_grad[a]));
        }
        assert(t * d + d == (t + 1) * d) by (nonlinear_arith);
    }
    proof {
        blas::lemma_holds_from(phi_q_grad@, fq, n, e);
        blas::lemma_holds_from(phi_k_grad@, fk, n, e);
    }
    let dq = chain(kind, q, &phi_q_grad, scale, Ghost(fq), Ghost(n), Ghost(e));
    let dk = chain(kind, k, &phi_k_grad, scale, Ghost(fk), Ghost(n), Ghost(e));
    (dq, dk, dv)
}

/// A copy of a vector.
fn copied<S: Copy>(v: &Vec<S>) -> (r: Vec<S>)
    ensures
        r@ == v@,
{
    let mut r: Vec<S> = Vec::new();
    for i in 0..v.len()
        invariant
            r@ =~= v@.take(i as int),
    {
        r.push(v[i]);
    }
    r
}

/// Row `t` of a sequence.
fn row_slice<'a, S: Real>(x: &'a [S], t: usize, seq: usize, d: usize) -> (r: &'a [S])
    requires
        x@.len() == seq * d,
        t < seq,
    ensures
        r@.len() == d,
        forall|a: int| 0 <= a < d ==> #[trigger] r@[a] == rows(x@, d as int)(t as int, a),
{
    let len: usize = x.len();
    proof {
        blas::lemma_row_fits(t as int, seq as int, d as int);
        assert((seq - 1) * d + d == seq * d) by (nonlinear_arith);
    }
    vstd::slice::slice_subrange(x, t * d, t * d + d)
}

/// Column `b` of a square matrix times a vector.
#[verifier::loop_isolation(false)]
fn column_times<S: Real>(
    m: &[S],
    b: usize,
    w: &[S],
    d: usize,
    Ghost(mm): Ghost<Mat<S>>,
    Ghost(f): Ghost<spec_fn(int) -> S>,
) -> (r: S)
    requires
        blas::holds(m@, mm, d as int, d as int),
        d * d <= usize::MAX,
        b < d,
        w@.len() == d,
        forall|a: int| 0 <= a < d ==> #[trigger] w@[a] == f(a),
    ensures
        r == number::sum_n(weighted_column(mm, b as int, f), d as int),
{
    let ghost mr = rows(m@, d as int);
    let mut acc = S::zero();
    for a in 0..d
        invariant
            acc == number::sum_n(weighted_column(mm, b as int, f), a as int),
    {
        proof {
            blas::lemma_in_storage(a as int, b as int, d as int, d as int);
            blas::lemma_row_fits(a as int, d as int, d as int);
            assert(mr(a as int, b as int) == mm(a as int, b as int));
        }
        acc = acc.plus(m[a * d + b].times(w[a]));
    }
    acc
}

/// The states after each position.
#[verifier::loop_isolation(false)]
fn running_states<S: Real>(
    phi_k: &[S],
    v: &[S],
    seq: usize,
    d: usize,
    Ghost(pk): Ghost<Mat<S>>,
    Ghost(vm): Ghost<Mat<S>>,
) -> (r: (Vec<Vec<S>>, Vec<Vec<S>>))
    requires
        blas::holds(phi_k@, pk, seq as int, d as int),
        blas::holds(v@, vm, seq as int, d as int),
        d * d <= usize::MAX,
        seq * d <= usize::MAX,
    ensures
        r.0@.len() == seq,
        r.1@.len() == seq,
        forall|t: int|
            0 <= t < seq ==> blas::holds(
                (#[trigger] r.0@[t])@,
                state_at(pk, vm, t + 1),
                d as int,
                d as int,
            ),
        forall|t: int|
            #![trigger r.1@[t]]
            0 <= t < seq ==> r.1@[t]@.len() == d && forall|a: int|
                0 <= a < d ==> #[trigger] r.1@[t]@[a] == key_sum(pk, t + 1)(a),
{
    let ghost e = d as int;
    let mut states: Vec<Vec<S>> = Vec::new();
    let mut sums: Vec<Vec<S>> = Vec::new();
    let mut s: Vec<S> = filled(S::zero(), d * d);
    let mut z: Vec<S> = filled(S::zero(), d);
    for t in 0..seq
        invariant
            states@.len() == t,
            sums@.len() == t,
            s@.len() == d * d,
            z@.len() == d,
            forall|x: int|
                0 <= x < d * d ==> #[trigger] s@[x] == state_at(pk, vm, t as int)(
                    blas::row_of(x, e),
                    blas::col_of(x, e),
                ),
            forall|a: int| 0 <= a < d ==> #[trigger] z@[a] == key_sum(pk, t as int)(a),
            forall|i: int|
                0 <= i < t ==> blas::holds(
                    (#[trigger] states@[i])@,
                    state_at(pk, vm, i + 1),
                    e,
                    e,
                ),
            forall|i: int|
                #![trigger sums@[i]]
                0 <= i < t ==> sums@[i]@.len() == d && forall|a: int|
                    0 <= a < d ==> #[trigger] sums@[i]@[a] == key_sum(pk, i + 1)(a),
    {
        absorb(phi_k, v, t, seq, d, &mut s, Ghost(pk), Ghost(vm));
        absorb_row(phi_k, t, seq, d, &mut z, Ghost(pk));
        proof {
            blas::lemma_holds_from(s@, state_at(pk, vm, t + 1), e, e);
        }
        states.push(copied(&s));
        sums.push(copied(&z));
    }
    (states, sums)
}

/// The gradients of attention of every position to itself and those before it: a scan from
/// the end carries the gradients of the state.
#[verifier::loop_isolation(false)]
#[verifier::rlimit(60)]
fn backward_causal<S: Real>(
    kind: KernelKind,
    q: &[S],
    k: &[S],
    v: &[S],
    grad: &[S],
    seq: usize,
    d: usize,
    scale: S,
    eps: S,
) -> (r: (Vec<S>, Vec<S>, Vec<S>))
    requires
        q@.len() == seq * d,
        k@.len() == seq * d,
        v@.len() == seq * d,
        grad@.len() == seq * d,
        d * d <= usize::MAX,
        seq * d <= usize::MAX,
    ensures
        ({
            let (dq, dk, dv) = attention_grads(
                kind,
                rows(q@, d as int),
                rows(k@, d as int),
                rows(v@, d as int),
                rows(grad@, d as int),
                seq as int,
                d as int,
                scale,
                eps,
                true,
            );
            &&& blas::holds(r.0@, dq, seq as int, d as int)
            &&& blas::holds(r.1@, dk, seq as int, d as int)
            &&& blas::holds(r.2@, dv, seq as int, d as int)
        }),
{
    let ghost (n, e) = (seq as int, d as int);
    let ghost (qm, km, vm, gm) = (rows(q@, e), rows(k@, e), rows(v@, e), rows(grad@, e));
    let ghost (pq, pk) = (feat(kind, qm, scale), feat(kind, km, scale));
    let phi_q = features(kind, q, scale, Ghost(n), Ghost(e));
    let phi_k = features(kind, k, scale, Ghost(n), Ghost(e));
    let (states, sums) = running_states(&phi_k, v, seq, d, Ghost(pk), Ghost(vm));
    let ghost iv = inverses(pq, pk, n, e, eps, true);
    let ghost nm = gathered_causal(pq, pk, vm, e);
    let mut inv: Vec<S> = Vec::new();
    let mut num: Vec<S> = Vec::new();
    assert(0 * d == 0) by (nonlinear_arith);
    for t in 0..seq
        invariant
            inv@.len() == t,
            forall|i: int| 0 <= i < t ==> #[trigger] inv@[i] == iv(i),
            num@.len() == t * d,
            forall|x: int|
                0 <= x < t * d ==> #[trigger] num@[x] == nm(
                    blas::row_of(x, e),
                    blas::col_of(x, e),
                ),
    {
        let den = row_times(&phi_q, t, &sums[t], seq, d, Ghost(pq), Ghost(key_sum(pk, t + 1)));
        inv.push(S::one().over(den.plus(eps)));
        for b in 0..d
            invariant
                num@.len() == t * d + b,
                forall|x: int|
                    0 <= x < t * d + b ==> #[trigger] num@[x] == nm(
                        blas::row_of(x, e),
                        blas::col_of(x, e),
                    ),
        {
            proof {
                blas::lemma_cell(t as int, b as int, e);
            }
            num.push(
                row_times_column(
                    &phi_q,
                    t,
                    &states[t],
                    b,
                    seq,
                    d,
                    Ghost(pq),
                    Ghost(state_at(pk, vm, t + 1)),
                ),
            );
        }
        assert(t * d + d == (t + 1) * d) by (nonlinear_arith);
    }
    proof {
        blas::lemma_holds_from(num@, nm, n, e);
    }
    let (gnum, gdi) = local_grads(grad, &num, &inv, seq, d, Ghost(gm), Ghost(nm), Ghost(iv));
    let ghost gn = gathered_grad(gm, iv);
    let ghost gd = normaliser_grad(gm, nm, iv, e);
    let ghost gr = rows(gnum@, e);
    let ghost kr = rows(phi_k@, e);
    let ghost qr = rows(phi_q@, e);
    let ghost (fq, fk, fv) = feature_grads(pq, pk, vm, gm, n, e, eps, true);
    let mut phi_q_grad: Vec<S> = filled(S::zero(), seq * d);
    let mut phi_k_grad: Vec<S> = filled(S::zero(), seq * d);
    let mut dv: Vec<S> = filled(S::zero(), seq * d);
    let mut ds: Vec<S> = filled(S::zero(), d * d);
    let mut dz: Vec<S> = filled(S::zero(), d);
    let mut t: usize = seq;
    while t > 0
        invariant
            t <= seq,
            phi_q_grad@.len() == seq * d,
            phi_k_grad@.len() == seq * d,
            dv@.len() == seq * d,
            ds@.len() == d * d,
            dz@.len() == d,
            forall|x: int|
                0 <= x < d * d ==> #[trigger] ds@[x] == state_grad_at(pq, gn, t as int, n)(
                    blas::row_of(x, e),
                    blas::col_of(x, e),
                ),
            forall|a: int|
                0 <= a < d ==> #[trigger] dz@[a] == number::sum_back(
                    scaled_column(pq, a, gd),
                    t as int,
                    n,
                ),
            forall|x: int|
                t * d <= x < seq * d ==> #[trigger] phi_q_grad@[x] == fq(
                    blas::row_of(x, e),
                    blas::col_of(x, e),
                ),
            forall|x: int|
                t * d <= x < seq * d ==> #[trigger] phi_k_grad@[x] == fk(
                    blas::row_of(x, e),
                    blas::col_of(x, e),
                ),
            forall|x: int|
                t * d <= x < seq * d ==> #[trigger] dv@[x] == fv(
                    blas::row_of(x, e),
                    blas::col_of(x, e),
                ),
        decreases t,
    {
        let ghost above = t as int;
        t -= 1;
        proof {
            blas::lemma_row_fits(t as int, n, e);
            assert(t * d + d == above * d) by (nonlinear_arith)
                requires
                    above == t + 1,
            ;
            assert(above * d <= seq * d) by (nonlinear_arith)
                requires
                    above <= seq,
                    0 <= d,
            ;
        }
        absorb(&phi_q, &gnum, t, seq, d, &mut ds, Ghost(pq), Ghost(gn));
        let ghost sg = state_grad_at(pq, gn, t as int, n);
        proof {
            blas::lemma_holds_from(ds@, sg, e, e);
        }
        let ghost dz0 = dz@;
        let base: usize = t * d;
        for a in 0..d
            invariant
                dz@.len() == d,
                forall|c: int|
                    0 <= c < d ==> #[trigger] dz@[c] == if c < a {
                        number::sum_back(scaled_column(pq, c, gd), t as int, n)
                    } else {
                        dz0[c]
                    },
        {
            proof {
                blas::lemma_in_storage(t as int, a as int, n, e);
                assert(qr(t as int, a as int) == pq(t as int, a as int));
            }
            let w = dz[a].plus(phi_q[base + a].times(gdi[t]));
            dz[a] = w;
        }
        let g_row = row_slice(&gnum, t, seq, d);
        let v_row = row_slice(v, t, seq, d);
        let k_row = row_slice(&phi_k, t, seq, d);
        proof {
            assert forall|a: int| 0 <= a < d implies #[trigger] g_row@[a] == row(gn, t as int)(
                a,
            ) by {
                assert(gr(t as int, a) == gn(t as int, a));
            }
            assert forall|a: int| 0 <= a < d implies #[trigger] k_row@[a] == row(pk, t as int)(
                a,
            ) by {
                assert(kr(t as int, a) == pk(t as int, a));
            }
        }
        for a in 0..d
            invariant
                phi_q_grad@.len() == seq * d,
                phi_k_grad@.len() == seq * d,
                dv@.len() == seq * d,
                forall|x: int|
                    t * d <= x < t * d + a || above * d <= x < seq * d
                        ==> #[trigger] phi_q_grad@[x] == fq(
                        blas::row_of(x, e),
                        blas::col_of(x, e),
                    ),
                forall|x: int|
                    t * d <= x < t * d + a || above * d <= x < seq * d
                        ==> #[trigger] phi_k_grad@[x] == fk(
                        blas::row_of(x, e),
                        blas::col_of(x, e),
                    ),
                forall|x: int|
                    t * d <= x < t * d + a || above * d <= x < seq * d ==> #[trigger] dv@[x] == fv(
                        blas::row_of(x, e),
                        blas::col_of(x, e),
                    ),
        {
            proof {
                blas::lemma_in_storage(t as int, a as int, n, e);
                blas::lemma_cell(t as int, a as int, e);
            }
            let x: usize = base + a;
            let by_state = row_times(
                &states[t],
                a,
                g_row,
                d,
                d,
                Ghost(state_at(pk, vm, t + 1)),
                Ghost(row(gn, t as int)),
            );
            phi_q_grad[x] = by_state.plus(sums[t][a].times(gdi[t]));
            let by_value = row_times(
                &ds,
                a,
                v_row,
                d,
                d,
                Ghost(sg),
                Ghost(row(vm, t as int)),
            );
            phi_k_grad[x] = by_value.plus(dz[a]);
            dv[x] = column_times(&ds, a, k_row, d, Ghost(sg), Ghost(row(pk, t as int)));
        }
    }
    proof {
        blas::lemma_holds_from(phi_q_grad@, fq, n, e);
        blas::lemma_holds_from(phi_k_grad@, fk, n, e);
        blas::lemma_holds_from(dv@, fv, n, e);
    }
    let dq = chain(kind, q, &phi_q_grad, scale, Ghost(fq), Ghost(n), Ghost(e));
    let dk = chain(kind, k, &phi_k_grad, scale, Ghost(fk), Ghost(n), Ghost(e));
    (dq, dk, dv)
}

/// The part of a batch that belongs to sequence `b`, each of `n` numbers.
pub open spec fn block<S>(x: Seq<S>, b: int, n: int) -> Seq<S> {
    x.subrange(b * n, (b + 1) * n)
}

proof fn lemma_block(b: int, batch: int, n: int, len: int)
    requires
        0 <= b < batch,
        0 <= n,
        batch * n <= len,
    ensures
        0 <= b * n <= (b + 1) * n <= len,
        (b + 1) * n == b * n + n,
{
    assert(0 <= b * n && (b + 1) * n == b * n + n && (b + 1) * n <= batch * n)
        by (nonlinear_arith)
        requires
            0 <= b < batch,
            0 <= n,
    ;
}

/// The numbers of sequence `b`.
fn block_slice<'a, S: Real>(x: &'a [S], b: usize, n: usize, Ghost(batch): Ghost<int>) -> (r:
    &'a [S])
    requires
        b < batch,
        batch * n <= x@.len(),
    ensures
        r@ == block(x@, b as int, n as int),
        r@.len() == n,
{
    let len: usize = x.len();
    proof {
        lemma_block(b as int, batch, n as int, len as int);
    }
    vstd::slice::slice_subrange(x, b * n, b * n + n)
}

/// Appends one sequence of results.
fn append_block<S: Real>(
    out: &mut Vec<S>,
    x: &Vec<S>,
    Ghost(b): Ghost<int>,
    Ghost(n): Ghost<int>,
)
    requires
        old(out)@.len() == b * n,
        x@.len() == n,
        0 <= b,
    ensures
        final(out)@ == old(out)@ + x@,
        final(out)@.len() == (b + 1) * n,
        block(final(out)@, b, n) == x@,
        forall|c: int| 0 <= c < b ==> #[trigger] block(final(out)@, c, n) == block(
            old(out)@,
            c,
            n,
        ),
{
    let ghost before = out@;
    for i in 0..x.len()
        invariant
            out@ =~= before + x@.take(i as int),
    {
        out.push(x[i]);
    }
    proof {
        assert(out@ =~= before + x@);
        assert((b + 1) * n == b * n + n) by (nonlinear_arith);
        assert(block(out@, b, n) =~= x@);
        assert forall|c: int| 0 <= c < b implies #[trigger] block(out@, c, n) == block(
            before,
            c,
            n,
        ) by {
            lemma_block(c, b, n, before.len() as int);
            assert(block(out@, c, n) =~= block(before, c, n));
        }
    }
}

/// Linear attention over a batch of sequences of `seq` vectors with `d` entries.
///
/// `scale` multiplies queries and keys before the feature map; `eps` is added to the
/// normaliser.
#[verifier::loop_isolation(false)]
pub fn linear_attention_forward<S: Real>(
    q: &[S],
    k: &[S],
    v: &[S],
    batch: usize,
    seq: usize,
    d: usize,
    scale: S,
    eps: S,
    causal: bool,
    kernel: KernelKind,
) -> (r: Vec<S>)
    requires
        batch * (seq * d) <= q@.len(),
        batch * (seq * d) <= k@.len(),
        batch * (seq * d) <= v@.len(),
        seq * d <= usize::MAX,
        seq * d * d <= usize::MAX,
        d * d <= usize::MAX,
    ensures
        r@.len() == batch * (seq * d),
        forall|b: int|
            0 <= b < batch ==> blas::holds(
                #[trigger] block(r@, b, seq * d),
                attention(
                    kernel,
                    rows(block(q@, b, seq * d), d as int),
                    rows(block(k@, b, seq * d), d as int),
                    rows(block(v@, b, seq * d), d as int),
                    seq as int,
                    d as int,
                    scale,
                    eps,
                    causal,
                ),
                seq as int,
                d as int,
            ),
{
    let mut out: Vec<S> = Vec::new();
    let sd: usize = seq * d;
    assert(0 * sd == 0) by (nonlinear_arith);
    for b in 0..batch
        invariant
            out@.len() == b * sd,
            forall|c: int|
                0 <= c < b ==> blas::holds(
                    #[trigger] block(out@, c, sd as int),
                    attention(
                        kernel,
                        rows(block(q@, c, sd as int), d as int),
                        rows(block(k@, c, sd as int), d as int),
                        rows(block(v@, c, sd as int), d as int),
                        seq as int,
                        d as int,
                        scale,
                        eps,
                        causal,
                    ),
                    seq as int,
                    d as int,
                ),
    {
        let qb = block_slice(q, b, sd, Ghost(batch as int));
        let kb = block_slice(k, b, sd, Ghost(batch as int));
        let vb = block_slice(v, b, sd, Ghost(batch as int));
        let ob = if causal {
            forward_causal(kernel, qb, kb, vb, seq, d, scale, eps)
        } else {
            forward_ncausal(kernel, qb, kb, vb, seq, d, scale, eps)
        };
        append_block(&mut out, &ob, Ghost(b as int), Ghost(sd as int));
    }
    out
}

/// The gradients of queries, keys and values of a batch, from the gradient of the result.
#[verifier::loop_isolation(false)]
#[verifier::rlimit(30)]
pub fn linear_attention_backward<S: Real>(
    q: &[S],
    k: &[S],
    v: &[S],
    grad_out: &[S],
    batch: usize,
    seq: usize,
    d: usize,
    scale: S,
    eps: S,
    causal: bool,
    kernel: KernelKind,
) -> (r: (Vec<S>, Vec<S>, Vec<S>))
    requires
        batch * (seq * d) <= q@.len(),
        batch * (seq * d) <= k@.len(),
        batch * (seq * d) <= v@.len(),
        batch * (seq * d) <= grad_out@.len(),
        seq * d <= usize::MAX,
        seq * d * d <= usize::MAX,
        d * d <= usize::MAX,
    ensures
        r.0@.len() == batch * (seq * d),
        r.1@.len() == batch * (seq * d),
        r.2@.len() == batch * (seq * d),
        forall|b: int|
            #![trigger block(r.0@, b, seq * d)]
            #![trigger block(r.1@, b, seq * d)]
            #![trigger block(r.2@, b, seq * d)]
            0 <= b < batch ==> {
                let (dq, dk, dv) = attention_grads(
                    kernel,
                    rows(block(q@, b, seq * d), d as int),
                    rows(block(k@, b, seq * d), d as int),
                    rows(block(v@, b, seq * d), d as int),
                    rows(block(grad_out@, b, seq * d), d as int),
                    seq as int,
                    d as int,
                    scale,
                    eps,
                    causal,
                );
                &&& blas::holds(block(r.0@, b, seq * d), dq, seq as int, d as int)
                &&& blas::holds(block(r.1@, b, seq * d), dk, seq as int, d as int)
                &&& blas::holds(block(r.2@, b, seq * d), dv, seq as int, d as int)
            },
{
    let mut dq: Vec<S> = Vec::new();
    let mut dk: Vec<S> = Vec::new();
    let mut dv: Vec<S> = Vec::new();
    let sd: usize = seq * d;
    let ghost w = sd as int;
    assert(0 * sd == 0) by (nonlinear_arith);
    for b in 0..batch
        invariant
            dq@.len() == b * sd,
            dk@.len() == b * sd,
            dv@.len() == b * sd,
            forall|c: int|
                #![trigger block(dq@, c, w)]
                #![trigger block(dk@, c, w)]
                #![trigger block(dv@, c, w)]
                0 <= c < b ==> {
                    let (gq, gk, gv) = attention_grads(
                        kernel,
                        rows(block(q@, c, w), d as int),
                        rows(block(k@, c, w), d as int),
                        rows(block(v@, c, w), d as int),
                        rows(block(grad_out@, c, w), d as int),
                        seq as int,
                        d as int,
                        scale,
                        eps,
                        causal,
                    );
                    &&& blas::holds(block(dq@, c, w), gq, seq as int, d as int)
                    &&& blas::holds(block(dk@, c, w), gk, seq as int, d as int)
                    &&& blas::holds(block(dv@, c, w), gv, seq as int, d as int)
                },
    {
        let qb = block_slice(q, b, sd, Ghost(batch as int));
        let kb = block_slice(k, b, sd, Ghost(batch as int));
        let vb = block_slice(v, b, sd, Ghost(batch as int));
        let gb = block_slice(grad_out, b, sd, Ghost(batch as int));
        let (dqb, dkb, dvb) = if causal {
            backward_causal(kernel, qb, kb, vb, gb, seq, d, scale, eps)
        } else {
            backward_ncausal(kernel, qb, kb, vb, gb, seq, d, scale, eps)
        };
        append_block(&mut dq, &dqb, Ghost(b as int), Ghost(w));
        append_block(&mut dk, &dkb, Ghost(b as int), Ghost(w));
        append_block(&mut dv, &dvb, Ghost(b as int), Ghost(w));
    }
    (dq, dk, dv)
}

/// Configuration of linear attention.
#[derive(Debug, Clone, Copy)]
pub struct LinearAttention<S> {
    pub kernel: KernelKind,
    /// Multiplies queries and keys before the feature map.
    pub scale: S,
    /// Added to the normaliser.
    pub eps: S,
    /// Whether a position sees only itself and those before it.
    pub causal: bool,
}

impl<S: Real> LinearAttention<S> {
    /// Bidirectional attention with a scale of one over the root of `d` and an `eps` of a
    /// millionth.
    pub fn new(kernel: KernelKind, d: usize) -> (r: Self)
        ensures
            r == (LinearAttention::<S> {
                kernel,
                scale: S::spec_one().spec_over(S::spec_count(d).spec_sqrt()),
                eps: S::spec_one().spec_over(S::spec_count(1_000_000)),
                causal: false,
            }),
    {
        LinearAttention {
            kernel,
            scale: S::one().over(S::count(d).sqrt()),
            eps: S::one().over(S::count(1_000_000)),
            causal: false,
        }
    }

    /// The same configuration with the given mask.
    pub fn causal(self, causal: bool) -> (r: Self)
        ensures
            r == (LinearAttention { causal, ..self }),
    {
        LinearAttention { kernel: self.kernel, scale: self.scale, eps: self.eps, causal }
    }

    /// The same configuration with the given scale.
    pub fn with_scale(self, scale: S) -> (r: Self)
        ensures
            r == (LinearAttention { scale, ..self }),
    {
        LinearAttention { kernel: self.kernel, scale, eps: self.eps, causal: self.causal }
    }

    /// Bidirectional attention with the `Elu` kernel.
    pub fn elu(d: usize) -> (r: Self)
        ensures
            r == (LinearAttention::<S> {
                kernel: KernelKind::Elu,
                scale: S::spec_one().spec_over(S::spec_count(d).spec_sqrt()),
                eps: S::spec_one().spec_over(S::spec_count(1_000_000)),
                causal: false,
            }),
    {
        Self::new(KernelKind::Elu, d)
    }
}

} // verus!
