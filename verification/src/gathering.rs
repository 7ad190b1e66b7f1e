//! What linear attention gathers, for numbers without rounding.
use vstd::prelude::*;
use crate::blas;
use crate::blas::{Mat, Transpose};
use crate::ideal;
use crate::ideal::{faithful, product, rsum, Reading};
use crate::linear_attention;
use crate::linear_attention::KernelKind;
use crate::multiplying;
use crate::number;
use crate::number::{Number, Real};

verus! {

/// The feature of a number is not negative: one more than a positive number and the exponential of
/// another, or the square of a positive number and nothing for another.
pub proof fn lemma_feature<S: Real>(r: Reading<S>, kind: KernelKind, x: S)
    requires
        faithful(r),
    ensures
        (r.of)(linear_attention::phi_of(kind, x)) >= 0real,
        kind is Elu && (r.of)(x) > 0real ==> (r.of)(linear_attention::phi_of(kind, x)) == (r.of)(x)
            + 1real,
        kind is Elu && (r.of)(x) <= 0real ==> (r.of)(linear_attention::phi_of(kind, x)) == (r.exp)(
            (r.of)(x),
        ),
        kind is Relu2 && (r.of)(x) > 0real ==> (r.of)(linear_attention::phi_of(kind, x)) == product(
            (r.of)(x),
            (r.of)(x),
        ),
        kind is Relu2 && (r.of)(x) <= 0real ==> (r.of)(linear_attention::phi_of(kind, x)) == 0real,
{
    ideal::lemma_reads_signs(r, S::spec_zero(), x);
    ideal::lemma_reads_signs(r, x, S::spec_zero());
    ideal::lemma_reads(r, x, S::spec_one());
    ideal::lemma_reads_exp(r, x);
    ideal::lemma_powers(r, (r.of)(x), 0real);
    let top = x.spec_larger(S::spec_zero());
    ideal::lemma_reads(r, top, top);
    ideal::lemma_own_product((r.of)(top));
    ideal::lemma_neutral(0real);
}

/// How well a query matches a key: the products of their features, summed.
pub open spec fn likeness<S: Real>(
    of: spec_fn(S) -> real,
    kind: KernelKind,
    q: Mat<S>,
    k: Mat<S>,
    d: int,
    scale: S,
    t: int,
    j: int,
) -> real {
    rsum(
        |a: int|
            product(
                of(linear_attention::phi_of(kind, q(t, a).spec_times(scale))),
                of(linear_attention::phi_of(kind, k(j, a).spec_times(scale))),
            ),
        d,
    )
}

/// Feature by feature or key by key.
proof fn lemma_either_way(
    f: spec_fn(int) -> real,
    k: spec_fn(int, int) -> real,
    v: spec_fn(int) -> real,
    d: int,
    n: int,
)
    ensures
        rsum(|a: int| product(f(a), rsum(|j: int| product(k(j, a), v(j)), n)), d) == rsum(
            |j: int| product(rsum(|a: int| product(f(a), k(j, a)), d), v(j)),
            n,
        ),
{
    let g = |a: int, j: int| product(f(a), product(k(j, a), v(j)));
    ideal::lemma_rsum_exchange(g, d, n);
    let left = |a: int| product(f(a), rsum(|j: int| product(k(j, a), v(j)), n));
    let right = |j: int| product(rsum(|a: int| product(f(a), k(j, a)), d), v(j));
    let inner = |a: int| rsum(|j: int| g(a, j), n);
    let outer = |j: int| rsum(|a: int| g(a, j), d);
    assert forall|a: int| 0 <= a < d implies #[trigger] left(a) == inner(a) by {
        ideal::lemma_common_factor(
            |j: int| product(k(j, a), v(j)),
            |j: int| g(a, j),
            f(a),
            n,
        );
    }
    ideal::lemma_rsum_agree(left, inner, d);
    assert forall|j: int| 0 <= j < n implies #[trigger] right(j) == outer(j) by {
        let p = |a: int| product(f(a), k(j, a));
        let h = |a: int| g(a, j);
        assert forall|a: int| 0 <= a < d implies #[trigger] h(a) == product(v(j), p(a)) by {
            ideal::lemma_regroup(f(a), k(j, a), v(j));
            ideal::lemma_swap(p(a), v(j));
        }
        ideal::lemma_common_factor(p, h, v(j), d);
        ideal::lemma_swap(rsum(p, d), v(j));
    }
    ideal::lemma_rsum_agree(right, outer, n);
    ideal::lemma_rsum_agree(inner, |a: int| rsum(|j: int| g(a, j), n), d);
    ideal::lemma_rsum_agree(outer, |j: int| rsum(|a: int| g(a, j), d), n);
}

/// What a query gathers before it is divided, feature by feature.
proof fn lemma_gathered<S: Real>(
    r: Reading<S>,
    pq: Mat<S>,
    pk: Mat<S>,
    v: Mat<S>,
    seq: int,
    d: int,
    causal: bool,
    t: int,
    b: int,
)
    requires
        faithful(r),
        0 <= t < seq,
        0 <= d,
    ensures
        ({
            let num = if causal {
                linear_attention::gathered_causal(pq, pk, v, d)
            } else {
                linear_attention::gathered(pq, pk, v, seq, d)
            };
            let n = if causal {
                t + 1
            } else {
                seq
            };
            (r.of)(num(t, b)) == rsum(
                |a: int|
                    product(
                        (r.of)(pq(t, a)),
                        rsum(|j: int| product((r.of)(pk(j, a)), (r.of)(v(j, b))), n),
                    ),
                d,
            )
        }),
{
    let n = if causal {
        t + 1
    } else {
        seq
    };
    let want = |a: int|
        product(
            (r.of)(pq(t, a)),
            rsum(|j: int| product((r.of)(pk(j, a)), (r.of)(v(j, b))), n),
        );
    if causal {
        let state = linear_attention::column(linear_attention::state_at(pk, v, n), b);
        let f = linear_attention::weighted(pq, t, state);
        ideal::lemma_reads_sum(r, f, d);
        let g = ideal::read(r.of, f);
        assert forall|a: int| 0 <= a < d implies #[trigger] g(a) == want(a) by {
            ideal::lemma_reads(r, pq(t, a), state(a));
            let o = linear_attention::outer(pk, v, a, b);
            assert(state(a) == number::sum_n(o, n));
            ideal::lemma_reads_sum(r, o, n);
            let h = ideal::read(r.of, o);
            let e = |j: int| product((r.of)(pk(j, a)), (r.of)(v(j, b)));
            assert forall|j: int| 0 <= j < n implies #[trigger] h(j) == e(j) by {
                ideal::lemma_reads(r, pk(j, a), v(j, b));
            }
            ideal::lemma_rsum_agree(h, e, n);
        }
        ideal::lemma_rsum_agree(g, want, d);
    } else {
        let state = linear_attention::kv_state(pk, v, seq, d);
        multiplying::lemma_entry(r, Transpose::NoTrans, seq, d, d, pq, state, t, b);
        let g = multiplying::pairs(r.of, pq, state, t, b);
        assert forall|a: int| 0 <= a < d implies #[trigger] g(a) == want(a) by {
            let tk = blas::transposed(pk);
            multiplying::lemma_entry(r, Transpose::NoTrans, d, d, seq, tk, v, a, b);
            ideal::lemma_rsum_agree(
                multiplying::pairs(r.of, tk, v, a, b),
                |j: int| product((r.of)(pk(j, a)), (r.of)(v(j, b))),
                n,
            );
        }
        ideal::lemma_rsum_agree(g, want, d);
    }
}

/// What a query is divided by, feature by feature.
proof fn lemma_divisor<S: Real>(r: Reading<S>, pq: Mat<S>, pk: Mat<S>, n: int, d: int, t: int)
    requires
        faithful(r),
    ensures
        (r.of)(
            linear_attention::row_dot(pq, t, linear_attention::key_sum(pk, n), d),
        ) == rsum(
            |a: int|
                product(
                    (r.of)(pq(t, a)),
                    rsum(|j: int| product((r.of)(pk(j, a)), 1real), n),
                ),
            d,
        ),
{
    let sums = linear_attention::key_sum(pk, n);
    let f = linear_attention::weighted(pq, t, sums);
    ideal::lemma_reads_sum(r, f, d);
    let g = ideal::read(r.of, f);
    let want = |a: int|
        product((r.of)(pq(t, a)), rsum(|j: int| product((r.of)(pk(j, a)), 1real), n));
    assert forall|a: int| 0 <= a < d implies #[trigger] g(a) == want(a) by {
        ideal::lemma_reads(r, pq(t, a), sums(a));
        let c = linear_attention::column(pk, a);
        assert(sums(a) == number::sum_n(c, n));
        ideal::lemma_reads_sum(r, c, n);
        let h = ideal::read(r.of, c);
        let e = |j: int| product((r.of)(pk(j, a)), 1real);
        assert forall|j: int| 0 <= j < n implies #[trigger] h(j) == e(j) by {
            ideal::lemma_neutral((r.of)(pk(j, a)));
        }
        ideal::lemma_rsum_agree(h, e, n);
    }
    ideal::lemma_rsum_agree(g, want, d);
}

/// Linear attention is a weighted mean: what a query gathers, times the sum of how well it matches
/// the keys it may see and what is added to that, is the sum of their values, each as often as its
/// key matches. No key counts negatively.
pub proof fn lemma_linear_attention<S: Real>(
    r: Reading<S>,
    kind: KernelKind,
    q: Mat<S>,
    k: Mat<S>,
    v: Mat<S>,
    seq: int,
    d: int,
    scale: S,
    eps: S,
    causal: bool,
    t: int,
    b: int,
)
    requires
        faithful(r),
        0 <= t < seq,
        0 <= d,
        (r.of)(eps) > 0real,
    ensures
        product(
            (r.of)(linear_attention::attention(kind, q, k, v, seq, d, scale, eps, causal)(t, b)),
            rsum(
                |j: int| likeness(r.of, kind, q, k, d, scale, t, j),
                if causal {
                    t + 1
                } else {
                    seq
                },
            ) + (r.of)(eps),
        ) == rsum(
            |j: int| product(likeness(r.of, kind, q, k, d, scale, t, j), (r.of)(v(j, b))),
            if causal {
                t + 1
            } else {
                seq
            },
        ),
        forall|j: int| #[trigger] likeness(r.of, kind, q, k, d, scale, t, j) >= 0real,
{
    let (pq, pk) = (
        linear_attention::feat(kind, q, scale),
        linear_attention::feat(kind, k, scale),
    );
    let n = if causal {
        t + 1
    } else {
        seq
    };
    let like = |j: int| likeness(r.of, kind, q, k, d, scale, t, j);
    assert forall|j: int| #[trigger] likeness(r.of, kind, q, k, d, scale, t, j) >= 0real by {
        lemma_like(r, kind, q, k, d, scale, t, j);
    }
    // What is gathered.
    lemma_gathered(r, pq, pk, v, seq, d, causal, t, b);
    let f = |a: int| (r.of)(pq(t, a));
    let g = |j: int, a: int| (r.of)(pk(j, a));
    let h = |j: int| (r.of)(v(j, b));
    let one = |j: int| 1real;
    lemma_either_way(f, g, h, d, n);
    lemma_either_way(f, g, one, d, n);
    let num1 = |a: int| product(f(a), rsum(|j: int| product(g(j, a), h(j)), n));
    let num2 = |a: int|
        product(
            (r.of)(pq(t, a)),
            rsum(|j: int| product((r.of)(pk(j, a)), (r.of)(v(j, b))), n),
        );
    assert forall|a: int| 0 <= a < d implies #[trigger] num1(a) == num2(a) by {
        ideal::lemma_rsum_agree(
            |j: int| product(g(j, a), h(j)),
            |j: int| product((r.of)(pk(j, a)), (r.of)(v(j, b))),
            n,
        );
    }
    ideal::lemma_rsum_agree(num1, num2, d);
    let sum = |j: int| product(likeness(r.of, kind, q, k, d, scale, t, j), (r.of)(v(j, b)));
    let sum2 = |j: int| product(rsum(|a: int| product(f(a), g(j, a)), d), h(j));
    assert forall|j: int| 0 <= j < n implies #[trigger] sum(j) == sum2(j) by {
        lemma_like_is(r, kind, q, k, d, scale, t, j);
    }
    ideal::lemma_rsum_agree(sum, sum2, n);
    // What it is divided by.
    lemma_divisor(r, pq, pk, n, d, t);
    let den = linear_attention::row_dot(pq, t, linear_attention::key_sum(pk, n), d);
    let den1 = |a: int| product(f(a), rsum(|j: int| product(g(j, a), one(j)), n));
    let den2 = |a: int|
        product((r.of)(pq(t, a)), rsum(|j: int| product((r.of)(pk(j, a)), 1real), n));
    assert forall|a: int| 0 <= a < d implies #[trigger] den1(a) == den2(a) by {
        ideal::lemma_rsum_agree(
            |j: int| product(g(j, a), one(j)),
            |j: int| product((r.of)(pk(j, a)), 1real),
            n,
        );
    }
    ideal::lemma_rsum_agree(den1, den2, d);
    let div2 = |j: int| product(rsum(|a: int| product(f(a), g(j, a)), d), one(j));
    assert forall|j: int| 0 <= j < n implies #[trigger] like(j) == div2(j) by {
        lemma_like_is(r, kind, q, k, d, scale, t, j);
        ideal::lemma_neutral(likeness(r.of, kind, q, k, d, scale, t, j));
    }
    ideal::lemma_rsum_agree(like, div2, n);
    ideal::lemma_rsum_bounds(like, 0, n);
    // The mean.
    ideal::lemma_reads(r, den, eps);
    let inv = linear_attention::inverse(den, eps);
    ideal::lemma_reads_over(r, S::spec_one(), den.spec_plus(eps));
    let num = if causal {
        linear_attention::gathered_causal(pq, pk, v, d)
    } else {
        linear_attention::gathered(pq, pk, v, seq, d)
    };
    ideal::lemma_reads(r, num(t, b), inv);
    ideal::lemma_regroup((r.of)(num(t, b)), (r.of)(inv), (r.of)(den) + (r.of)(eps));
    ideal::lemma_neutral((r.of)(num(t, b)));
}

proof fn lemma_like<S: Real>(
    r: Reading<S>,
    kind: KernelKind,
    q: Mat<S>,
    k: Mat<S>,
    d: int,
    scale: S,
    t: int,
    j: int,
)
    requires
        faithful(r),
    ensures
        likeness(r.of, kind, q, k, d, scale, t, j) >= 0real,
{
    let f = |a: int|
        product(
            (r.of)(linear_attention::phi_of(kind, q(t, a).spec_times(scale))),
            (r.of)(linear_attention::phi_of(kind, k(j, a).spec_times(scale))),
        );
    assert forall|a: int| 0 <= a < d implies #[trigger] f(a) >= 0real by {
        lemma_feature(r, kind, q(t, a).spec_times(scale));
        lemma_feature(r, kind, k(j, a).spec_times(scale));
        ideal::lemma_not_negative(
            (r.of)(linear_attention::phi_of(kind, q(t, a).spec_times(scale))),
            (r.of)(linear_attention::phi_of(kind, k(j, a).spec_times(scale))),
        );
    }
    ideal::lemma_rsum_bounds(f, 0, d);
}

proof fn lemma_like_is<S: Real>(
    r: Reading<S>,
    kind: KernelKind,
    q: Mat<S>,
    k: Mat<S>,
    d: int,
    scale: S,
    t: int,
    j: int,
)
    ensures
        ({
            let (pq, pk) = (
                linear_attention::feat(kind, q, scale),
                linear_attention::feat(kind, k, scale),
            );
            let f = |a: int| (r.of)(pq(t, a));
            let g = |j: int, a: int| (r.of)(pk(j, a));
            likeness(r.of, kind, q, k, d, scale, t, j) == rsum(
                |a: int| product(f(a), g(j, a)),
                d,
            )
        }),
{
    let (pq, pk) = (
        linear_attention::feat(kind, q, scale),
        linear_attention::feat(kind, k, scale),
    );
    let f = |a: int| (r.of)(pq(t, a));
    let g = |j: int, a: int| (r.of)(pk(j, a));
    ideal::lemma_rsum_agree(
        |a: int|
            product(
                (r.of)(linear_attention::phi_of(kind, q(t, a).spec_times(scale))),
                (r.of)(linear_attention::phi_of(kind, k(j, a).spec_times(scale))),
            ),
        |a: int| product(f(a), g(j, a)),
        d,
    );
}

} // verus!
