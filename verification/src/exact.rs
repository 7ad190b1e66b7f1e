//! What the matrix products compute on two's complement integers: the true integer results,
//! modulo two to the power of 32.
use vstd::prelude::*;
use crate::blas;
use crate::blas::{Mat, Transpose, GEMM_STRASSEN_THRESHOLD, KC, STRASSEN_MAX_DEPTH};
use crate::distributed;
use crate::linear_attention;
use crate::number;
use crate::number::Number;

verus! {

/// The two integers differ by a multiple of two to the power of 32.
#[verifier::opaque]
pub open spec fn cong(x: int, y: int) -> bool {
    (x - y) % 0x1_0000_0000 == 0
}

/// Sums, differences and products of machine integers are those of the integers, modulo
/// two to the power of 32.
pub proof fn lemma_ops(a: i32, b: i32)
    ensures
        cong(a.spec_plus(b) as int, a + b),
        cong(a.spec_minus(b) as int, a - b),
        cong(a.spec_times(b) as int, a * b),
{
    reveal(cong);
}

pub(crate) proof fn lemma_sum(x: int, x2: int, y: int, y2: int)
    requires
        cong(x, x2),
        cong(y, y2),
    ensures
        cong(x + y, x2 + y2),
        cong(x - y, x2 - y2),
{
    reveal(cong);
}

pub(crate) proof fn lemma_product(x: int, x2: int, y: int, y2: int)
    requires
        cong(x, x2),
        cong(y, y2),
    ensures
        cong(x * y, x2 * y2),
{
    reveal(cong);
    let m = 0x1_0000_0000int;
    let p = (x - x2) / m;
    let q = (y - y2) / m;
    assert(x - x2 == m * p);
    assert(y - y2 == m * q);
    let r = p * y + x2 * q;
    assert(x * y - x2 * y2 == m * r) by (nonlinear_arith)
        requires
            x - x2 == m * p,
            y - y2 == m * q,
            r == p * y + x2 * q,
    ;
}

/// The first `k` products of row `i` of `a` and column `j` of `b`, summed as integers.
pub open spec fn dot(a: Mat<i32>, b: Mat<i32>, i: int, j: int, k: int) -> int
    decreases k,
{
    if k <= 0 {
        0
    } else {
        dot(a, b, i, j, k - 1) + a(i, k - 1) * b(k - 1, j)
    }
}

proof fn lemma_small(
    alpha: i32,
    a: Mat<i32>,
    b: Mat<i32>,
    c0: i32,
    i: int,
    j: int,
    p: int,
)
    requires
        0 <= p,
    ensures
        cong(
            blas::small_acc(alpha, a, b, c0, i, j, p) as int,
            c0 + alpha * dot(a, b, i, j, p),
        ),
    decreases p,
{
    reveal(cong);
    if p <= 0 {
        assert(alpha * 0 == 0) by (nonlinear_arith);
    } else {
        lemma_small(alpha, a, b, c0, i, j, p - 1);
        let prev = blas::small_acc(alpha, a, b, c0, i, j, p - 1);
        let (av, bv) = (a(i, p - 1), b(p - 1, j));
        let d = dot(a, b, i, j, p - 1);
        assert(alpha * (d + av * bv) == alpha * d + (alpha * av) * bv) by (nonlinear_arith);
        if av == 0 {
            assert((alpha * av) * bv == 0) by (nonlinear_arith)
                requires
                    av == 0,
            ;
        } else {
            let t = alpha.spec_times(av);
            lemma_ops(alpha, av);
            lemma_ops(t, bv);
            lemma_product(t as int, alpha * av, bv as int, bv as int);
            let u = t.spec_times(bv);
            lemma_sum(u as int, t * bv, 0, 0);
            assert(cong(u as int, (alpha * av) * bv));
            lemma_ops(prev, u);
            lemma_sum(prev as int, c0 + alpha * d, u as int, (alpha * av) * bv);
        }
    }
}

proof fn lemma_panel(
    tb: Transpose,
    alpha: i32,
    a: Mat<i32>,
    b: Mat<i32>,
    i: int,
    j: int,
    lo: int,
    hi: int,
)
    requires
        0 <= lo <= hi,
    ensures
        cong(
            blas::panel_sum(tb, alpha, a, b, i, j, lo, hi) as int,
            alpha * (dot(a, b, i, j, hi) - dot(a, b, i, j, lo)),
        ),
    decreases hi - lo,
{
    reveal(cong);
    if hi <= lo {
        assert(alpha * 0 == 0) by (nonlinear_arith);
    } else {
        lemma_panel(tb, alpha, a, b, i, j, lo, hi - 1);
        let prev = blas::panel_sum(tb, alpha, a, b, i, j, lo, hi - 1);
        let (av, bv) = (a(i, hi - 1), b(hi - 1, j));
        let d = dot(a, b, i, j, hi - 1) - dot(a, b, i, j, lo);
        assert(alpha * (d + av * bv) == alpha * d + av * (alpha * bv)) by (nonlinear_arith);
        let t = blas::packed(tb, alpha, bv);
        lemma_ops(alpha, bv);
        if alpha == 1 {
            assert(alpha * bv == bv) by (nonlinear_arith)
                requires
                    alpha == 1,
            ;
        }
        assert(cong(t as int, alpha * bv));
        lemma_ops(av, t);
        lemma_product(av as int, av as int, t as int, alpha * bv);
        let u = av.spec_times(t);
        assert(cong(u as int, av * (alpha * bv)));
        lemma_ops(prev, u);
        lemma_sum(prev as int, alpha * d, u as int, av * (alpha * bv));
    }
}

proof fn lemma_blocked(
    tb: Transpose,
    alpha: i32,
    a: Mat<i32>,
    b: Mat<i32>,
    k: int,
    c0: i32,
    i: int,
    j: int,
    q: int,
)
    requires
        0 <= q <= blas::panels(k),
        0 <= k,
    ensures
        cong(
            blas::blocked_acc(tb, alpha, a, b, k, c0, i, j, q) as int,
            c0 + alpha * dot(
                a,
                b,
                i,
                j,
                if q * KC <= k {
                    q * KC
                } else {
                    k
                },
            ),
        ),
    decreases q,
{
    reveal(cong);
    if q <= 0 {
        assert(alpha * 0 == 0) by (nonlinear_arith);
    } else {
        lemma_blocked(tb, alpha, a, b, k, c0, i, j, q - 1);
        let (lo, hi) = (
            (q - 1) * KC,
            if q * KC <= k {
                q * KC
            } else {
                k
            },
        );
        lemma_panel(tb, alpha, a, b, i, j, lo, hi);
        let prev = blas::blocked_acc(tb, alpha, a, b, k, c0, i, j, q - 1);
        let u = blas::panel_sum(tb, alpha, a, b, i, j, lo, hi);
        let (x, y) = (dot(a, b, i, j, lo), dot(a, b, i, j, hi));
        assert(alpha * x + alpha * (y - x) == alpha * y) by (nonlinear_arith);
        lemma_ops(prev, u);
        lemma_sum(prev as int, c0 + alpha * x, u as int, alpha * (y - x));
    }
}

/// On machine integers an entry of the general product is `alpha` times the integer inner
/// product plus `beta` times the old entry, modulo two to the power of 32, whichever way the
/// sizes have it computed.
#[verifier::spinoff_prover]
#[verifier::rlimit(40)]
pub proof fn lemma_gemm_exact(
    tb: Transpose,
    m: int,
    n: int,
    k: int,
    alpha: i32,
    a: Mat<i32>,
    b: Mat<i32>,
    beta: i32,
    c0: i32,
    i: int,
    j: int,
)
    requires
        0 <= k,
    ensures
        cong(
            blas::gemm_entry(tb, m, n, k, alpha, a, b, beta, c0, i, j) as int,
            alpha * dot(a, b, i, j, k) + beta * c0,
        ),
{
    reveal(cong);
    let s = blas::scaled(c0, beta);
    lemma_ops(c0, beta);
    assert(c0 * beta == beta * c0) by (nonlinear_arith);
    assert(beta == 1 ==> beta * c0 == c0) by (nonlinear_arith);
    assert(beta == 0 ==> beta * c0 == 0) by (nonlinear_arith);
    assert(cong(s as int, beta * c0));
    if k == 0 || alpha == 0 {
        assert(alpha * dot(a, b, i, j, k) == 0) by (nonlinear_arith)
            requires
                alpha == 0 || dot(a, b, i, j, k) == 0,
        ;
    } else {
        lemma_small(alpha, a, b, s, i, j, k);
        lemma_blocked(tb, alpha, a, b, k, s, i, j, blas::panels(k));
        let d = alpha * dot(a, b, i, j, k);
        lemma_sum(s as int, beta * c0, d, d);
    }
}

proof fn lemma_left(a: Mat<i32>, b: Mat<i32>, y: Mat<i32>, i: int, j: int, k: int)
    ensures
        cong(dot(blas::mat_add(a, b), y, i, j, k), dot(a, y, i, j, k) + dot(b, y, i, j, k)),
        cong(dot(blas::mat_sub(a, b), y, i, j, k), dot(a, y, i, j, k) - dot(b, y, i, j, k)),
    decreases k,
{
    reveal(cong);
    if k > 0 {
        lemma_left(a, b, y, i, j, k - 1);
        let (u, v, w) = (a(i, k - 1), b(i, k - 1), y(k - 1, j));
        lemma_ops(u, v);
        lemma_product(u.spec_plus(v) as int, u + v, w as int, w as int);
        lemma_product(u.spec_minus(v) as int, u - v, w as int, w as int);
        assert((u + v) * w == u * w + v * w) by (nonlinear_arith);
        assert((u - v) * w == u * w - v * w) by (nonlinear_arith);
        assert(blas::mat_add(a, b)(i, k - 1) == u.spec_plus(v));
        assert(blas::mat_sub(a, b)(i, k - 1) == u.spec_minus(v));
    }
}

proof fn lemma_right(x: Mat<i32>, a: Mat<i32>, b: Mat<i32>, i: int, j: int, k: int)
    ensures
        cong(dot(x, blas::mat_add(a, b), i, j, k), dot(x, a, i, j, k) + dot(x, b, i, j, k)),
        cong(dot(x, blas::mat_sub(a, b), i, j, k), dot(x, a, i, j, k) - dot(x, b, i, j, k)),
    decreases k,
{
    reveal(cong);
    if k > 0 {
        lemma_right(x, a, b, i, j, k - 1);
        let (u, v, w) = (a(k - 1, j), b(k - 1, j), x(i, k - 1));
        lemma_ops(u, v);
        lemma_product(w as int, w as int, u.spec_plus(v) as int, u + v);
        lemma_product(w as int, w as int, u.spec_minus(v) as int, u - v);
        assert(w * (u + v) == w * u + w * v) by (nonlinear_arith);
        assert(w * (u - v) == w * u - w * v) by (nonlinear_arith);
        assert(blas::mat_add(a, b)(k - 1, j) == u.spec_plus(v));
        assert(blas::mat_sub(a, b)(k - 1, j) == u.spec_minus(v));
    }
}

/// The inner product splits after `h` products.
proof fn lemma_split(a: Mat<i32>, b: Mat<i32>, i: int, j: int, h: int, q: int)
    requires
        0 <= h,
        0 <= q,
    ensures
        dot(a, b, i, j, h + q) == dot(a, b, i, j, h) + dot(
            blas::shifted(a, 0, h),
            blas::shifted(b, h, 0),
            i,
            j,
            q,
        ),
    decreases q,
{
    if q > 0 {
        lemma_split(a, b, i, j, h, q - 1);
    }
}

proof fn lemma_shift(a: Mat<i32>, b: Mat<i32>, r: int, t: int, i: int, j: int, k: int)
    ensures
        dot(blas::shifted(a, r, 0), blas::shifted(b, 0, t), i, j, k) == dot(
            a,
            b,
            i + r,
            j + t,
            k,
        ),
    decreases k,
{
    if k > 0 {
        lemma_shift(a, b, r, t, i, j, k - 1);
    }
}

pub(crate) proof fn lemma_refl(x: int)
    ensures
        cong(x, x),
{
    reveal(cong);
}

pub(crate) proof fn lemma_symm(x: int, y: int)
    requires
        cong(x, y),
    ensures
        cong(y, x),
{
    reveal(cong);
}

pub(crate) proof fn lemma_trans(x: int, y: int, z: int)
    requires
        cong(x, y),
        cong(y, z),
    ensures
        cong(x, z),
{
    reveal(cong);
}

/// If `p` is `u + v` or `u - v`, then it is so with `u` and `v` replaced.
proof fn lemma_via(p: int, u: int, v: int, u2: int, v2: int)
    requires
        cong(u, u2),
        cong(v, v2),
    ensures
        cong(p, u + v) ==> cong(p, u2 + v2),
        cong(p, u - v) ==> cong(p, u2 - v2),
{
    reveal(cong);
}

proof fn lemma_strassen_products(
    a: Mat<i32>,
    b: Mat<i32>,
    m: int,
    k: int,
    n: int,
    depth: int,
    i: int,
    j: int,
)
    requires
        0 <= i < m / 2,
        0 <= j < n / 2,
        0 <= k,
        0 <= depth <= 6,
    ensures
        ({
            let (m2, k2, n2) = (m / 2, k / 2, n / 2);
            let (a11, a12, a21, a22) = (
                a,
                blas::shifted(a, 0, k2),
                blas::shifted(a, m2, 0),
                blas::shifted(a, m2, k2),
            );
            let (b11, b12, b21, b22) = (
                b,
                blas::shifted(b, 0, n2),
                blas::shifted(b, k2, 0),
                blas::shifted(b, k2, n2),
            );
            let d = |x: Mat<i32>, y: Mat<i32>| dot(x, y, i, j, k2);
            let p = |w: int| blas::strassen_product(a, b, m, k, n, depth, w, i, j) as int;
            &&& cong(p(0), d(a11, b11) + d(a11, b22) + (d(a22, b11) + d(a22, b22)))
            &&& cong(p(1), d(a21, b11) + d(a22, b11))
            &&& cong(p(2), d(a11, b12) - d(a11, b22))
            &&& cong(p(3), d(a22, b21) - d(a22, b11))
            &&& cong(p(4), d(a11, b22) + d(a12, b22))
            &&& cong(p(5), d(a21, b11) + d(a21, b12) - (d(a11, b11) + d(a11, b12)))
            &&& cong(p(6), d(a12, b21) + d(a12, b22) - (d(a22, b21) + d(a22, b22)))
        }),
    decreases 8 - depth, 0int,
{
    let (m2, k2, n2) = (m / 2, k / 2, n / 2);
    let (a11, a12, a21, a22) = (
        a,
        blas::shifted(a, 0, k2),
        blas::shifted(a, m2, 0),
        blas::shifted(a, m2, k2),
    );
    let (b11, b12, b21, b22) = (
        b,
        blas::shifted(b, 0, n2),
        blas::shifted(b, k2, 0),
        blas::shifted(b, k2, n2),
    );
    let z = blas::mat_zero::<i32>();
    let e = depth + 1;
    let d = |x: Mat<i32>, y: Mat<i32>| dot(x, y, i, j, k2);
    let p = |w: int| blas::strassen_product(a, b, m, k, n, depth, w, i, j) as int;
    assert(cong(p(0), d(a11, b11) + d(a11, b22) + (d(a22, b11) + d(a22, b22)))) by {
        let (x, y) = (blas::mat_add(a11, a22), blas::mat_add(b11, b22));
        lemma_strassen_exact(x, y, z, m2, k2, n2, e, i, j);
        lemma_left(a11, a22, y, i, j, k2);
        lemma_trans(p(0), d(x, y), d(a11, y) + d(a22, y));
        lemma_right(a11, b11, b22, i, j, k2);
        lemma_right(a22, b11, b22, i, j, k2);
        lemma_via(
            p(0),
            d(a11, y),
            d(a22, y),
            d(a11, b11) + d(a11, b22),
            d(a22, b11) + d(a22, b22),
        );
    }
    assert(cong(p(1), d(a21, b11) + d(a22, b11))) by {
        let x = blas::mat_add(a21, a22);
        lemma_strassen_exact(x, b11, z, m2, k2, n2, e, i, j);
        lemma_left(a21, a22, b11, i, j, k2);
        lemma_trans(p(1), d(x, b11), d(a21, b11) + d(a22, b11));
    }
    assert(cong(p(2), d(a11, b12) - d(a11, b22))) by {
        let y = blas::mat_sub(b12, b22);
        lemma_strassen_exact(a11, y, z, m2, k2, n2, e, i, j);
        lemma_right(a11, b12, b22, i, j, k2);
        lemma_trans(p(2), d(a11, y), d(a11, b12) - d(a11, b22));
    }
    assert(cong(p(3), d(a22, b21) - d(a22, b11))) by {
        let y = blas::mat_sub(b21, b11);
        lemma_strassen_exact(a22, y, z, m2, k2, n2, e, i, j);
        lemma_right(a22, b21, b11, i, j, k2);
        lemma_trans(p(3), d(a22, y), d(a22, b21) - d(a22, b11));
    }
    assert(cong(p(4), d(a11, b22) + d(a12, b22))) by {
        let x = blas::mat_add(a11, a12);
        lemma_strassen_exact(x, b22, z, m2, k2, n2, e, i, j);
        lemma_left(a11, a12, b22, i, j, k2);
        lemma_trans(p(4), d(x, b22), d(a11, b22) + d(a12, b22));
    }
    assert(cong(p(5), d(a21, b11) + d(a21, b12) - (d(a11, b11) + d(a11, b12)))) by {
        let (x, y) = (blas::mat_sub(a21, a11), blas::mat_add(b11, b12));
        lemma_strassen_exact(x, y, z, m2, k2, n2, e, i, j);
        lemma_left(a21, a11, y, i, j, k2);
        lemma_trans(p(5), d(x, y), d(a21, y) - d(a11, y));
        lemma_right(a21, b11, b12, i, j, k2);
        lemma_right(a11, b11, b12, i, j, k2);
        lemma_via(
            p(5),
            d(a21, y),
            d(a11, y),
            d(a21, b11) + d(a21, b12),
            d(a11, b11) + d(a11, b12),
        );
    }
    assert(cong(p(6), d(a12, b21) + d(a12, b22) - (d(a22, b21) + d(a22, b22)))) by {
        let (x, y) = (blas::mat_sub(a12, a22), blas::mat_add(b21, b22));
        lemma_strassen_exact(x, y, z, m2, k2, n2, e, i, j);
        lemma_left(a12, a22, y, i, j, k2);
        lemma_trans(p(6), d(x, y), d(a12, y) - d(a22, y));
        lemma_right(a12, b21, b22, i, j, k2);
        lemma_right(a22, b21, b22, i, j, k2);
        lemma_via(
            p(6),
            d(a12, y),
            d(a22, y),
            d(a12, b21) + d(a12, b22),
            d(a22, b21) + d(a22, b22),
        );
    }
}

/// A sum of three machine additions, over congruent summands.
proof fn lemma_chain(
    s1: int,
    s2: int,
    s3: int,
    p: int,
    q: int,
    r: int,
    t: int,
    p2: int,
    q2: int,
    r2: int,
    t2: int,
)
    requires
        cong(p, p2),
        cong(q, q2),
        cong(r, r2),
        cong(t, t2),
    ensures
        cong(s1, p + q) && cong(s2, s1 - r) && cong(s3, s2 + t) ==> cong(s3, p2 + q2 - r2 + t2),
        cong(s1, p - q) && cong(s2, s1 + r) && cong(s3, s2 + t) ==> cong(s3, p2 - q2 + r2 + t2),
        cong(s1, p + q) ==> cong(s1, p2 + q2),
{
    reveal(cong);
}

proof fn lemma_core_exact(
    a: Mat<i32>,
    b: Mat<i32>,
    m: int,
    k: int,
    n: int,
    depth: int,
    i: int,
    j: int,
)
    requires
        0 <= i < m,
        0 <= j < n,
        0 <= k,
        m % 2 == 0,
        k % 2 == 0,
        n % 2 == 0,
        0 <= depth <= 6,
    ensures
        cong(blas::core_entry(a, b, m, k, n, depth, i, j) as int, dot(a, b, i, j, k)),
    decreases 8 - depth, 1int,
{
    let (m2, k2, n2) = (m / 2, k / 2, n / 2);
    let (r, t) = (
        if i < m2 {
            i
        } else {
            i - m2
        },
        if j < n2 {
            j
        } else {
            j - n2
        },
    );
    lemma_strassen_products(a, b, m, k, n, depth, r, t);
    let (a11, a12, a21, a22) = (
        a,
        blas::shifted(a, 0, k2),
        blas::shifted(a, m2, 0),
        blas::shifted(a, m2, k2),
    );
    let (b11, b12, b21, b22) = (
        b,
        blas::shifted(b, 0, n2),
        blas::shifted(b, k2, 0),
        blas::shifted(b, k2, n2),
    );
    let d = |x: Mat<i32>, y: Mat<i32>| dot(x, y, r, t, k2);
    let p0 = blas::strassen_product(a, b, m, k, n, depth, 0, r, t);
    let p1 = blas::strassen_product(a, b, m, k, n, depth, 1, r, t);
    let p2 = blas::strassen_product(a, b, m, k, n, depth, 2, r, t);
    let p3 = blas::strassen_product(a, b, m, k, n, depth, 3, r, t);
    let p4 = blas::strassen_product(a, b, m, k, n, depth, 4, r, t);
    let p5 = blas::strassen_product(a, b, m, k, n, depth, 5, r, t);
    let p6 = blas::strassen_product(a, b, m, k, n, depth, 6, r, t);
    lemma_split(a, b, i, j, k2, k2);
    if i < m2 {
        if j < n2 {
            lemma_ops(p0, p3);
            lemma_ops(p0.spec_plus(p3), p4);
            lemma_ops(p0.spec_plus(p3).spec_minus(p4), p6);
            lemma_chain(
                p0.spec_plus(p3) as int,
                p0.spec_plus(p3).spec_minus(p4) as int,
                p0.spec_plus(p3).spec_minus(p4).spec_plus(p6) as int,
                p0 as int,
                p3 as int,
                p4 as int,
                p6 as int,
                d(a11, b11) + d(a11, b22) + (d(a22, b11) + d(a22, b22)),
                d(a22, b21) - d(a22, b11),
                d(a11, b22) + d(a12, b22),
                d(a12, b21) + d(a12, b22) - (d(a22, b21) + d(a22, b22)),
            );
        } else {
            lemma_ops(p2, p4);
            lemma_chain(
                p2.spec_plus(p4) as int,
                0,
                0,
                p2 as int,
                p4 as int,
                p2 as int,
                p4 as int,
                d(a11, b12) - d(a11, b22),
                d(a11, b22) + d(a12, b22),
                d(a11, b12) - d(a11, b22),
                d(a11, b22) + d(a12, b22),
            );
            lemma_shift(a11, b11, 0, n2, r, t, k2);
            lemma_shift(a12, b21, 0, n2, r, t, k2);
            assert(blas::shifted(a11, 0, 0) =~= a11);
            assert(blas::shifted(a12, 0, 0) =~= a12);
            assert(blas::shifted(b21, 0, n2) =~= b22);
        }
    } else if j < n2 {
        lemma_ops(p1, p3);
        lemma_chain(
            p1.spec_plus(p3) as int,
            0,
            0,
            p1 as int,
            p3 as int,
            p1 as int,
            p3 as int,
            d(a21, b11) + d(a22, b11),
            d(a22, b21) - d(a22, b11),
            d(a21, b11) + d(a22, b11),
            d(a22, b21) - d(a22, b11),
        );
        lemma_shift(a11, b11, m2, 0, r, t, k2);
        lemma_shift(a12, b21, m2, 0, r, t, k2);
        assert(blas::shifted(b11, 0, 0) =~= b11);
        assert(blas::shifted(b21, 0, 0) =~= b21);
        assert(blas::shifted(a12, m2, 0) =~= a22);
    } else {
        lemma_ops(p0, p1);
        lemma_ops(p0.spec_minus(p1), p2);
        lemma_ops(p0.spec_minus(p1).spec_plus(p2), p5);
        lemma_chain(
            p0.spec_minus(p1) as int,
            p0.spec_minus(p1).spec_plus(p2) as int,
            p0.spec_minus(p1).spec_plus(p2).spec_plus(p5) as int,
            p0 as int,
            p1 as int,
            p2 as int,
            p5 as int,
            d(a11, b11) + d(a11, b22) + (d(a22, b11) + d(a22, b22)),
            d(a21, b11) + d(a22, b11),
            d(a11, b12) - d(a11, b22),
            d(a21, b11) + d(a21, b12) - (d(a11, b11) + d(a11, b12)),
        );
        lemma_shift(a11, b11, m2, n2, r, t, k2);
        lemma_shift(a12, b21, m2, n2, r, t, k2);
        assert(blas::shifted(a12, m2, 0) =~= a22);
        assert(blas::shifted(b21, 0, n2) =~= b22);
    }
}

/// On machine integers an entry of the product by halving is the integer inner product,
/// modulo two to the power of 32.
pub proof fn lemma_strassen_exact(
    a: Mat<i32>,
    b: Mat<i32>,
    c: Mat<i32>,
    m: int,
    k: int,
    n: int,
    depth: int,
    i: int,
    j: int,
)
    requires
        0 <= k,
        0 <= i < m,
        0 <= j < n,
        0 <= depth <= 7,
    ensures
        cong(blas::strassen_entry(a, b, c, m, k, n, depth, i, j) as int, dot(a, b, i, j, k)),
    decreases 8 - depth, 2int,
{
    let nt = Transpose::NoTrans;
    let d = dot(a, b, i, j, k);
    assert(1 * d + 0 * c(i, j) == d) by (nonlinear_arith);
    if m <= GEMM_STRASSEN_THRESHOLD || k <= GEMM_STRASSEN_THRESHOLD || n
        <= GEMM_STRASSEN_THRESHOLD || depth > STRASSEN_MAX_DEPTH {
        lemma_gemm_exact(nt, m, n, k, 1, a, b, 0, c(i, j), i, j);
    } else {
        let (mf, kf, nf) = (blas::even_part(m), blas::even_part(k), blas::even_part(n));
        let df = dot(a, b, i, j, kf);
        if j >= nf {
            let t = blas::shifted(b, 0, nf);
            lemma_gemm_exact(nt, m, 1, kf, 1, a, t, 0, 0, i, 0);
            lemma_shift(a, b, 0, nf, i, 0, kf);
            assert(blas::shifted(a, 0, 0) =~= a);
            assert(1 * df + 0 * 0 == df);
        } else if i >= mf {
            let t = blas::shifted(a, mf, 0);
            lemma_gemm_exact(nt, 1, nf, kf, 1, t, b, 0, c(i, j), 0, j);
            lemma_shift(a, b, mf, 0, 0, j, kf);
            assert(blas::shifted(b, 0, 0) =~= b);
            assert(1 * df + 0 * c(i, j) == df) by (nonlinear_arith);
        } else {
            lemma_core_exact(a, b, mf, kf, nf, depth, i, j);
        }
        if kf < k {
            let (av, bv) = (a(i, kf), b(kf, j));
            lemma_ops(av, bv);
            if av == 0 {
                assert(av * bv == 0) by (nonlinear_arith)
                    requires
                        av == 0,
                ;
            }
            let even = if j >= nf {
                blas::classical(m, 1, kf, a, blas::shifted(b, 0, nf), 0i32, i, 0)
            } else if i >= mf {
                blas::classical(1, nf, kf, blas::shifted(a, mf, 0), b, c(i, j), 0, j)
            } else {
                blas::core_entry(a, b, mf, kf, nf, depth, i, j)
            };
            lemma_ops(even, av.spec_times(bv));
            let t = av.spec_times(bv) as int;
            lemma_via(even.spec_plus(av.spec_times(bv)) as int, even as int, t, df, av * bv);
        }
    }
}

/// On machine integers the product by halving and the classical product agree entry by
/// entry.
pub proof fn lemma_strassen_is_classical(
    a: Mat<i32>,
    b: Mat<i32>,
    c: Mat<i32>,
    m: int,
    k: int,
    n: int,
    i: int,
    j: int,
)
    requires
        0 <= k,
        0 <= i < m,
        0 <= j < n,
    ensures
        blas::strassen_entry(a, b, c, m, k, n, 0, i, j) == blas::classical(
            m,
            n,
            k,
            a,
            b,
            c(i, j),
            i,
            j,
        ),
{
    let d = dot(a, b, i, j, k);
    lemma_strassen_exact(a, b, c, m, k, n, 0, i, j);
    lemma_gemm_exact(Transpose::NoTrans, m, n, k, 1, a, b, 0, c(i, j), i, j);
    assert(1 * d + 0 * c(i, j) == d) by (nonlinear_arith);
    reveal(cong);
}

/// The first `n` values, summed as integers.
pub open spec fn isum(f: spec_fn(int) -> int, n: int) -> int
    decreases n,
{
    if n <= 0 {
        0
    } else {
        isum(f, n - 1) + f(n - 1)
    }
}

proof fn lemma_sum_cong(f: spec_fn(int) -> i32, g: spec_fn(int) -> int, n: int)
    requires
        forall|i: int| 0 <= i < n ==> cong(#[trigger] f(i) as int, g(i)),
    ensures
        cong(number::sum_n(f, n) as int, isum(g, n)),
    decreases n,
{
    if n > 0 {
        lemma_sum_cong(f, g, n - 1);
        let s = number::sum_n(f, n - 1);
        assert(cong(f(n - 1) as int, g(n - 1)));
        lemma_ops(s, f(n - 1));
        lemma_via(s.spec_plus(f(n - 1)) as int, s as int, f(n - 1) as int, isum(g, n - 1), g(n - 1));
    } else {
        reveal(cong);
    }
}

proof fn lemma_isum_agree(f: spec_fn(int) -> int, g: spec_fn(int) -> int, n: int)
    requires
        forall|i: int| 0 <= i < n ==> #[trigger] f(i) == g(i),
    ensures
        isum(f, n) == isum(g, n),
    decreases n,
{
    if n > 0 {
        lemma_isum_agree(f, g, n - 1);
        assert(f(n - 1) == g(n - 1));
    }
}

proof fn lemma_isum_linear(
    c: int,
    f: spec_fn(int) -> int,
    g: spec_fn(int) -> int,
    n: int,
)
    ensures
        isum(|j: int| g(j) + c * f(j), n) == isum(g, n) + c * isum(f, n),
    decreases n,
{
    if n > 0 {
        lemma_isum_linear(c, f, g, n - 1);
        let h = |j: int| g(j) + c * f(j);
        let (x, y) = (isum(f, n - 1), f(n - 1));
        assert(c * (x + y) == c * x + c * y) by (nonlinear_arith);
        assert(h(n - 1) == g(n - 1) + c * f(n - 1));
    } else {
        assert(c * 0 == 0) by (nonlinear_arith);
    }
}

/// The integer products of query feature, key feature and value.
spec fn inner(x: Mat<i32>, y: Mat<i32>, t: int, j: int) -> spec_fn(int) -> int {
    |a: int| x(t, a) * y(j, a)
}

spec fn keyed(y: Mat<i32>, z: Mat<i32>, a: int, b: int) -> spec_fn(int) -> int {
    |j: int| y(j, a) * z(j, b)
}

spec fn by_feature(x: Mat<i32>, y: Mat<i32>, z: Mat<i32>, t: int, b: int, n: int) -> spec_fn(
    int,
) -> int {
    |a: int| x(t, a) * isum(keyed(y, z, a, b), n)
}

spec fn by_key(x: Mat<i32>, y: Mat<i32>, z: Mat<i32>, t: int, b: int, d: int) -> spec_fn(
    int,
) -> int {
    |j: int| isum(inner(x, y, t, j), d) * z(j, b)
}

proof fn lemma_exchange(
    x: Mat<i32>,
    y: Mat<i32>,
    z: Mat<i32>,
    t: int,
    b: int,
    n: int,
    d: int,
)
    ensures
        isum(by_feature(x, y, z, t, b, n), d) == isum(by_key(x, y, z, t, b, d), n),
    decreases d,
{
    let g = by_key(x, y, z, t, b, d - 1);
    if d > 0 {
        lemma_exchange(x, y, z, t, b, n, d - 1);
        let c = x(t, d - 1) as int;
        let f = keyed(y, z, d - 1, b);
        let h = |j: int| g(j) + c * f(j);
        lemma_isum_linear(c, f, g, n);
        let k = by_key(x, y, z, t, b, d);
        assert forall|j: int| 0 <= j < n implies #[trigger] k(j) == h(j) by {
            let (u, v, w) = (isum(inner(x, y, t, j), d - 1), y(j, d - 1) as int, z(j, b) as int);
            assert((u + c * v) * w == u * w + c * (v * w)) by (nonlinear_arith);
            assert(inner(x, y, t, j)(d - 1) == c * v);
        }
        lemma_isum_agree(k, h, n);
    } else {
        let k = by_key(x, y, z, t, b, d);
        let zero = |j: int| 0int;
        assert forall|j: int| 0 <= j < n implies #[trigger] k(j) == zero(j) by {
            assert(0 * z(j, b) == 0) by (nonlinear_arith);
        }
        lemma_isum_agree(k, zero, n);
        lemma_isum_zero(n);
    }
}

proof fn lemma_isum_zero(n: int)
    ensures
        isum(|j: int| 0int, n) == 0,
    decreases n,
{
    if n > 0 {
        lemma_isum_zero(n - 1);
    }
}

proof fn lemma_scored(
    pq: Mat<i32>,
    pk: Mat<i32>,
    v: Mat<i32>,
    t: int,
    b: int,
    n: int,
    d: int,
)
    ensures
        cong(
            number::sum_n(linear_attention::scored_value(pq, pk, v, t, b, d), n) as int,
            isum(by_key(pq, pk, v, t, b, d), n),
        ),
{
    let f = linear_attention::scored_value(pq, pk, v, t, b, d);
    let g = by_key(pq, pk, v, t, b, d);
    assert forall|j: int| 0 <= j < n implies cong(#[trigger] f(j) as int, g(j)) by {
        let w = linear_attention::weighted(pq, t, linear_attention::row(pk, j));
        let h = inner(pq, pk, t, j);
        assert forall|a: int| 0 <= a < d implies cong(#[trigger] w(a) as int, h(a)) by {
            lemma_ops(pq(t, a), pk(j, a));
        }
        lemma_sum_cong(w, h, d);
        let s = linear_attention::score(pq, pk, t, d)(j);
        lemma_ops(s, v(j, b));
        lemma_refl(v(j, b) as int);
        lemma_product(s as int, isum(h, d), v(j, b) as int, v(j, b) as int);
        lemma_trans(f(j) as int, s * v(j, b), g(j));
    }
    lemma_sum_cong(f, g, n);
}

/// On machine integers it makes no difference whether a query gathers values through the
/// running state or key by key: this is what lets attention be linear in the sequence
/// length.
pub proof fn lemma_state_gathers_scores(
    pq: Mat<i32>,
    pk: Mat<i32>,
    v: Mat<i32>,
    t: int,
    b: int,
    d: int,
)
    ensures
        linear_attention::gathered_causal(pq, pk, v, d)(t, b) == number::sum_n(
            linear_attention::scored_value(pq, pk, v, t, b, d),
            t + 1,
        ),
{
    let n = t + 1;
    let s = linear_attention::state_at(pk, v, n);
    let w = linear_attention::weighted(pq, t, linear_attention::column(s, b));
    let g = by_feature(pq, pk, v, t, b, n);
    assert forall|a: int| 0 <= a < d implies cong(#[trigger] w(a) as int, g(a)) by {
        let o = linear_attention::outer(pk, v, a, b);
        let h = keyed(pk, v, a, b);
        assert forall|j: int| 0 <= j < n implies cong(#[trigger] o(j) as int, h(j)) by {
            lemma_ops(pk(j, a), v(j, b));
        }
        lemma_sum_cong(o, h, n);
        lemma_ops(pq(t, a), s(a, b));
        lemma_refl(pq(t, a) as int);
        lemma_product(pq(t, a) as int, pq(t, a) as int, s(a, b) as int, isum(h, n));
        lemma_trans(w(a) as int, pq(t, a) * s(a, b), g(a));
    }
    lemma_sum_cong(w, g, d);
    lemma_exchange(pq, pk, v, t, b, n, d);
    lemma_scored(pq, pk, v, t, b, n, d);
    lemma_equal(
        linear_attention::gathered_causal(pq, pk, v, d)(t, b),
        number::sum_n(linear_attention::scored_value(pq, pk, v, t, b, d), n),
        isum(g, d),
    );
}

pub(crate) proof fn lemma_equal(x: i32, y: i32, z: int)
    requires
        cong(x as int, z),
        cong(y as int, z),
    ensures
        x == y,
{
    reveal(cong);
}

proof fn lemma_dot_is_isum(a: Mat<i32>, b: Mat<i32>, f: spec_fn(int) -> int, i: int, j: int, k: int)
    requires
        forall|p: int| 0 <= p < k ==> #[trigger] f(p) == a(i, p) * b(p, j),
    ensures
        dot(a, b, i, j, k) == isum(f, k),
    decreases k,
{
    if k > 0 {
        lemma_dot_is_isum(a, b, f, i, j, k - 1);
        assert(f(k - 1) == a(i, k - 1) * b(k - 1, j));
    }
}

/// The same for attention in both directions, where two matrix products take the place of
/// the running state.
pub proof fn lemma_products_gather_scores(
    pq: Mat<i32>,
    pk: Mat<i32>,
    v: Mat<i32>,
    t: int,
    b: int,
    seq: int,
    d: int,
)
    requires
        0 <= seq,
        0 <= d,
    ensures
        linear_attention::gathered(pq, pk, v, seq, d)(t, b) == number::sum_n(
            linear_attention::scored_value(pq, pk, v, t, b, d),
            seq,
        ),
{
    let s = linear_attention::kv_state(pk, v, seq, d);
    let tk = blas::transposed(pk);
    let g = by_feature(pq, pk, v, t, b, seq);
    let nt = Transpose::NoTrans;
    let e = dot(pq, s, t, b, d);
    lemma_gemm_exact(nt, seq, d, d, 1, pq, s, 0, 0, t, b);
    assert(1 * e + 0 * 0 == e);
    let f = |p: int| pq(t, p) * s(p, b);
    lemma_dot_is_isum(pq, s, f, t, b, d);
    assert forall|a: int| 0 <= a < d implies cong(#[trigger] f(a), g(a)) by {
        let h = keyed(pk, v, a, b);
        lemma_gemm_exact(nt, d, d, seq, 1, tk, v, 0, 0, a, b);
        let u = dot(tk, v, a, b, seq);
        assert(1 * u + 0 * 0 == u);
        lemma_dot_is_isum(tk, v, h, a, b, seq);
        lemma_refl(pq(t, a) as int);
        lemma_product(pq(t, a) as int, pq(t, a) as int, s(a, b) as int, isum(h, seq));
    }
    lemma_isum_cong(f, g, d);
    lemma_trans(linear_attention::gathered(pq, pk, v, seq, d)(t, b) as int, e, isum(g, d));
    lemma_exchange(pq, pk, v, t, b, seq, d);
    lemma_scored(pq, pk, v, t, b, seq, d);
    lemma_equal(
        linear_attention::gathered(pq, pk, v, seq, d)(t, b),
        number::sum_n(linear_attention::scored_value(pq, pk, v, t, b, d), seq),
        isum(g, d),
    );
}

proof fn lemma_isum_cong(f: spec_fn(int) -> int, g: spec_fn(int) -> int, n: int)
    requires
        forall|i: int| 0 <= i < n ==> cong(#[trigger] f(i), g(i)),
    ensures
        cong(isum(f, n), isum(g, n)),
    decreases n,
{
    if n > 0 {
        lemma_isum_cong(f, g, n - 1);
        assert(cong(f(n - 1), g(n - 1)));
        lemma_sum(isum(f, n - 1), isum(g, n - 1), f(n - 1), g(n - 1));
    } else {
        reveal(cong);
    }
}

/// What is gathered round a ring is, as an integer, a sum of consecutive terms.
proof fn lemma_gathered(workers: Seq<Vec<i32>>, n: int, c: int, i: int, d: int)
    requires
        0 <= c < n,
        0 <= d < n,
    ensures
        cong(
            distributed::gathered(workers, n, c, i, d) as int,
            ring_sum(terms(workers, i), n, c, d),
        ),
    decreases d,
{
    let g = terms(workers, i);
    if d == 0 {
        assert(isum(g, c + 1) == isum(g, c) + g(c));
        assert(g(c) == workers[c]@[i] as int);
        lemma_refl(g(c));
    } else {
        lemma_gathered(workers, n, c, i, d - 1);
        let v = workers[distributed::wrap(c + d, n)]@[i];
        let rest = distributed::gathered(workers, n, c, i, d - 1);
        lemma_ops(v, rest);
        lemma_refl(v as int);
        lemma_sum(v as int, v as int, rest as int, ring_sum(g, n, c, d - 1));
        lemma_trans(
            v.spec_plus(rest) as int,
            v + rest,
            v + ring_sum(g, n, c, d - 1),
        );
        assert(g(distributed::wrap(c + d, n)) == v as int);
        if c + d < n {
            assert(isum(g, c + d + 1) == isum(g, c + d) + g(c + d));
        } else {
            assert(isum(g, c + d + 1 - n) == isum(g, c + d - n) + g(c + d - n));
        }
        assert(ring_sum(g, n, c, d) == v + ring_sum(g, n, c, d - 1));
    }
}

/// The terms that the workers have at a position.
pub open spec fn terms(workers: Seq<Vec<i32>>, i: int) -> spec_fn(int) -> int {
    |w: int| workers[w]@[i] as int
}

/// The sum of `d + 1` terms from term `c` on, round a ring of `n`.
spec fn ring_sum(g: spec_fn(int) -> int, n: int, c: int, d: int) -> int {
    if c + d < n {
        isum(g, c + d + 1) - isum(g, c)
    } else {
        isum(g, n) - isum(g, c) + isum(g, c + d + 1 - n)
    }
}

/// Passing chunks round the ring gives the sum that adding up worker by worker gives.
pub proof fn lemma_ring_is_sum(workers: Seq<Vec<i32>>, len: int, i: int)
    requires
        workers.len() > 1,
        0 <= i < len,
        distributed::buffers(workers, len),
    ensures
        distributed::ring_total(
            workers,
            workers.len() as int,
            distributed::chunk_len(len, workers.len() as int),
            i,
        ) == distributed::summed(workers, len)[i],
{
    let n = workers.len() as int;
    let chunk = distributed::chunk_len(len, n);
    let c = distributed::chunk_of(i, chunk);
    let g = terms(workers, i);
    distributed::lemma_chunk_exists(i, len, n);
    lemma_gathered(workers, n, c, i, n - 1);
    let f = distributed::across(workers, i);
    assert forall|w: int| 0 <= w < n implies cong(#[trigger] f(w) as int, g(w)) by {
        lemma_refl(g(w));
    }
    lemma_sum_cong(f, g, n);
    lemma_equal(
        distributed::ring_total(workers, n, chunk, i),
        number::sum_n(f, n),
        isum(g, n),
    );
}

} // verus!
