//! Ways to compute an entry of a matrix product.
//!
//! The order in which products are summed, and the place at which a factor comes in, make no
//! difference to exact numbers and a small one to rounded ones. What is computed in some way from
//! the same products is the same up to rounding.
use vstd::prelude::*;
use crate::blas;
use crate::blas::{Mat, Transpose, KC};
use crate::exact;
use crate::exact::cong;
use crate::number::Number;

verus! {

/// A way to compute an entry of `alpha * A * B + beta * C` from a row of `A`, a column of `B` and
/// the old entry of `C` times `beta`.
pub enum Way {
    /// The old entry.
    Old,
    /// Nothing.
    Zero,
    /// A product, whose left factor is multiplied by `alpha` first.
    Left(int),
    /// A product, whose right factor is multiplied by `alpha` first.
    Right(int),
    /// A product by itself.
    Plain(int),
    /// Something times `alpha`.
    Alpha(Box<Way>),
    /// The sum of two.
    Plus(Box<Way>, Box<Way>),
}

/// A factor of each product.
pub type Factors<S> = spec_fn(int) -> S;

/// What is computed.
pub open spec fn worth<S: Number>(w: Way, alpha: S, a: Factors<S>, b: Factors<S>, old: S) -> S
    decreases w,
{
    match w {
        Way::Old => old,
        Way::Zero => S::spec_zero(),
        Way::Left(p) => alpha.spec_times(a(p)).spec_times(b(p)),
        Way::Right(p) => a(p).spec_times(alpha.spec_times(b(p))),
        Way::Plain(p) => a(p).spec_times(b(p)),
        Way::Alpha(v) => alpha.spec_times(worth(*v, alpha, a, b, old)),
        Way::Plus(u, v) => worth(*u, alpha, a, b, old).spec_plus(worth(*v, alpha, a, b, old)),
    }
}

/// How often a product occurs.
pub open spec fn uses(w: Way, p: int) -> nat
    decreases w,
{
    match w {
        Way::Left(q) => if p == q {
            1
        } else {
            0
        },
        Way::Right(q) => if p == q {
            1
        } else {
            0
        },
        Way::Plain(q) => if p == q {
            1
        } else {
            0
        },
        Way::Alpha(v) => uses(*v, p),
        Way::Plus(u, v) => uses(*u, p) + uses(*v, p),
        _ => 0,
    }
}

/// How often the old entry occurs.
pub open spec fn olds(w: Way) -> nat
    decreases w,
{
    match w {
        Way::Old => 1,
        Way::Alpha(v) => olds(*v),
        Way::Plus(u, v) => olds(*u) + olds(*v),
        _ => 0,
    }
}

/// Nothing but products by themselves.
pub open spec fn is_bare(w: Way) -> bool
    decreases w,
{
    match w {
        Way::Zero => true,
        Way::Plain(_) => true,
        Way::Plus(u, v) => is_bare(*u) && is_bare(*v),
        _ => false,
    }
}

/// Each product comes in with `alpha` exactly once, or `alpha` is one.
pub open spec fn brings_alpha(w: Way, unit: bool) -> bool
    decreases w,
{
    match w {
        Way::Plain(_) => unit,
        Way::Alpha(v) => is_bare(*v),
        Way::Plus(u, v) => brings_alpha(*u, unit) && brings_alpha(*v, unit),
        _ => true,
    }
}

/// A product may be left out: one of its factors is zero.
pub open spec fn is_void<S: Number>(alpha: S, a: Factors<S>, b: Factors<S>, p: int) -> bool {
    let z = S::spec_zero();
    alpha.spec_same(z) || a(p).spec_same(z) || b(p).spec_same(z)
}

/// The old entry and each of the first `k` products come in exactly once, but for products that
/// may be left out.
pub open spec fn is_way<S: Number>(
    w: Way,
    k: int,
    alpha: S,
    a: Factors<S>,
    b: Factors<S>,
) -> bool {
    &&& olds(w) == 1
    &&& brings_alpha(w, alpha.spec_same(S::spec_one()))
    &&& forall|p: int| #[trigger]
        uses(w, p) == 1 || (uses(w, p) == 0 && (p < 0 || k <= p || is_void(alpha, a, b, p)))
    &&& forall|p: int| p < 0 || k <= p ==> #[trigger] uses(w, p) == 0
}

/// A number is the sum of the old entry and the first `k` products times `alpha`, in some order:
/// it is that sum up to rounding.
pub open spec fn adds_up<S: Number>(
    r: S,
    k: int,
    alpha: S,
    a: Factors<S>,
    b: Factors<S>,
    old: S,
) -> bool {
    exists|w: Way| #[trigger] is_way(w, k, alpha, a, b) && r == worth(w, alpha, a, b, old)
}

/// A row of a matrix.
pub open spec fn row<S>(a: Mat<S>, i: int) -> Factors<S> {
    |p: int| a(i, p)
}

/// A column of a matrix.
pub open spec fn column<S>(b: Mat<S>, j: int) -> Factors<S> {
    |p: int| b(p, j)
}

/// The way of a product in one pass.
spec fn small_way<S: Number>(a: Factors<S>, p: int) -> Way
    decreases p,
{
    if p <= 0 {
        Way::Old
    } else if a(p - 1).spec_same(S::spec_zero()) {
        small_way(a, p - 1)
    } else {
        Way::Plus(Box::new(small_way(a, p - 1)), Box::new(Way::Left(p - 1)))
    }
}

proof fn lemma_small_way<S: Number>(alpha: S, a: Mat<S>, b: Mat<S>, old: S, i: int, j: int, p: int)
    ensures
        worth(small_way(row(a, i), p), alpha, row(a, i), column(b, j), old) == blas::small_acc(
            alpha,
            a,
            b,
            old,
            i,
            j,
            p,
        ),
        olds(small_way(row(a, i), p)) == 1,
        brings_alpha(small_way(row(a, i), p), alpha.spec_same(S::spec_one())),
        forall|x: int| #[trigger]
            uses(small_way(row(a, i), p), x) == (if 0 <= x < p && !a(i, x).spec_same(
                S::spec_zero(),
            ) {
                1nat
            } else {
                0
            }),
    decreases p,
{
    reveal_with_fuel(worth, 3);
    reveal_with_fuel(uses, 3);
    reveal_with_fuel(olds, 3);
    reveal_with_fuel(brings_alpha, 3);
    if p > 0 {
        lemma_small_way(alpha, a, b, old, i, j, p - 1);
        let (u, w) = (small_way(row(a, i), p - 1), small_way(row(a, i), p));
        let z = S::spec_zero();
        assert(row(a, i)(p - 1) == a(i, p - 1));
        assert forall|x: int| #[trigger] uses(w, x) == (if 0 <= x < p && !a(i, x).spec_same(z) {
            1nat
        } else {
            0
        }) by {
            assert(uses(u, x) == (if 0 <= x < p - 1 && !a(i, x).spec_same(z) {
                1nat
            } else {
                0
            }));
            if !a(i, p - 1).spec_same(z) {
                assert(uses(w, x) == uses(u, x) + uses(Way::Left(p - 1), x));
            }
        }
    }
}

/// The way of the products of a panel.
spec fn panel_way(plain: bool, lo: int, hi: int) -> Way
    decreases hi - lo,
{
    if hi <= lo {
        Way::Zero
    } else {
        let last = if plain {
            Way::Plain(hi - 1)
        } else {
            Way::Right(hi - 1)
        };
        Way::Plus(Box::new(panel_way(plain, lo, hi - 1)), Box::new(last))
    }
}

/// The right factors stand in a panel as they are.
spec fn is_plain<S: Number>(tb: Transpose, alpha: S) -> bool {
    tb is NoTrans && alpha.spec_same(S::spec_one())
}

proof fn lemma_panel_way<S: Number>(
    tb: Transpose,
    alpha: S,
    a: Mat<S>,
    b: Mat<S>,
    old: S,
    i: int,
    j: int,
    lo: int,
    hi: int,
)
    ensures
        ({
            let w = panel_way(is_plain(tb, alpha), lo, hi);
            &&& worth(w, alpha, row(a, i), column(b, j), old) == blas::panel_sum(
                tb,
                alpha,
                a,
                b,
                i,
                j,
                lo,
                hi,
            )
            &&& olds(w) == 0
            &&& brings_alpha(w, alpha.spec_same(S::spec_one()))
            &&& forall|x: int| #[trigger]
                uses(w, x) == (if lo <= x < hi {
                    1nat
                } else {
                    0
                })
        }),
    decreases hi - lo,
{
    reveal_with_fuel(worth, 3);
    reveal_with_fuel(uses, 3);
    reveal_with_fuel(olds, 3);
    reveal_with_fuel(brings_alpha, 3);
    if hi > lo {
        lemma_panel_way(tb, alpha, a, b, old, i, j, lo, hi - 1);
        let plain = is_plain(tb, alpha);
        let (u, w) = (panel_way(plain, lo, hi - 1), panel_way(plain, lo, hi));
        let last = if plain {
            Way::Plain(hi - 1)
        } else {
            Way::Right(hi - 1)
        };
        assert(w == Way::Plus(Box::new(u), Box::new(last)));
        assert(worth(w, alpha, row(a, i), column(b, j), old) == worth(
            u,
            alpha,
            row(a, i),
            column(b, j),
            old,
        ).spec_plus(worth(last, alpha, row(a, i), column(b, j), old)));
        assert forall|x: int| #[trigger] uses(w, x) == (if lo <= x < hi {
            1nat
        } else {
            0
        }) by {
            assert(uses(u, x) == (if lo <= x < hi - 1 {
                1nat
            } else {
                0
            }));
            assert(uses(w, x) == uses(u, x) + uses(last, x));
        }
    }
}

/// Where a panel ends.
spec fn panel_end(q: int, k: int) -> int {
    if q * KC <= k {
        q * KC
    } else {
        k
    }
}

/// The way of a product by panels.
spec fn blocked_way(plain: bool, k: int, q: int) -> Way
    decreases q,
{
    if q <= 0 {
        Way::Old
    } else {
        Way::Plus(
            Box::new(blocked_way(plain, k, q - 1)),
            Box::new(panel_way(plain, (q - 1) * KC, panel_end(q, k))),
        )
    }
}

proof fn lemma_blocked_way<S: Number>(
    tb: Transpose,
    alpha: S,
    a: Mat<S>,
    b: Mat<S>,
    k: int,
    old: S,
    i: int,
    j: int,
    q: int,
)
    requires
        0 <= k,
        0 <= q,
        (q - 1) * KC < k || q == 0,
    ensures
        ({
            let w = blocked_way(is_plain(tb, alpha), k, q);
            &&& worth(w, alpha, row(a, i), column(b, j), old) == blas::blocked_acc(
                tb,
                alpha,
                a,
                b,
                k,
                old,
                i,
                j,
                q,
            )
            &&& olds(w) == 1
            &&& brings_alpha(w, alpha.spec_same(S::spec_one()))
            &&& forall|x: int| #[trigger]
                uses(w, x) == (if 0 <= x < panel_end(q, k) {
                    1nat
                } else {
                    0
                })
        }),
    decreases q,
{
    reveal_with_fuel(worth, 3);
    reveal_with_fuel(uses, 3);
    reveal_with_fuel(olds, 3);
    reveal_with_fuel(brings_alpha, 3);
    if q > 0 {
        lemma_blocked_way(tb, alpha, a, b, k, old, i, j, q - 1);
        lemma_panel_way(tb, alpha, a, b, old, i, j, (q - 1) * KC, panel_end(q, k));
        let plain = is_plain(tb, alpha);
        let (u, w) = (blocked_way(plain, k, q - 1), blocked_way(plain, k, q));
        let last = panel_way(plain, (q - 1) * KC, panel_end(q, k));
        assert(w == Way::Plus(Box::new(u), Box::new(last)));
        assert forall|x: int| #[trigger] uses(w, x) == (if 0 <= x < panel_end(q, k) {
            1nat
        } else {
            0
        }) by {
            assert(uses(u, x) == (if 0 <= x < panel_end(q - 1, k) {
                1nat
            } else {
                0
            }));
            assert(uses(last, x) == (if (q - 1) * KC <= x < panel_end(q, k) {
                1nat
            } else {
                0
            }));
            assert(uses(w, x) == uses(u, x) + uses(last, x));
        }
    }
}

/// An entry of a product is the sum of its products in some order.
pub proof fn lemma_entry_adds_up<S: Number>(
    tb: Transpose,
    m: int,
    n: int,
    k: int,
    alpha: S,
    a: Mat<S>,
    b: Mat<S>,
    beta: S,
    c0: S,
    i: int,
    j: int,
)
    requires
        0 <= k,
    ensures
        adds_up(
            blas::gemm_entry(tb, m, n, k, alpha, a, b, beta, c0, i, j),
            k,
            alpha,
            row(a, i),
            column(b, j),
            blas::scaled(c0, beta),
        ),
{
    let old = blas::scaled(c0, beta);
    let (r, c) = (row(a, i), column(b, j));
    if k == 0 || alpha.spec_same(S::spec_zero()) {
        assert(is_way(Way::Old, k, alpha, r, c));
    } else if m * n * k < blas::SMALL_FLOPS {
        lemma_small_way(alpha, a, b, old, i, j, k);
        assert(is_way(small_way(r, k), k, alpha, r, c));
    } else {
        let q = blas::panels(k);
        lemma_blocked_way(tb, alpha, a, b, k, old, i, j, q);
        assert(is_way(blocked_way(is_plain(tb, alpha), k, q), k, alpha, r, c));
    }
}

/// Nothing outside the first products is taken in.
spec fn within(w: Way, k: int) -> bool {
    forall|p: int| p < 0 || k <= p ==> #[trigger] uses(w, p) == 0
}

proof fn lemma_within(w: Way, u: Way, v: Way, k: int)
    requires
        forall|p: int| #[trigger] uses(w, p) == uses(u, p) + uses(v, p),
        within(w, k),
    ensures
        within(u, k),
        within(v, k),
{
    assert forall|p: int| p < 0 || k <= p implies #[trigger] uses(u, p) == 0 by {
        assert(uses(w, p) == 0);
    }
    assert forall|p: int| p < 0 || k <= p implies #[trigger] uses(v, p) == 0 by {
        assert(uses(w, p) == 0);
    }
}

proof fn lemma_worth_agrees<S: Number>(
    w: Way,
    k: int,
    alpha: S,
    a: Factors<S>,
    a2: Factors<S>,
    b: Factors<S>,
    old: S,
)
    requires
        within(w, k),
        forall|p: int| 0 <= p < k ==> #[trigger] a(p) == a2(p),
    ensures
        worth(w, alpha, a, b, old) == worth(w, alpha, a2, b, old),
    decreases w,
{
    match w {
        Way::Left(p) => {
            assert(uses(w, p) == 1);
            assert(a(p) == a2(p));
        },
        Way::Right(p) => {
            assert(uses(w, p) == 1);
            assert(a(p) == a2(p));
        },
        Way::Plain(p) => {
            assert(uses(w, p) == 1);
            assert(a(p) == a2(p));
        },
        Way::Alpha(v) => {
            assert forall|p: int| p < 0 || k <= p implies #[trigger] uses(*v, p) == 0 by {
                assert(uses(w, p) == 0);
            }
            lemma_worth_agrees(*v, k, alpha, a, a2, b, old);
        },
        Way::Plus(u, v) => {
            lemma_within(w, *u, *v, k);
            lemma_worth_agrees(*u, k, alpha, a, a2, b, old);
            lemma_worth_agrees(*v, k, alpha, a, a2, b, old);
        },
        _ => {},
    }
}

/// What adds up goes by the first factors alone.
pub proof fn lemma_adds_up_agrees<S: Number>(
    r: S,
    k: int,
    alpha: S,
    a: Factors<S>,
    a2: Factors<S>,
    b: Factors<S>,
    old: S,
)
    requires
        adds_up(r, k, alpha, a, b, old),
        forall|p: int| 0 <= p < k ==> #[trigger] a(p) == a2(p),
    ensures
        adds_up(r, k, alpha, a2, b, old),
{
    let w = choose|w: Way| #[trigger]
        is_way(w, k, alpha, a, b) && r == worth(w, alpha, a, b, old);
    lemma_worth_agrees(w, k, alpha, a, a2, b, old);
    assert forall|p: int| #[trigger]
        uses(w, p) == 1 || (uses(w, p) == 0 && (p < 0 || k <= p || is_void(alpha, a2, b, p))) by {
        if 0 <= p < k {
            assert(a(p) == a2(p));
        }
    }
    assert(is_way(w, k, alpha, a2, b));
}

// ---- Exact numbers

/// The products that a way takes in, as integers.
spec fn part(w: Way, a: Factors<i32>, b: Factors<i32>) -> spec_fn(int) -> int {
    |p: int| uses(w, p) * (a(p) * b(p))
}

spec fn total(w: Way, a: Factors<i32>, b: Factors<i32>, k: int) -> int {
    exact::isum(part(w, a, b), k)
}

/// The products of the first factors, as integers.
pub open spec fn products(a: Factors<i32>, b: Factors<i32>) -> spec_fn(int) -> int {
    |p: int| a(p) * b(p)
}

proof fn lemma_total_plus(w: Way, u: Way, v: Way, a: Factors<i32>, b: Factors<i32>, k: int)
    requires
        forall|p: int| #[trigger] uses(w, p) == uses(u, p) + uses(v, p),
    ensures
        total(w, a, b, k) == total(u, a, b, k) + total(v, a, b, k),
    decreases k,
{
    if k > 0 {
        lemma_total_plus(w, u, v, a, b, k - 1);
        let (x, y, t) = (uses(u, k - 1) as int, uses(v, k - 1) as int, a(k - 1) * b(k - 1));
        assert(uses(w, k - 1) == x + y);
        assert((x + y) * t == x * t + y * t) by (nonlinear_arith);
    }
}

proof fn lemma_total_one(w: Way, p: int, a: Factors<i32>, b: Factors<i32>, k: int)
    requires
        forall|x: int| #[trigger]
            uses(w, x) == (if x == p {
                1nat
            } else {
                0
            }),
    ensures
        total(w, a, b, k) == (if 0 <= p < k {
            a(p) * b(p)
        } else {
            0
        }),
    decreases k,
{
    if k > 0 {
        lemma_total_one(w, p, a, b, k - 1);
        let t = a(k - 1) * b(k - 1);
        assert(uses(w, k - 1) == (if k - 1 == p {
            1nat
        } else {
            0
        }));
        assert(0 * t == 0 && 1 * t == t) by (nonlinear_arith);
    }
}

proof fn lemma_total_none(w: Way, a: Factors<i32>, b: Factors<i32>, k: int)
    requires
        forall|x: int| #[trigger] uses(w, x) == 0,
    ensures
        total(w, a, b, k) == 0,
    decreases k,
{
    if k > 0 {
        lemma_total_none(w, a, b, k - 1);
        let t = a(k - 1) * b(k - 1);
        assert(uses(w, k - 1) == 0);
        assert(0 * t == 0) by (nonlinear_arith);
    }
}

proof fn lemma_bare(w: Way, alpha: i32, a: Factors<i32>, b: Factors<i32>, old: i32, k: int)
    requires
        is_bare(w),
        within(w, k),
    ensures
        olds(w) == 0,
        cong(worth(w, alpha, a, b, old) as int, total(w, a, b, k)),
    decreases w,
{
    match w {
        Way::Zero => {
            lemma_total_none(w, a, b, k);
            exact::lemma_refl(0);
        },
        Way::Plain(p) => {
            lemma_total_one(w, p, a, b, k);
            assert(uses(w, p) == 1);
            exact::lemma_ops(a(p), b(p));
        },
        Way::Plus(u, v) => {
            lemma_within(w, *u, *v, k);
            lemma_bare(*u, alpha, a, b, old, k);
            lemma_bare(*v, alpha, a, b, old, k);
            lemma_total_plus(w, *u, *v, a, b, k);
            let (x, y) = (worth(*u, alpha, a, b, old), worth(*v, alpha, a, b, old));
            exact::lemma_ops(x, y);
            exact::lemma_sum(x as int, total(*u, a, b, k), y as int, total(*v, a, b, k));
            exact::lemma_trans(
                x.spec_plus(y) as int,
                x + y,
                total(*u, a, b, k) + total(*v, a, b, k),
            );
        },
        _ => {},
    }
}

proof fn lemma_worth(w: Way, alpha: i32, a: Factors<i32>, b: Factors<i32>, old: i32, k: int)
    requires
        brings_alpha(w, alpha == 1),
        within(w, k),
    ensures
        cong(worth(w, alpha, a, b, old) as int, olds(w) * old + alpha * total(w, a, b, k)),
    decreases w,
{
    let t = total(w, a, b, k);
    let al = alpha as int;
    match w {
        Way::Old => {
            lemma_total_none(w, a, b, k);
            assert(al * 0 == 0 && 1 * old == old) by (nonlinear_arith);
            exact::lemma_refl(old as int);
        },
        Way::Zero => {
            lemma_total_none(w, a, b, k);
            assert(al * 0 == 0 && 0 * old == 0) by (nonlinear_arith);
            exact::lemma_refl(0);
        },
        Way::Left(p) => {
            lemma_total_one(w, p, a, b, k);
            assert(uses(w, p) == 1);
            let (x, y) = (a(p), b(p));
            let s = alpha.spec_times(x);
            exact::lemma_ops(alpha, x);
            exact::lemma_ops(s, y);
            exact::lemma_refl(y as int);
            exact::lemma_product(s as int, al * x, y as int, y as int);
            exact::lemma_trans(s.spec_times(y) as int, s * y, (al * x) * y);
            assert((al * x) * y == al * (x * y) && 0 * old == 0) by (nonlinear_arith);
        },
        Way::Right(p) => {
            lemma_total_one(w, p, a, b, k);
            assert(uses(w, p) == 1);
            let (x, y) = (a(p), b(p));
            let s = alpha.spec_times(y);
            exact::lemma_ops(alpha, y);
            exact::lemma_ops(x, s);
            exact::lemma_refl(x as int);
            exact::lemma_product(x as int, x as int, s as int, al * y);
            exact::lemma_trans(x.spec_times(s) as int, x * s, x * (al * y));
            assert(x * (al * y) == al * (x * y) && 0 * old == 0) by (nonlinear_arith);
        },
        Way::Plain(p) => {
            lemma_total_one(w, p, a, b, k);
            assert(uses(w, p) == 1);
            exact::lemma_ops(a(p), b(p));
            assert(1 * t == t && 0 * old == 0) by (nonlinear_arith);
        },
        Way::Alpha(v) => {
            assert forall|p: int| p < 0 || k <= p implies #[trigger] uses(*v, p) == 0 by {
                assert(uses(w, p) == 0);
            }
            lemma_bare(*v, alpha, a, b, old, k);
            lemma_same_total(w, *v, a, b, k);
            let x = worth(*v, alpha, a, b, old);
            exact::lemma_ops(alpha, x);
            exact::lemma_refl(al);
            exact::lemma_product(al, al, x as int, t);
            exact::lemma_trans(alpha.spec_times(x) as int, al * x, al * t);
            assert(0 * old == 0) by (nonlinear_arith);
        },
        Way::Plus(u, v) => {
            lemma_within(w, *u, *v, k);
            lemma_worth(*u, alpha, a, b, old, k);
            lemma_worth(*v, alpha, a, b, old, k);
            lemma_total_plus(w, *u, *v, a, b, k);
            let (x, y) = (worth(*u, alpha, a, b, old), worth(*v, alpha, a, b, old));
            let (m, n) = (olds(*u) as int, olds(*v) as int);
            let (f, g) = (total(*u, a, b, k), total(*v, a, b, k));
            exact::lemma_ops(x, y);
            exact::lemma_sum(x as int, m * old + al * f, y as int, n * old + al * g);
            assert((m * old + al * f) + (n * old + al * g) == (m + n) * old + al * (f + g))
                by (nonlinear_arith);
            exact::lemma_trans(
                x.spec_plus(y) as int,
                x + y,
                (m + n) * old + al * (f + g),
            );
        },
    }
}

proof fn lemma_same_total(w: Way, v: Way, a: Factors<i32>, b: Factors<i32>, k: int)
    requires
        forall|p: int| #[trigger] uses(w, p) == uses(v, p),
    ensures
        total(w, a, b, k) == total(v, a, b, k),
    decreases k,
{
    if k > 0 {
        lemma_same_total(w, v, a, b, k - 1);
        assert(uses(w, k - 1) == uses(v, k - 1));
    }
}

proof fn lemma_total_is_all(w: Way, alpha: i32, a: Factors<i32>, b: Factors<i32>, k: int, n: int)
    requires
        is_way(w, k, alpha, a, b),
        n <= k,
    ensures
        alpha * total(w, a, b, n) == alpha * exact::isum(products(a, b), n),
    decreases n,
{
    if n > 0 {
        lemma_total_is_all(w, alpha, a, b, k, n - 1);
        let (x, y, al) = (a(n - 1) as int, b(n - 1) as int, alpha as int);
        let (f, g, u) = (
            total(w, a, b, n - 1),
            exact::isum(products(a, b), n - 1),
            uses(w, n - 1) as int,
        );
        assert(al * (f + u * (x * y)) == al * (g + x * y)) by (nonlinear_arith)
            requires
                al * f == al * g,
                u == 1 || (u == 0 && (al == 0 || x == 0 || y == 0)),
        ;
    }
}

/// On machine integers, what adds up is the true sum modulo two to the power of 32, in whatever
/// order it is taken.
pub proof fn lemma_adds_up_exactly(
    r: i32,
    k: int,
    alpha: i32,
    a: Factors<i32>,
    b: Factors<i32>,
    old: i32,
)
    requires
        adds_up(r, k, alpha, a, b, old),
    ensures
        cong(r as int, old + alpha * exact::isum(products(a, b), k)),
{
    let w = choose|w: Way| #[trigger]
        is_way(w, k, alpha, a, b) && r == worth(w, alpha, a, b, old);
    lemma_worth(w, alpha, a, b, old, k);
    lemma_total_is_all(w, alpha, a, b, k, k);
    assert(1 * old == old) by (nonlinear_arith);
}

/// On machine integers, two numbers that add up from the same products are the same.
pub proof fn lemma_ways_agree(
    r: i32,
    s: i32,
    k: int,
    alpha: i32,
    a: Factors<i32>,
    b: Factors<i32>,
    old: i32,
)
    requires
        adds_up(r, k, alpha, a, b, old),
        adds_up(s, k, alpha, a, b, old),
    ensures
        r == s,
{
    lemma_adds_up_exactly(r, k, alpha, a, b, old);
    lemma_adds_up_exactly(s, k, alpha, a, b, old);
    exact::lemma_equal(r, s, old + alpha * exact::isum(products(a, b), k));
}

} // verus!
