//! Numbers without rounding.
//!
//! A reading gives each number a true value. Where it reads sums as sums, products as products and
//! so on, what the library computes can be said in terms of real numbers: what a result is worth,
//! rather than by which operations it comes about.
use vstd::prelude::*;
use crate::number;
use crate::number::{Number, Real};
use crate::optim;
use crate::tensor;

verus! {

/// The true values of numbers, and the exponential, the sine and the cosine of true values.
#[verifier::reject_recursive_types(S)]
pub struct Reading<S> {
    pub of: spec_fn(S) -> real,
    pub exp: spec_fn(real) -> real,
    pub sin: spec_fn(real) -> real,
    pub cos: spec_fn(real) -> real,
}

/// The sum of two real numbers.
pub open spec fn plus(x: real, y: real) -> real {
    x + y
}

/// The difference of two real numbers.
pub open spec fn minus(x: real, y: real) -> real {
    x - y
}

/// Sums, differences and products are read as such.
pub open spec fn rings<S: Number>(of: spec_fn(S) -> real) -> bool {
    &&& of(S::spec_zero()) == 0real
    &&& of(S::spec_one()) == 1real
    &&& forall|a: S, b: S| #[trigger] of(a.spec_plus(b)) == of(a) + of(b)
    &&& forall|a: S, b: S| #[trigger] of(a.spec_minus(b)) == of(a) - of(b)
    &&& forall|a: S, b: S| #[trigger] of(a.spec_times(b)) == of(a) * of(b)
    &&& forall|a: S, b: S| #[trigger] a.spec_same(b) == (of(a) == of(b))
}

/// Quotients, counts and the order are read as such.
pub open spec fn divides<S: Real>(of: spec_fn(S) -> real) -> bool {
    &&& forall|n: usize| #[trigger] of(S::spec_count(n)) == (n as int) as real
    &&& forall|a: S, b: S| of(b) != 0real ==> #[trigger] of(a.spec_over(b)) == of(a) / of(b)
    &&& forall|a: S, b: S| #[trigger] a.spec_below(b) == (of(a) < of(b))
    &&& forall|a: S, b: S| #[trigger] a.spec_at_most(b) == (of(a) <= of(b))
    &&& forall|a: S, b: S| #[trigger]
        of(a.spec_larger(b)) == (if of(a) < of(b) {
            of(b)
        } else {
            of(a)
        })
    &&& forall|a: S, b: S| #[trigger]
        of(a.spec_smaller(b)) == (if of(b) < of(a) {
            of(b)
        } else {
            of(a)
        })
    &&& forall|a: S| #[trigger] of(a.spec_neg()) == -of(a)
    &&& forall|a: S| #[trigger]
        of(a.spec_abs()) == (if of(a) < 0real {
            -of(a)
        } else {
            of(a)
        })
    &&& forall|a: S, n: i32| 0 <= n ==> #[trigger] of(a.spec_powi(n)) == rpow(of(a), n as int)
}

/// Roots of numbers that are not negative are not negative and square to the number.
pub open spec fn takes_roots<S: Real>(of: spec_fn(S) -> real) -> bool {
    forall|a: S|
        of(a) >= 0real ==> of(#[trigger] a.spec_sqrt()) >= 0real && of(a.spec_sqrt()) * of(
            a.spec_sqrt(),
        ) == of(a)
}

/// The exponential turns sums into products, is positive and grows; the logarithm is its inverse.
pub open spec fn grows<S: Real>(r: Reading<S>) -> bool {
    &&& (r.exp)(0real) == 1real
    &&& forall|x: real, y: real| #[trigger] (r.exp)(plus(x, y)) == (r.exp)(x) * (r.exp)(y)
    &&& forall|x: real| #[trigger] (r.exp)(x) > 0real
    &&& forall|x: real, y: real| x < y ==> #[trigger] (r.exp)(x) < #[trigger] (r.exp)(y)
    &&& forall|a: S| #[trigger] (r.of)(a.spec_exp()) == (r.exp)((r.of)(a))
    &&& forall|a: S| (r.of)(a) > 0real ==> (r.exp)(#[trigger] (r.of)(a.spec_ln())) == (r.of)(a)
    &&& forall|a: S| #[trigger]
        (r.of)(a.spec_tanh()) * ((r.exp)((r.of)(a) + (r.of)(a)) + 1real) == (r.exp)(
            (r.of)(a) + (r.of)(a),
        ) - 1real
}

/// Sine and cosine are those of turning: turns add up and keep lengths.
pub open spec fn turns<S: Real>(r: Reading<S>) -> bool {
    &&& (r.sin)(0real) == 0real && (r.cos)(0real) == 1real
    &&& forall|x: real| (r.sin)(x) * (r.sin)(x) + #[trigger] (r.cos)(x) * (r.cos)(x) == 1real
    &&& forall|x: real, y: real| #[trigger]
        (r.cos)(minus(x, y)) == (r.cos)(x) * (r.cos)(y) + (r.sin)(x) * (r.sin)(y)
    &&& forall|x: real, y: real| #[trigger]
        (r.sin)(minus(x, y)) == (r.sin)(x) * (r.cos)(y) - (r.cos)(x) * (r.sin)(y)
    &&& forall|a: S| #[trigger] (r.of)(a.spec_sin()) == (r.sin)((r.of)(a))
    &&& forall|a: S| #[trigger] (r.of)(a.spec_cos()) == (r.cos)((r.of)(a))
}

/// Nothing is rounded: all operations are read as those of real numbers.
pub open spec fn exact<S: Real>(r: Reading<S>) -> bool {
    &&& rings(r.of)
    &&& divides(r.of)
    &&& takes_roots(r.of)
    &&& grows(r)
}

/// A real number is the root of another.
#[verifier::opaque]
pub open spec fn is_root(root: real, x: real) -> bool {
    root >= 0real && root * root == x
}

/// A number has one root, and what is computed is that.
pub proof fn lemma_root<S: Real>(of: spec_fn(S) -> real, a: S, root: real)
    requires
        takes_roots(of),
        is_root(root, of(a)),
    ensures
        of(a.spec_sqrt()) == root,
{
    reveal(is_root);
    assert(root * root >= 0real) by (nonlinear_arith);
    let s = of(a.spec_sqrt());
    assert(s == root) by (nonlinear_arith)
        requires
            s >= 0real,
            root >= 0real,
            s * s == root * root,
    ;
}

/// A quotient times its divisor.
pub proof fn lemma_quotient(x: real, y: real)
    requires
        y != 0real,
    ensures
        (x / y) * y == x,
        y * (x / y) == x,
{
    assert((x / y) * y == x) by (nonlinear_arith)
        requires
            y != 0real,
    ;
    let q = x / y;
    assert(y * q == q * y) by (nonlinear_arith);
}

/// Products with a positive number keep the order.
pub proof fn lemma_order(x: real, y: real, k: real)
    requires
        k > 0real,
    ensures
        x < y <==> k * x < k * y,
        x == y <==> k * x == k * y,
        x * k == k * x,
        y * k == k * y,
{
    assert(x * k == k * x && y * k == k * y) by (nonlinear_arith);
    assert(x < y ==> k * x < k * y) by (nonlinear_arith)
        requires
            k > 0real,
    ;
    assert(y < x ==> k * y < k * x) by (nonlinear_arith)
        requires
            k > 0real,
    ;
}

/// A product of positive numbers is positive.
pub proof fn lemma_positive(x: real, y: real)
    requires
        x > 0real,
        y > 0real,
    ensures
        x * y > 0real,
{
    assert(x * y > 0real) by (nonlinear_arith)
        requires
            x > 0real,
            y > 0real,
    ;
}

/// Numbers that are not negative and have the same square are the same.
pub proof fn lemma_same_root(a: real, b: real)
    requires
        a >= 0real,
        b >= 0real,
        a * a == b * b,
    ensures
        a == b,
{
    assert(a == b) by (nonlinear_arith)
        requires
            a >= 0real,
            b >= 0real,
            a * a == b * b,
    ;
}

/// A square is not negative, and zero only for zero.
pub proof fn lemma_square_sign(x: real)
    ensures
        x * x >= 0real,
        x * x == 0real <==> x == 0real,
{
    assert(x * x >= 0real) by (nonlinear_arith);
    assert(x != 0real ==> x * x > 0real) by (nonlinear_arith);
}

/// The exponential of a sum, and of a difference.
pub proof fn lemma_exp<S: Real>(r: Reading<S>, x: real, y: real)
    requires
        grows(r),
    ensures
        (r.exp)(x + y) == (r.exp)(x) * (r.exp)(y),
        (r.exp)(x - y) * (r.exp)(y) == (r.exp)(x),
        (r.exp)(x) * (r.exp)(-x) == 1real,
{
    assert((r.exp)(plus(x, y)) == (r.exp)(x) * (r.exp)(y));
    assert((r.exp)(plus(x - y, y)) == (r.exp)(x - y) * (r.exp)(y));
    assert((r.exp)(plus(x, -x)) == (r.exp)(x) * (r.exp)(-x));
    assert(plus(x - y, y) == x);
    assert(plus(x, -x) == 0real);
}

/// The product of two real numbers.
#[verifier::opaque]
pub open spec fn product(x: real, y: real) -> real {
    x * y
}

/// Products in either order.
pub proof fn lemma_swap(x: real, y: real)
    ensures
        product(x, y) == product(y, x),
{
    reveal(product);
    assert(x * y == y * x) by (nonlinear_arith);
}

/// Products of three.
pub proof fn lemma_regroup(x: real, y: real, z: real)
    ensures
        product(product(x, y), z) == product(x, product(y, z)),
{
    reveal(product);
    assert((x * y) * z == x * (y * z)) by (nonlinear_arith);
}

/// Products with a sum and with a difference.
pub proof fn lemma_spread(x: real, y: real, z: real)
    ensures
        product(x, y + z) == product(x, y) + product(x, z),
        product(x, y - z) == product(x, y) - product(x, z),
        product(y + z, x) == product(y, x) + product(z, x),
        product(y - z, x) == product(y, x) - product(z, x),
{
    reveal(product);
    assert(x * (y + z) == x * y + x * z) by (nonlinear_arith);
    assert(x * (y - z) == x * y - x * z) by (nonlinear_arith);
    assert((y + z) * x == y * x + z * x) by (nonlinear_arith);
    assert((y - z) * x == y * x - z * x) by (nonlinear_arith);
}

/// Products with one and with zero.
pub proof fn lemma_neutral(x: real)
    ensures
        product(1real, x) == x,
        product(x, 1real) == x,
        product(0real, x) == 0real,
        product(x, 0real) == 0real,
{
    reveal(product);
    assert(1real * x == x && x * 1real == x && 0real * x == 0real && x * 0real == 0real)
        by (nonlinear_arith);
}

/// Numbers that are not negative and have the same product with themselves are the same.
pub proof fn lemma_same_factor(a: real, b: real)
    requires
        a >= 0real,
        b >= 0real,
        product(a, a) == product(b, b),
    ensures
        a == b,
{
    reveal(product);
    lemma_same_root(a, b);
}

/// A product of numbers that are not negative is not negative.
pub proof fn lemma_not_negative(a: real, b: real)
    requires
        a >= 0real,
        b >= 0real,
    ensures
        product(a, b) >= 0real,
{
    reveal(product);
    assert(a * b >= 0real) by (nonlinear_arith)
        requires
            a >= 0real,
            b >= 0real,
    ;
}

/// What a root multiplied by itself is.
pub proof fn lemma_root_product(a: real, x: real)
    requires
        is_root(a, x),
    ensures
        a >= 0real,
        product(a, a) == x,
{
    reveal(is_root);
    reveal(product);
}

/// A part of a number that is not negative is no more than the number.
pub proof fn lemma_part(k: real, x: real)
    requires
        0real <= k <= 1real,
        x >= 0real,
    ensures
        product(k, x) <= x,
{
    lemma_not_negative(1real - k, x);
    lemma_spread(x, 1real, k);
    lemma_neutral(x);
}

/// Numbers without rounding, as `exact` says, where what it says is used one fact at a time.
#[verifier::opaque]
pub open spec fn faithful<S: Real>(r: Reading<S>) -> bool {
    exact(r)
}

/// What a sum, a difference and a product are read as.
pub proof fn lemma_reads<S: Real>(r: Reading<S>, a: S, b: S)
    requires
        faithful(r),
    ensures
        (r.of)(S::spec_one()) == 1real,
        (r.of)(a.spec_plus(b)) == (r.of)(a) + (r.of)(b),
        (r.of)(a.spec_minus(b)) == (r.of)(a) - (r.of)(b),
        (r.of)(a.spec_times(b)) == product((r.of)(a), (r.of)(b)),
{
    reveal(faithful);
    reveal(product);
}

/// What a quotient is read as.
pub proof fn lemma_reads_over<S: Real>(r: Reading<S>, a: S, b: S)
    requires
        faithful(r),
        (r.of)(b) > 0real,
    ensures
        product((r.of)(a.spec_over(b)), (r.of)(b)) == (r.of)(a),
{
    reveal(faithful);
    reveal(product);
    lemma_quotient((r.of)(a), (r.of)(b));
}

/// What a root is read as.
pub proof fn lemma_reads_root<S: Real>(r: Reading<S>, a: S, root: real)
    requires
        faithful(r),
        is_root(root, (r.of)(a)),
    ensures
        (r.of)(a.spec_sqrt()) == root,
{
    reveal(faithful);
    lemma_root(r.of, a, root);
}

/// A factor other than zero can be left out.
pub proof fn lemma_cancel(x: real, y: real, s: real)
    requires
        s > 0real,
        product(x, s) == product(y, s),
    ensures
        x == y,
{
    if x < y {
        lemma_strict(s, y - x);
    } else if y < x {
        lemma_strict(s, x - y);
    }
    lemma_spread(s, y, x);
    lemma_spread(s, x, y);
}

/// A product of numbers above zero is above zero.
pub proof fn lemma_strict(a: real, b: real)
    requires
        a > 0real,
        b > 0real,
    ensures
        product(a, b) > 0real,
        product(b, a) > 0real,
{
    reveal(product);
    lemma_positive(a, b);
    assert(a * b == b * a) by (nonlinear_arith);
}

/// What a negated number, a distance from zero and the greater of two are read as.
pub proof fn lemma_reads_signs<S: Real>(r: Reading<S>, a: S, b: S)
    requires
        faithful(r),
    ensures
        (r.of)(S::spec_zero()) == 0real,
        (r.of)(a.spec_neg()) == -(r.of)(a),
        (r.of)(a.spec_abs()) == (if (r.of)(a) < 0real {
            -(r.of)(a)
        } else {
            (r.of)(a)
        }),
        (r.of)(a.spec_larger(b)) == (if (r.of)(a) < (r.of)(b) {
            (r.of)(b)
        } else {
            (r.of)(a)
        }),
        a.spec_below(b) == ((r.of)(a) < (r.of)(b)),
        a.spec_at_most(b) == ((r.of)(a) <= (r.of)(b)),
{
    reveal(faithful);
}

/// What an exponential and a logarithm are read as.
pub proof fn lemma_reads_exp<S: Real>(r: Reading<S>, a: S)
    requires
        faithful(r),
    ensures
        (r.of)(a.spec_exp()) == (r.exp)((r.of)(a)),
        (r.of)(a) > 0real ==> (r.exp)((r.of)(a.spec_ln())) == (r.of)(a),
{
    reveal(faithful);
}

/// Exponentials of sums, their sign and their order.
pub proof fn lemma_powers<S: Real>(r: Reading<S>, x: real, y: real)
    requires
        faithful(r),
    ensures
        (r.exp)(0real) == 1real,
        (r.exp)(x) > 0real,
        (r.exp)(x + y) == product((r.exp)(x), (r.exp)(y)),
        product((r.exp)(x), (r.exp)(-x)) == 1real,
        x < y <==> (r.exp)(x) < (r.exp)(y),
        x == y <==> (r.exp)(x) == (r.exp)(y),
{
    reveal(faithful);
    reveal(product);
    lemma_exp(r, x, y);
}

/// What a number counted and a fraction of counted numbers are read as.
pub proof fn lemma_reads_count<S: Real>(r: Reading<S>, n: usize, d: usize)
    requires
        faithful(r),
    ensures
        (r.of)(S::spec_count(n)) == (n as int) as real,
        d > 0 ==> product((r.of)(optim::ratio::<S>(n, d)), (d as int) as real) == (n as int) as real,
{
    reveal(faithful);
    reveal(product);
    if d > 0 {
        lemma_ratio::<S>(r.of, n, d);
        lemma_quotient((n as int) as real, (d as int) as real);
    }
}

/// What the root of a number that is not negative is read as.
pub proof fn lemma_reads_own_root<S: Real>(r: Reading<S>, a: S)
    requires
        faithful(r),
        (r.of)(a) >= 0real,
    ensures
        (r.of)(a.spec_sqrt()) >= 0real,
        product((r.of)(a.spec_sqrt()), (r.of)(a.spec_sqrt())) == (r.of)(a),
{
    reveal(faithful);
    reveal(product);
}

/// What a sum of numbers is read as.
pub proof fn lemma_reads_sum<S: Real>(r: Reading<S>, f: spec_fn(int) -> S, n: int)
    requires
        faithful(r),
    ensures
        (r.of)(number::sum_n(f, n)) == rsum(read(r.of, f), n),
{
    reveal(faithful);
    lemma_sum(r.of, f, n);
}

/// A sum of products with one factor in common.
pub proof fn lemma_common_factor(
    f: spec_fn(int) -> real,
    g: spec_fn(int) -> real,
    k: real,
    n: int,
)
    requires
        forall|i: int| 0 <= i < n ==> #[trigger] g(i) == product(k, f(i)),
    ensures
        rsum(g, n) == product(k, rsum(f, n)),
    decreases n,
{
    lemma_neutral(k);
    if n > 0 {
        lemma_common_factor(f, g, k, n - 1);
        lemma_spread(k, rsum(f, n - 1), f(n - 1));
        assert(g(n - 1) == product(k, f(n - 1)));
    }
}

/// A sum of one number, over and over.
pub proof fn lemma_repeated(f: spec_fn(int) -> real, x: real, n: int)
    requires
        0 <= n,
        forall|j: int| 0 <= j < n ==> #[trigger] f(j) == x,
    ensures
        rsum(f, n) == product(n as real, x),
{
    lemma_rsum_same(f, x, n);
    reveal(product);
}

/// A product of a number with itself is not negative.
pub proof fn lemma_own_product(x: real)
    ensures
        product(x, x) >= 0real,
{
    lemma_square_sign(x);
    reveal(product);
}

/// Turning, as `turns` says, where what it says is used one fact at a time.
#[verifier::opaque]
pub open spec fn circles<S: Real>(r: Reading<S>) -> bool {
    turns(r)
}

/// The sine and the cosine of an angle, and of the difference of two.
pub proof fn lemma_reads_angle<S: Real>(r: Reading<S>, a: S, x: real, y: real)
    requires
        circles(r),
    ensures
        (r.of)(a.spec_sin()) == (r.sin)((r.of)(a)),
        (r.of)(a.spec_cos()) == (r.cos)((r.of)(a)),
        (r.sin)(0real) == 0real,
        (r.cos)(0real) == 1real,
        product((r.sin)(x), (r.sin)(x)) + product((r.cos)(x), (r.cos)(x)) == 1real,
        (r.cos)(x - y) == product((r.cos)(x), (r.cos)(y)) + product((r.sin)(x), (r.sin)(y)),
        (r.sin)(x - y) == product((r.sin)(x), (r.cos)(y)) - product((r.cos)(x), (r.sin)(y)),
{
    reveal(circles);
    reveal(product);
    assert(minus(x, y) == x - y);
}

/// The first `n` real numbers, summed.
pub open spec fn rsum(f: spec_fn(int) -> real, n: int) -> real
    decreases n,
{
    if n <= 0 {
        0real
    } else {
        rsum(f, n - 1) + f(n - 1)
    }
}

/// A real number to the power of a whole one.
pub open spec fn rpow(x: real, n: int) -> real
    decreases n,
{
    if n <= 0 {
        1real
    } else {
        rpow(x, n - 1) * x
    }
}

/// The true values of what a function gives.
pub open spec fn read<S>(of: spec_fn(S) -> real, f: spec_fn(int) -> S) -> spec_fn(int) -> real {
    |i: int| of(f(i))
}

/// The true values of a sequence.
pub open spec fn reals<S>(of: spec_fn(S) -> real, s: Seq<S>) -> spec_fn(int) -> real {
    |i: int| of(s[i])
}

/// A sum is worth the sum of what its parts are worth.
pub proof fn lemma_sum<S: Number>(of: spec_fn(S) -> real, f: spec_fn(int) -> S, n: int)
    requires
        rings(of),
    ensures
        of(number::sum_n(f, n)) == rsum(read(of, f), n),
    decreases n,
{
    if n > 0 {
        lemma_sum(of, f, n - 1);
    }
}

/// A sum is worth what another is, where the parts are.
pub proof fn lemma_sum_as<S: Number>(
    of: spec_fn(S) -> real,
    f: spec_fn(int) -> S,
    g: spec_fn(int) -> real,
    n: int,
)
    requires
        rings(of),
        forall|i: int| 0 <= i < n ==> of(#[trigger] f(i)) == g(i),
    ensures
        of(number::sum_n(f, n)) == rsum(g, n),
    decreases n,
{
    if n > 0 {
        lemma_sum_as(of, f, g, n - 1);
        assert(of(f(n - 1)) == g(n - 1));
    }
}

/// The sum of a sequence is worth the sum of what its elements are worth.
pub proof fn lemma_total<S: Real>(of: spec_fn(S) -> real, s: Seq<S>)
    requires
        rings(of),
    ensures
        of(tensor::sum_of(s)) == rsum(reals(of, s), s.len() as int),
{
    lemma_sum_as(of, tensor::elements(s), reals(of, s), s.len() as int);
}

pub proof fn lemma_rsum_agree(f: spec_fn(int) -> real, g: spec_fn(int) -> real, n: int)
    requires
        forall|i: int| 0 <= i < n ==> #[trigger] f(i) == g(i),
    ensures
        rsum(f, n) == rsum(g, n),
    decreases n,
{
    if n > 0 {
        lemma_rsum_agree(f, g, n - 1);
        assert(f(n - 1) == g(n - 1));
    }
}

/// Sums of multiples.
pub proof fn lemma_rsum_times(f: spec_fn(int) -> real, g: spec_fn(int) -> real, k: real, n: int)
    requires
        forall|i: int| 0 <= i < n ==> #[trigger] g(i) == k * f(i),
    ensures
        rsum(g, n) == k * rsum(f, n),
    decreases n,
{
    if n > 0 {
        lemma_rsum_times(f, g, k, n - 1);
        let (x, y) = (rsum(f, n - 1), f(n - 1));
        assert(g(n - 1) == k * f(n - 1));
        assert(k * x + k * y == k * (x + y)) by (nonlinear_arith);
    } else {
        assert(k * 0real == 0real) by (nonlinear_arith);
    }
}

/// Sums of sums.
pub proof fn lemma_rsum_plus(
    f: spec_fn(int) -> real,
    g: spec_fn(int) -> real,
    h: spec_fn(int) -> real,
    n: int,
)
    requires
        forall|i: int| 0 <= i < n ==> #[trigger] h(i) == f(i) + g(i),
    ensures
        rsum(h, n) == rsum(f, n) + rsum(g, n),
    decreases n,
{
    if n > 0 {
        lemma_rsum_plus(f, g, h, n - 1);
        assert(h(n - 1) == f(n - 1) + g(n - 1));
    }
}

/// A sum of numbers that are not negative is not negative, and no less than each of them.
pub proof fn lemma_rsum_bounds(f: spec_fn(int) -> real, i: int, n: int)
    requires
        forall|j: int| 0 <= j < n ==> #[trigger] f(j) >= 0real,
    ensures
        rsum(f, n) >= 0real,
        0 <= i < n ==> rsum(f, n) >= f(i),
    decreases n,
{
    if n > 0 {
        lemma_rsum_bounds(f, i, n - 1);
        assert(f(n - 1) >= 0real);
    }
}

/// A sum whose parts are all zero, but for one.
pub proof fn lemma_rsum_one(f: spec_fn(int) -> real, i: int, n: int)
    requires
        forall|j: int| 0 <= j < n && j != i ==> #[trigger] f(j) == 0real,
    ensures
        rsum(f, n) == (if 0 <= i < n {
            f(i)
        } else {
            0real
        }),
    decreases n,
{
    if n > 0 {
        lemma_rsum_one(f, i, n - 1);
        if n - 1 != i {
            assert(f(n - 1) == 0real);
        }
    }
}

/// A sum of equal numbers.
pub proof fn lemma_rsum_same(f: spec_fn(int) -> real, x: real, n: int)
    requires
        0 <= n,
        forall|j: int| 0 <= j < n ==> #[trigger] f(j) == x,
    ensures
        rsum(f, n) == (n as real) * x,
    decreases n,
{
    if n > 0 {
        lemma_rsum_same(f, x, n - 1);
        assert(f(n - 1) == x);
        let (a, b) = (n as real, (n - 1) as real);
        assert(a == b + 1real);
        assert(b * x + x == a * x) by (nonlinear_arith)
            requires
                a == b + 1real,
        ;
    } else {
        assert(0real * x == 0real) by (nonlinear_arith);
    }
}

/// Sums of sums may be taken in either order.
pub proof fn lemma_rsum_exchange(f: spec_fn(int, int) -> real, m: int, n: int)
    ensures
        rsum(|i: int| rsum(|j: int| f(i, j), n), m) == rsum(|j: int| rsum(|i: int| f(i, j), m), n),
    decreases m,
{
    let rows = |i: int| rsum(|j: int| f(i, j), n);
    let cols = |j: int| rsum(|i: int| f(i, j), m);
    if m > 0 {
        lemma_rsum_exchange(f, m - 1, n);
        let fewer = |j: int| rsum(|i: int| f(i, j), m - 1);
        let last = |j: int| f(m - 1, j);
        lemma_rsum_plus(fewer, last, cols, n);
        assert(rows(m - 1) == rsum(last, n));
        lemma_rsum_agree(rows, |i: int| rsum(|j: int| f(i, j), n), m - 1);
    } else {
        lemma_rsum_same_zero(cols, n);
    }
}

proof fn lemma_rsum_same_zero(f: spec_fn(int) -> real, n: int)
    requires
        forall|j: int| 0 <= j < n ==> #[trigger] f(j) == 0real,
    ensures
        rsum(f, n) == 0real,
    decreases n,
{
    if n > 0 {
        lemma_rsum_same_zero(f, n - 1);
        assert(f(n - 1) == 0real);
    }
}

/// What a square is worth.
pub proof fn lemma_square<S: Real>(of: spec_fn(S) -> real, a: S)
    requires
        divides(of),
    ensures
        of(a.spec_powi(2)) == of(a) * of(a),
{
    let x = of(a);
    reveal_with_fuel(rpow, 3);
    assert(1real * x * x == x * x) by (nonlinear_arith);
}

/// What came last counts in full, and what came before it less and less: numbers by which each is
/// multiplied by another as often as others came after it, summed.
pub open spec fn fading(beta: real, f: spec_fn(int) -> real, n: int) -> real {
    rsum(|k: int| rpow(beta, n - 1 - k) * f(k), n)
}

/// One more number fades what there was once.
pub proof fn lemma_fading(beta: real, f: spec_fn(int) -> real, n: int)
    requires
        0 <= n,
    ensures
        fading(beta, f, n + 1) == beta * fading(beta, f, n) + f(n),
        fading(beta, f, 0) == 0real,
{
    let g = |k: int| rpow(beta, n - 1 - k) * f(k);
    let h = |k: int| rpow(beta, n - k) * f(k);
    let h2 = |k: int| rpow(beta, n + 1 - 1 - k) * f(k);
    assert forall|k: int| 0 <= k < n implies #[trigger] h(k) == beta * g(k) by {
        let (p, q, x) = (rpow(beta, n - k), rpow(beta, n - k - 1), f(k));
        assert(p == q * beta);
        assert(p * x == beta * (q * x)) by (nonlinear_arith)
            requires
                p == q * beta,
        ;
    }
    lemma_rsum_times(g, h, beta, n);
    lemma_rsum_agree(h, h2, n + 1);
    let x = f(n);
    assert(1real * x == x) by (nonlinear_arith);
    assert(h(n) == x);
}

/// Equal numbers fade to a geometric sum.
pub proof fn lemma_fading_same(beta: real, f: spec_fn(int) -> real, x: real, n: int)
    requires
        0 <= n,
        forall|k: int| 0 <= k < n ==> #[trigger] f(k) == x,
    ensures
        (1real - beta) * fading(beta, f, n) == (1real - rpow(beta, n)) * x,
    decreases n,
{
    if n > 0 {
        lemma_fading_same(beta, f, x, n - 1);
        lemma_fading(beta, f, n - 1);
        assert(f(n - 1) == x);
        let (a, b, p, q) = (
            fading(beta, f, n - 1),
            fading(beta, f, n),
            rpow(beta, n - 1),
            rpow(beta, n),
        );
        assert((1real - beta) * b == (1real - q) * x) by (nonlinear_arith)
            requires
                (1real - beta) * a == (1real - p) * x,
                b == beta * a + x,
                q == p * beta,
        ;
    } else {
        lemma_fading(beta, f, 0);
        assert((1real - beta) * 0real == 0real && 0real * x == 0real) by (nonlinear_arith);
    }
}

/// What a fraction is worth.
pub proof fn lemma_ratio<S: Real>(of: spec_fn(S) -> real, a: usize, b: usize)
    requires
        divides(of),
        b > 0,
    ensures
        of(optim::ratio::<S>(a, b)) == ((a as int) as real) / ((b as int) as real),
{
}

} // verus!
