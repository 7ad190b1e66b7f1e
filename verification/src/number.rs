//! The numbers that the kernels compute with.
//!
//! A kernel is written once, over any number type. Its contract says which operations it
//! applies to which elements and in which order, so it also holds for numbers whose
//! addition is not associative.
use vstd::prelude::*;

verus! {

/// A number with sums, differences, products and a test for equality.
pub trait Number: Copy {
    spec fn spec_zero() -> Self;

    spec fn spec_one() -> Self;

    spec fn spec_plus(self, other: Self) -> Self;

    spec fn spec_minus(self, other: Self) -> Self;

    spec fn spec_times(self, other: Self) -> Self;

    /// The number type's own equality, which need not be identity.
    spec fn spec_same(self, other: Self) -> bool;

    fn zero() -> (r: Self)
        ensures
            r == Self::spec_zero(),
    ;

    fn one() -> (r: Self)
        ensures
            r == Self::spec_one(),
    ;

    fn plus(self, other: Self) -> (r: Self)
        ensures
            r == self.spec_plus(other),
    ;

    fn minus(self, other: Self) -> (r: Self)
        ensures
            r == self.spec_minus(other),
    ;

    fn times(self, other: Self) -> (r: Self)
        ensures
            r == self.spec_times(other),
    ;

    fn same(self, other: Self) -> (r: bool)
        ensures
            r == self.spec_same(other),
    ;
}

/// Two's complement arithmetic: sums, differences and products wrap around.
impl Number for i32 {
    open spec fn spec_zero() -> i32 {
        0
    }

    open spec fn spec_one() -> i32 {
        1
    }

    open spec fn spec_plus(self, other: i32) -> i32 {
        vstd::wrapping::i32_specs::wrapping_add(self, other)
    }

    open spec fn spec_minus(self, other: i32) -> i32 {
        vstd::wrapping::i32_specs::wrapping_sub(self, other)
    }

    open spec fn spec_times(self, other: i32) -> i32 {
        vstd::wrapping::i32_specs::wrapping_mul(self, other)
    }

    open spec fn spec_same(self, other: i32) -> bool {
        self == other
    }

    fn zero() -> (r: i32) {
        0
    }

    fn one() -> (r: i32) {
        1
    }

    fn plus(self, other: i32) -> (r: i32) {
        self.wrapping_add(other)
    }

    fn minus(self, other: i32) -> (r: i32) {
        self.wrapping_sub(other)
    }

    fn times(self, other: i32) -> (r: i32) {
        self.wrapping_mul(other)
    }

    fn same(self, other: i32) -> (r: bool) {
        self == other
    }
}

/// `n` copies of a value.
pub fn filled<T: Copy>(v: T, n: usize) -> (r: Vec<T>)
    ensures
        r@ == Seq::new(n as nat, |i: int| v),
{
    let mut r: Vec<T> = Vec::with_capacity(n);
    for i in 0..n
        invariant
            r@ =~= Seq::new(i as nat, |i: int| v),
    {
        r.push(v);
    }
    r
}

/// A number with quotients, an order, and the functions that activations, optimizers and
/// position tables need.
pub trait Real: Number {
    /// The number that stands for a count.
    spec fn spec_count(n: usize) -> Self;

    spec fn spec_over(self, other: Self) -> Self;

    spec fn spec_larger(self, other: Self) -> Self;

    spec fn spec_smaller(self, other: Self) -> Self;

    spec fn spec_powf(self, other: Self) -> Self;

    spec fn spec_powi(self, n: i32) -> Self;

    spec fn spec_below(self, other: Self) -> bool;

    spec fn spec_at_most(self, other: Self) -> bool;

    /// A number that no other exceeds.
    spec fn spec_highest() -> Self;

    /// A number that exceeds no other.
    spec fn spec_lowest() -> Self;

    /// The whole part, as a machine integer.
    spec fn spec_whole(self) -> i64;

    spec fn spec_neg(self) -> Self;

    spec fn spec_abs(self) -> Self;

    spec fn spec_exp(self) -> Self;

    spec fn spec_ln(self) -> Self;

    spec fn spec_tanh(self) -> Self;

    spec fn spec_sqrt(self) -> Self;

    spec fn spec_sin(self) -> Self;

    spec fn spec_cos(self) -> Self;

    spec fn spec_round(self) -> Self;

    fn count(n: usize) -> (r: Self)
        ensures
            r == Self::spec_count(n),
    ;

    fn over(self, other: Self) -> (r: Self)
        ensures
            r == self.spec_over(other),
    ;

    fn larger(self, other: Self) -> (r: Self)
        ensures
            r == self.spec_larger(other),
    ;

    fn smaller(self, other: Self) -> (r: Self)
        ensures
            r == self.spec_smaller(other),
    ;

    fn powf(self, other: Self) -> (r: Self)
        ensures
            r == self.spec_powf(other),
    ;

    fn powi(self, n: i32) -> (r: Self)
        ensures
            r == self.spec_powi(n),
    ;

    fn below(self, other: Self) -> (r: bool)
        ensures
            r == self.spec_below(other),
    ;

    fn at_most(self, other: Self) -> (r: bool)
        ensures
            r == self.spec_at_most(other),
    ;

    fn highest() -> (r: Self)
        ensures
            r == Self::spec_highest(),
    ;

    fn lowest() -> (r: Self)
        ensures
            r == Self::spec_lowest(),
    ;

    fn whole(self) -> (r: i64)
        ensures
            r == self.spec_whole(),
    ;

    fn neg(self) -> (r: Self)
        ensures
            r == self.spec_neg(),
    ;

    fn abs(self) -> (r: Self)
        ensures
            r == self.spec_abs(),
    ;

    fn exp(self) -> (r: Self)
        ensures
            r == self.spec_exp(),
    ;

    fn ln(self) -> (r: Self)
        ensures
            r == self.spec_ln(),
    ;

    fn tanh(self) -> (r: Self)
        ensures
            r == self.spec_tanh(),
    ;

    fn sqrt(self) -> (r: Self)
        ensures
            r == self.spec_sqrt(),
    ;

    fn sin(self) -> (r: Self)
        ensures
            r == self.spec_sin(),
    ;

    fn cos(self) -> (r: Self)
        ensures
            r == self.spec_cos(),
    ;

    fn round(self) -> (r: Self)
        ensures
            r == self.spec_round(),
    ;
}

/// The first `n` values, summed from zero in order.
pub open spec fn sum_n<S: Number>(f: spec_fn(int) -> S, n: int) -> S
    decreases n,
{
    if n <= 0 {
        S::spec_zero()
    } else {
        sum_n(f, n - 1).spec_plus(f(n - 1))
    }
}

/// The values from `t` up to `n`, summed from zero, the last one first.
pub open spec fn sum_back<S: Number>(f: spec_fn(int) -> S, t: int, n: int) -> S
    decreases n - t,
{
    if t >= n {
        S::spec_zero()
    } else {
        sum_back(f, t + 1, n).spec_plus(f(t))
    }
}

/// A sum depends only on the values that it covers.
pub proof fn lemma_sum_agree<S: Number>(f: spec_fn(int) -> S, g: spec_fn(int) -> S, n: int)
    requires
        forall|i: int| 0 <= i < n ==> #[trigger] f(i) == g(i),
    ensures
        sum_n(f, n) == sum_n(g, n),
    decreases n,
{
    if n > 0 {
        lemma_sum_agree(f, g, n - 1);
        assert(f(n - 1) == g(n - 1));
    }
}

/// The number, or the bound that it lies beyond.
pub open spec fn bounded<S: Real>(x: S, low: S, high: S) -> S {
    if x.spec_below(low) {
        low
    } else if high.spec_below(x) {
        high
    } else {
        x
    }
}

/// The number, or the bound that it lies beyond.
pub fn bound<S: Real>(x: S, low: S, high: S) -> (r: S)
    ensures
        r == bounded(x, low, high),
{
    if x.below(low) {
        low
    } else if high.below(x) {
        high
    } else {
        x
    }
}

} // verus!
