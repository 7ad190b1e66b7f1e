//! Fixed-point numbers with sixteen fractional bits.
use vstd::prelude::*;
use vstd::wrapping::i64_specs;
use crate::blas;
use crate::number::{Number, Real};

verus! {

/// A multiple of two to the power of -16. Results that do not fit wrap around.
#[derive(Debug, Clone, Copy, PartialEq, Eq, Structural)]
pub struct Fixed {
    /// How many times two to the power of -16.
    pub raw: i64,
}

/// The number one.
pub const UNIT: i64 = 65536;

/// How often the starting value of an exponential is squared.
pub const SQUARINGS: u32 = 8;

/// How many steps a logarithm takes.
pub const LOG_STEPS: u32 = 12;

pub open spec fn abs_of(x: int) -> int {
    if x < 0 {
        -x
    } else {
        x
    }
}

/// The product, rounded down.
pub open spec fn fixed_mul(a: i64, b: i64) -> i64 {
    (((a * b) as i128) >> 16u32) as i64
}

/// The quotient, rounded towards zero; zero where the divisor is zero.
pub open spec fn fixed_div(a: i64, b: i64) -> i64 {
    if b == 0 {
        0
    } else {
        let q = ((abs_of(a as int) * UNIT) / abs_of(b as int)) as u64 as i64;
        if (a < 0) != (b < 0) {
            i64_specs::wrapping_sub(0, q)
        } else {
            q
        }
    }
}

/// The largest whole number whose square is at most `n`.
pub open spec fn is_root(n: int, r: int) -> bool {
    0 <= r && r * r <= n < (r + 1) * (r + 1)
}

pub open spec fn root(n: int) -> int {
    choose|r: int| is_root(n, r)
}

/// Squares `n` times.
pub open spec fn squared(x: i64, n: nat) -> i64
    decreases n,
{
    if n == 0 {
        x
    } else {
        let y = squared(x, (n - 1) as nat);
        fixed_mul(y, y)
    }
}

/// `(1 + x / 2^8)` to the power of `2^8`.
pub open spec fn fixed_exp(x: i64) -> i64 {
    squared(i64_specs::wrapping_add(UNIT, x >> 8u32), SQUARINGS as nat)
}

/// Newton's iteration for the logarithm, from zero.
pub open spec fn fixed_ln(x: i64, n: nat) -> i64
    decreases n,
{
    if n == 0 {
        0
    } else {
        let y = fixed_ln(x, (n - 1) as nat);
        let t = fixed_mul(x, fixed_exp(i64_specs::wrapping_sub(0, y)));
        i64_specs::wrapping_sub(i64_specs::wrapping_add(y, t), UNIT)
    }
}

/// Cosine and sine, by squaring `1 + i x / 2^8` as a complex number.
pub open spec fn fixed_turn(x: i64, n: nat) -> (i64, i64)
    decreases n,
{
    if n == 0 {
        (UNIT, x >> 8u32)
    } else {
        let (c, s) = fixed_turn(x, (n - 1) as nat);
        let cs = fixed_mul(c, s);
        (
            i64_specs::wrapping_sub(fixed_mul(c, c), fixed_mul(s, s)),
            i64_specs::wrapping_add(cs, cs),
        )
    }
}

pub open spec fn fixed_powi(x: i64, n: nat) -> i64
    decreases n,
{
    if n == 0 {
        UNIT
    } else {
        fixed_mul(fixed_powi(x, (n - 1) as nat), x)
    }
}

fn mul_raw(a: i64, b: i64) -> (r: i64)
    ensures
        r == fixed_mul(a, b),
{
    assert(-0x4000_0000_0000_0000_0000_0000_0000_0000 <= a * b
        <= 0x4000_0000_0000_0000_0000_0000_0000_0000) by (nonlinear_arith)
        requires
            -0x8000_0000_0000_0000 <= a <= 0x7fff_ffff_ffff_ffff,
            -0x8000_0000_0000_0000 <= b <= 0x7fff_ffff_ffff_ffff,
    ;
    ((a as i128 * b as i128) >> 16u32) as i64
}

fn magnitude(a: i64) -> (r: u64)
    ensures
        r == abs_of(a as int),
{
    if a < 0 {
        (-(a as i128)) as u64
    } else {
        a as u64
    }
}

fn div_raw(a: i64, b: i64) -> (r: i64)
    ensures
        r == fixed_div(a, b),
{
    if b == 0 {
        return 0;
    }
    let q: i64 = ((magnitude(a) as u128 * 65536) / magnitude(b) as u128) as u64 as i64;
    if (a < 0) != (b < 0) {
        0i64.wrapping_sub(q)
    } else {
        q
    }
}

proof fn lemma_root_unique(n: int, r: int)
    requires
        is_root(n, r),
    ensures
        root(n) == r,
{
    let q = root(n);
    assert(is_root(n, q));
    if q < r {
        assert((q + 1) * (q + 1) <= r * r) by (nonlinear_arith)
            requires
                0 <= q + 1 <= r,
        ;
    } else if r < q {
        assert((r + 1) * (r + 1) <= q * q) by (nonlinear_arith)
            requires
                0 <= r + 1 <= q,
        ;
    }
}

fn root_raw(n: u128) -> (r: u64)
    requires
        n < 0x1_0000_0000_0000_0000_0000,
    ensures
        r == root(n as int),
        r < 0x100_0000_0000,
{
    let mut lo: u128 = 0;
    let mut hi: u128 = 0x100_0000_0000;
    while hi - lo > 1
        invariant
            lo < hi <= 0x100_0000_0000,
            lo * lo <= n < hi * hi,
        decreases hi - lo,
    {
        let mid: u128 = lo + (hi - lo) / 2;
        assert(mid * mid <= 0x100_0000_0000 * 0x100_0000_0000) by (nonlinear_arith)
            requires
                0 <= mid <= 0x100_0000_0000,
        ;
        if mid * mid <= n {
            lo = mid;
        } else {
            hi = mid;
        }
    }
    proof {
        assert(hi == lo + 1);
        lemma_root_unique(n as int, lo as int);
    }
    lo as u64
}

fn exp_raw(x: i64) -> (r: i64)
    ensures
        r == fixed_exp(x),
{
    let start: i64 = UNIT.wrapping_add(x >> 8u32);
    let mut y: i64 = start;
    for i in 0..SQUARINGS
        invariant
            y == squared(start, i as nat),
    {
        y = mul_raw(y, y);
    }
    y
}

fn ln_raw(x: i64) -> (r: i64)
    ensures
        r == fixed_ln(x, LOG_STEPS as nat),
{
    let mut y: i64 = 0;
    for i in 0..LOG_STEPS
        invariant
            y == fixed_ln(x, i as nat),
    {
        let t: i64 = mul_raw(x, exp_raw(0i64.wrapping_sub(y)));
        y = y.wrapping_add(t).wrapping_sub(UNIT);
    }
    y
}

fn turn_raw(x: i64) -> (r: (i64, i64))
    ensures
        r == fixed_turn(x, SQUARINGS as nat),
{
    let mut c: i64 = UNIT;
    let mut s: i64 = x >> 8u32;
    for i in 0..SQUARINGS
        invariant
            (c, s) == fixed_turn(x, i as nat),
    {
        let cs: i64 = mul_raw(c, s);
        c = mul_raw(c, c).wrapping_sub(mul_raw(s, s));
        s = cs.wrapping_add(cs);
    }
    (c, s)
}

fn powi_raw(x: i64, n: u32) -> (r: i64)
    ensures
        r == fixed_powi(x, n as nat),
{
    let mut y: i64 = UNIT;
    for i in 0..n
        invariant
            y == fixed_powi(x, i as nat),
    {
        y = mul_raw(y, x);
    }
    y
}

impl Number for Fixed {
    open spec fn spec_zero() -> Fixed {
        Fixed { raw: 0 }
    }

    open spec fn spec_one() -> Fixed {
        Fixed { raw: UNIT }
    }

    open spec fn spec_plus(self, other: Fixed) -> Fixed {
        Fixed { raw: i64_specs::wrapping_add(self.raw, other.raw) }
    }

    open spec fn spec_minus(self, other: Fixed) -> Fixed {
        Fixed { raw: i64_specs::wrapping_sub(self.raw, other.raw) }
    }

    open spec fn spec_times(self, other: Fixed) -> Fixed {
        Fixed { raw: fixed_mul(self.raw, other.raw) }
    }

    open spec fn spec_same(self, other: Fixed) -> bool {
        self == other
    }

    fn zero() -> (r: Fixed) {
        Fixed { raw: 0 }
    }

    fn one() -> (r: Fixed) {
        Fixed { raw: UNIT }
    }

    fn plus(self, other: Fixed) -> (r: Fixed) {
        Fixed { raw: self.raw.wrapping_add(other.raw) }
    }

    fn minus(self, other: Fixed) -> (r: Fixed) {
        Fixed { raw: self.raw.wrapping_sub(other.raw) }
    }

    fn times(self, other: Fixed) -> (r: Fixed) {
        Fixed { raw: mul_raw(self.raw, other.raw) }
    }

    fn same(self, other: Fixed) -> (r: bool) {
        self == other
    }
}

/// Zero adds nothing and leaves nothing of what it multiplies.
pub proof fn lemma_zero_absorbs()
    ensures
        blas::zero_absorbs::<Fixed>(),
{
    let z = Fixed::spec_zero();
    assert forall|x: Fixed| #[trigger] z.spec_times(x) == z by {
        assert(0 * x.raw == 0);
        assert((0i128 >> 16u32) as i64 == 0i64) by (bit_vector);
    }
}

impl Real for Fixed {
    open spec fn spec_count(n: usize) -> Fixed {
        Fixed { raw: i64_specs::wrapping_mul(n as i64, UNIT) }
    }

    open spec fn spec_over(self, other: Fixed) -> Fixed {
        Fixed { raw: fixed_div(self.raw, other.raw) }
    }

    open spec fn spec_larger(self, other: Fixed) -> Fixed {
        if self.raw < other.raw {
            other
        } else {
            self
        }
    }

    open spec fn spec_smaller(self, other: Fixed) -> Fixed {
        if other.raw < self.raw {
            other
        } else {
            self
        }
    }

    open spec fn spec_powf(self, other: Fixed) -> Fixed {
        Fixed { raw: fixed_exp(fixed_mul(other.raw, fixed_ln(self.raw, LOG_STEPS as nat))) }
    }

    /// The product of as many factors; its reciprocal where the exponent is negative.
    open spec fn spec_powi(self, n: i32) -> Fixed {
        let p = fixed_powi(self.raw, abs_of(n as int) as nat);
        Fixed {
            raw: if n < 0 {
                fixed_div(UNIT, p)
            } else {
                p
            },
        }
    }

    open spec fn spec_below(self, other: Fixed) -> bool {
        self.raw < other.raw
    }

    open spec fn spec_at_most(self, other: Fixed) -> bool {
        self.raw <= other.raw
    }

    open spec fn spec_highest() -> Fixed {
        Fixed { raw: i64::MAX }
    }

    open spec fn spec_lowest() -> Fixed {
        Fixed { raw: i64::MIN }
    }

    open spec fn spec_whole(self) -> i64 {
        self.raw >> 16u32
    }

    open spec fn spec_neg(self) -> Fixed {
        Fixed { raw: i64_specs::wrapping_sub(0, self.raw) }
    }

    open spec fn spec_abs(self) -> Fixed {
        if self.raw < 0 {
            self.spec_neg()
        } else {
            self
        }
    }

    open spec fn spec_exp(self) -> Fixed {
        Fixed { raw: fixed_exp(self.raw) }
    }

    open spec fn spec_ln(self) -> Fixed {
        Fixed { raw: fixed_ln(self.raw, LOG_STEPS as nat) }
    }

    /// `(e - 1) / (e + 1)` with `e` the exponential of twice the number.
    open spec fn spec_tanh(self) -> Fixed {
        let e = self.spec_plus(self).spec_exp();
        e.spec_minus(Fixed::spec_one()).spec_over(e.spec_plus(Fixed::spec_one()))
    }

    open spec fn spec_sqrt(self) -> Fixed {
        Fixed {
            raw: if self.raw < 0 {
                0
            } else {
                root(self.raw * UNIT) as i64
            },
        }
    }

    open spec fn spec_sin(self) -> Fixed {
        Fixed { raw: fixed_turn(self.raw, SQUARINGS as nat).1 }
    }

    open spec fn spec_cos(self) -> Fixed {
        Fixed { raw: fixed_turn(self.raw, SQUARINGS as nat).0 }
    }

    /// The nearest whole number; halves go up.
    open spec fn spec_round(self) -> Fixed {
        Fixed { raw: (i64_specs::wrapping_add(self.raw, 32768) >> 16u32) << 16u32 }
    }

    fn count(n: usize) -> (r: Fixed) {
        Fixed { raw: (n as i64).wrapping_mul(UNIT) }
    }

    fn over(self, other: Fixed) -> (r: Fixed) {
        Fixed { raw: div_raw(self.raw, other.raw) }
    }

    fn larger(self, other: Fixed) -> (r: Fixed) {
        if self.raw < other.raw {
            other
        } else {
            self
        }
    }

    fn smaller(self, other: Fixed) -> (r: Fixed) {
        if other.raw < self.raw {
            other
        } else {
            self
        }
    }

    fn powf(self, other: Fixed) -> (r: Fixed) {
        Fixed { raw: exp_raw(mul_raw(other.raw, ln_raw(self.raw))) }
    }

    fn powi(self, n: i32) -> (r: Fixed) {
        if n < 0 {
            let p: i64 = powi_raw(self.raw, (-(n as i64)) as u32);
            Fixed { raw: div_raw(UNIT, p) }
        } else {
            Fixed { raw: powi_raw(self.raw, n as u32) }
        }
    }

    fn below(self, other: Fixed) -> (r: bool) {
        self.raw < other.raw
    }

    fn at_most(self, other: Fixed) -> (r: bool) {
        self.raw <= other.raw
    }

    fn highest() -> (r: Fixed) {
        Fixed { raw: i64::MAX }
    }

    fn lowest() -> (r: Fixed) {
        Fixed { raw: i64::MIN }
    }

    fn whole(self) -> (r: i64) {
        self.raw >> 16u32
    }

    fn neg(self) -> (r: Fixed) {
        Fixed { raw: 0i64.wrapping_sub(self.raw) }
    }

    fn abs(self) -> (r: Fixed) {
        if self.raw < 0 {
            self.neg()
        } else {
            self
        }
    }

    fn exp(self) -> (r: Fixed) {
        Fixed { raw: exp_raw(self.raw) }
    }

    fn ln(self) -> (r: Fixed) {
        Fixed { raw: ln_raw(self.raw) }
    }

    fn tanh(self) -> (r: Fixed) {
        let e = self.plus(self).exp();
        e.minus(Fixed::one()).over(e.plus(Fixed::one()))
    }

    fn sqrt(self) -> (r: Fixed) {
        if self.raw < 0 {
            Fixed { raw: 0 }
        } else {
            Fixed { raw: root_raw(self.raw as u128 * 65536) as i64 }
        }
    }

    fn sin(self) -> (r: Fixed) {
        let t = turn_raw(self.raw);
        Fixed { raw: t.1 }
    }

    fn cos(self) -> (r: Fixed) {
        let t = turn_raw(self.raw);
        Fixed { raw: t.0 }
    }

    fn round(self) -> (r: Fixed) {
        Fixed { raw: (self.raw.wrapping_add(32768) >> 16u32) << 16u32 }
    }
}

} // verus!
