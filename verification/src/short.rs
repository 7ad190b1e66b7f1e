//! Fixed-point numbers of 32 bits.
use vstd::prelude::*;
use crate::bytes::Word;
use crate::fixed::Fixed;
use crate::number::{Number, Real};

verus! {

/// A multiple of two to the power of -16 that is kept in 32 bits. What is computed of it is computed
/// of the wider number; the lower 32 bits of the result are kept.
#[derive(Debug, Clone, Copy, PartialEq, Eq, Structural)]
pub struct Short {
    /// How many times two to the power of -16.
    pub raw: i32,
}

/// The number in more bits.
pub open spec fn widened(x: Short) -> Fixed {
    Fixed { raw: x.raw as i64 }
}

/// The number in 32 bits.
pub open spec fn shortened(x: Fixed) -> Short {
    Short { raw: x.raw as i32 }
}

impl Short {
    /// The number in more bits.
    pub fn wide(self) -> (r: Fixed)
        ensures
            r == widened(self),
    {
        Fixed { raw: self.raw as i64 }
    }

    /// The number in 32 bits.
    pub fn short(x: Fixed) -> (r: Self)
        ensures
            r == shortened(x),
    {
        Short {
            raw: #[verifier::truncate]
            (x.raw as i32),
        }
    }
}

impl Number for Short {
    open spec fn spec_zero() -> Short {
        shortened(Fixed::spec_zero())
    }

    open spec fn spec_one() -> Short {
        shortened(Fixed::spec_one())
    }

    open spec fn spec_plus(self, other: Short) -> Short {
        shortened(widened(self).spec_plus(widened(other)))
    }

    open spec fn spec_minus(self, other: Short) -> Short {
        shortened(widened(self).spec_minus(widened(other)))
    }

    open spec fn spec_times(self, other: Short) -> Short {
        shortened(widened(self).spec_times(widened(other)))
    }

    open spec fn spec_same(self, other: Short) -> bool {
        self == other
    }

    fn zero() -> (r: Short) {
        Short::short(Fixed::zero())
    }

    fn one() -> (r: Short) {
        Short::short(Fixed::one())
    }

    fn plus(self, other: Short) -> (r: Short) {
        Short::short(self.wide().plus(other.wide()))
    }

    fn minus(self, other: Short) -> (r: Short) {
        Short::short(self.wide().minus(other.wide()))
    }

    fn times(self, other: Short) -> (r: Short) {
        Short::short(self.wide().times(other.wide()))
    }

    fn same(self, other: Short) -> (r: bool) {
        self == other
    }
}

impl Real for Short {
    open spec fn spec_over(self, other: Short) -> Short {
        shortened(widened(self).spec_over(widened(other)))
    }

    open spec fn spec_larger(self, other: Short) -> Short {
        shortened(widened(self).spec_larger(widened(other)))
    }

    open spec fn spec_smaller(self, other: Short) -> Short {
        shortened(widened(self).spec_smaller(widened(other)))
    }

    open spec fn spec_powf(self, other: Short) -> Short {
        shortened(widened(self).spec_powf(widened(other)))
    }

    open spec fn spec_neg(self) -> Short {
        shortened(widened(self).spec_neg())
    }

    open spec fn spec_abs(self) -> Short {
        shortened(widened(self).spec_abs())
    }

    open spec fn spec_exp(self) -> Short {
        shortened(widened(self).spec_exp())
    }

    open spec fn spec_ln(self) -> Short {
        shortened(widened(self).spec_ln())
    }

    open spec fn spec_tanh(self) -> Short {
        shortened(widened(self).spec_tanh())
    }

    open spec fn spec_sqrt(self) -> Short {
        shortened(widened(self).spec_sqrt())
    }

    open spec fn spec_sin(self) -> Short {
        shortened(widened(self).spec_sin())
    }

    open spec fn spec_cos(self) -> Short {
        shortened(widened(self).spec_cos())
    }

    open spec fn spec_round(self) -> Short {
        shortened(widened(self).spec_round())
    }

    open spec fn spec_count(n: usize) -> Short {
        shortened(Fixed::spec_count(n))
    }

    open spec fn spec_powi(self, n: i32) -> Short {
        shortened(widened(self).spec_powi(n))
    }

    open spec fn spec_below(self, other: Short) -> bool {
        self.raw < other.raw
    }

    open spec fn spec_at_most(self, other: Short) -> bool {
        self.raw <= other.raw
    }

    open spec fn spec_highest() -> Short {
        Short { raw: i32::MAX }
    }

    open spec fn spec_lowest() -> Short {
        Short { raw: i32::MIN }
    }

    open spec fn spec_whole(self) -> i64 {
        widened(self).spec_whole()
    }

    fn over(self, other: Short) -> (r: Short) {
        Short::short(self.wide().over(other.wide()))
    }

    fn larger(self, other: Short) -> (r: Short) {
        Short::short(self.wide().larger(other.wide()))
    }

    fn smaller(self, other: Short) -> (r: Short) {
        Short::short(self.wide().smaller(other.wide()))
    }

    fn powf(self, other: Short) -> (r: Short) {
        Short::short(self.wide().powf(other.wide()))
    }

    fn neg(self) -> (r: Short) {
        Short::short(self.wide().neg())
    }

    fn abs(self) -> (r: Short) {
        Short::short(self.wide().abs())
    }

    fn exp(self) -> (r: Short) {
        Short::short(self.wide().exp())
    }

    fn ln(self) -> (r: Short) {
        Short::short(self.wide().ln())
    }

    fn tanh(self) -> (r: Short) {
        Short::short(self.wide().tanh())
    }

    fn sqrt(self) -> (r: Short) {
        Short::short(self.wide().sqrt())
    }

    fn sin(self) -> (r: Short) {
        Short::short(self.wide().sin())
    }

    fn cos(self) -> (r: Short) {
        Short::short(self.wide().cos())
    }

    fn round(self) -> (r: Short) {
        Short::short(self.wide().round())
    }

    fn count(n: usize) -> (r: Short) {
        Short::short(Fixed::count(n))
    }

    fn powi(self, n: i32) -> (r: Short) {
        Short::short(self.wide().powi(n))
    }

    fn below(self, other: Short) -> (r: bool) {
        self.raw < other.raw
    }

    fn at_most(self, other: Short) -> (r: bool) {
        self.raw <= other.raw
    }

    fn highest() -> (r: Short) {
        Short { raw: i32::MAX }
    }

    fn lowest() -> (r: Short) {
        Short { raw: i32::MIN }
    }

    fn whole(self) -> (r: i64) {
        self.wide().whole()
    }
}

impl Word for Short {
    fn bits(self) -> (r: u32) {
        #[verifier::truncate]
        (self.raw as u32)
    }

    open spec fn spec_bits(self) -> u32 {
        self.raw as u32
    }

    fn from_bits(b: u32) -> (r: Self) {
        Short {
            raw: #[verifier::truncate]
            (b as i32),
        }
    }

    open spec fn spec_from_bits(b: u32) -> Self {
        Short { raw: b as i32 }
    }

    proof fn round_trip(self) {
        let x = self.raw;
        assert((x as u32) as i32 == x) by (bit_vector);
    }
}

} // verus!
