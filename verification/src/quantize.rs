//! Weights in fewer bits: halves, bytes and nibbles.
use vstd::prelude::*;
use crate::bytes::Word;
use crate::int8;
use crate::nn;
use crate::nn::{Linear, Module};
use crate::number;
use crate::number::{bound, Real};
use crate::optim;
use crate::optim::fraction;
use crate::position;
use crate::tensor;
use crate::tensor::{copy_slice, count_of, Op, Tensor, Value};

verus! {

// ---- Formats

#[allow(non_camel_case_types)]
#[derive(Debug, Clone, Copy, PartialEq, Eq, Structural)]
pub enum QuantFormat {
    /// A float of 16 bits with 5 for the exponent.
    FP16,
    /// A float of 16 bits with 8 for the exponent.
    BF16,
    /// Bytes.
    INT8,
    /// Nibbles.
    INT4,
    /// Nibbles that stand for quantiles of the normal distribution.
    NF4,
    /// Nibbles that stand for floats with two bits for the exponent and one for the mantissa.
    NVFP4,
    /// Nibbles in blocks of up to 32.
    GGUF_Q4,
    /// The same as `GGUF_Q4`.
    GGUF_Q4K,
    /// Bytes in blocks of up to 32.
    GGUF_Q8,
}

impl QuantFormat {
    pub open spec fn spec_bits(&self) -> usize {
        match self {
            QuantFormat::FP16 | QuantFormat::BF16 => 16,
            QuantFormat::INT8 | QuantFormat::GGUF_Q8 => 8,
            _ => 4,
        }
    }

    /// The bits for each weight.
    pub fn bits(&self) -> (r: usize)
        ensures
            r == self.spec_bits(),
    {
        match self {
            QuantFormat::FP16 => 16,
            QuantFormat::BF16 => 16,
            QuantFormat::INT8 => 8,
            QuantFormat::GGUF_Q8 => 8,
            QuantFormat::INT4 => 4,
            QuantFormat::NF4 => 4,
            QuantFormat::NVFP4 => 4,
            QuantFormat::GGUF_Q4 => 4,
            QuantFormat::GGUF_Q4K => 4,
        }
    }

    /// How many times less that is than 32 bits.
    pub fn compression_ratio<S: Real>(&self) -> (r: S)
        ensures
            r == S::spec_count(32).spec_over(S::spec_count(self.spec_bits())),
    {
        S::count(32).over(S::count(self.bits()))
    }

    pub fn name(&self) -> (r: &'static str)
        ensures
            r@ == match self {
                QuantFormat::FP16 => "FP16"@,
                QuantFormat::BF16 => "BF16"@,
                QuantFormat::INT8 => "INT8"@,
                QuantFormat::INT4 => "INT4"@,
                QuantFormat::NF4 => "NF4 (NormalFloat 4-bit)"@,
                QuantFormat::NVFP4 => "NVFP4 (NVIDIA FP4 E2M1)"@,
                QuantFormat::GGUF_Q4 => "GGUF Q4_0"@,
                QuantFormat::GGUF_Q4K => "GGUF Q4_K"@,
                QuantFormat::GGUF_Q8 => "GGUF Q8_0"@,
            },
    {
        match self {
            QuantFormat::FP16 => "FP16",
            QuantFormat::BF16 => "BF16",
            QuantFormat::INT8 => "INT8",
            QuantFormat::INT4 => "INT4",
            QuantFormat::NF4 => "NF4 (NormalFloat 4-bit)",
            QuantFormat::NVFP4 => "NVFP4 (NVIDIA FP4 E2M1)",
            QuantFormat::GGUF_Q4 => "GGUF Q4_0",
            QuantFormat::GGUF_Q4K => "GGUF Q4_K",
            QuantFormat::GGUF_Q8 => "GGUF Q8_0",
        }
    }
}

// ---- Halves

/// How far a mantissa of ten bits is shifted until its first one stands at the eleventh, from a
/// shift on.
pub open spec fn lead(m: u32, k: u32) -> u32
    decreases 10 - k,
{
    if k >= 10 || m >= (0x400u32 >> k) {
        k
    } else {
        lead(m, (k + 1) as u32)
    }
}

proof fn lemma_lead(m: u32, k: u32)
    requires
        0 < m,
        1 <= k <= 10,
        m < (0x400u32 >> ((k - 1) as u32)),
    ensures
        k <= lead(m, k) <= 10,
        (0x400u32 >> lead(m, k)) <= m,
        m < (0x400u32 >> ((lead(m, k) - 1) as u32)),
    decreases 10 - k,
{
    if k >= 10 {
        assert((0x400u32 >> 10u32) == 1) by (bit_vector);
    } else if m < (0x400u32 >> k) {
        lemma_lead(m, (k + 1) as u32);
    }
}

/// The half of a float, both as bits: mantissas are cut, and numbers out of range become infinite
/// or zero.
pub open spec fn half_of(bits: u32) -> u16 {
    let sign = ((bits >> 16u32) & 0x8000u32) as u16;
    let exp = (bits >> 23u32) & 0xFFu32;
    let mant = bits & 0x7FFFFFu32;
    if exp == 0xFF {
        if mant != 0 {
            sign | 0x7E00u16
        } else {
            sign | 0x7C00u16
        }
    } else if exp >= 143 {
        sign | 0x7C00u16
    } else if exp <= 102 {
        sign
    } else if exp <= 112 {
        sign | (((mant | 0x800000u32) >> ((126 - exp) as u32)) as u16)
    } else {
        sign | ((((exp - 112) as u32) << 10u32) as u16) | ((mant >> 13u32) as u16)
    }
}

/// The float of a half, both as bits.
pub open spec fn float_of(h: u16) -> u32 {
    let sign = ((h as u32) & 0x8000u32) << 16u32;
    let exp = ((h as u32) >> 10u32) & 0x1Fu32;
    let mant = (h as u32) & 0x3FFu32;
    if exp == 0 {
        if mant == 0 {
            sign
        } else {
            let k = lead(mant, 1);
            sign | (((113 - k) as u32) << 23u32) | (((mant << k) & 0x3FFu32) << 13u32)
        }
    } else if exp == 31 {
        sign | 0x7F800000u32 | (mant << 13u32)
    } else {
        sign | (((exp + 112) as u32) << 23u32) | (mant << 13u32)
    }
}

/// A half stands for no number.
pub open spec fn is_nan(h: u16) -> bool {
    (h & 0x7C00u16) == 0x7C00u16 && (h & 0x3FFu16) != 0
}

/// A half that stands for a number comes back from a float as it was.
pub proof fn lemma_half_round_trip(h: u16)
    requires
        !is_nan(h),
    ensures
        half_of(float_of(h)) == h,
{
    let exp = ((h as u32) >> 10u32) & 0x1Fu32;
    let mant = (h as u32) & 0x3FFu32;
    let sign = ((h as u32) & 0x8000u32) << 16u32;
    let b = float_of(h);
    assert(exp <= 31) by (bit_vector)
        requires
            exp == ((h as u32) >> 10u32) & 0x1Fu32,
    ;
    if exp == 0 && mant != 0 {
        let k = lead(mant, 1);
        assert(0 < mant < (0x400u32 >> 0u32)) by (bit_vector)
            requires
                mant == (h as u32) & 0x3FFu32,
                mant != 0,
        ;
        lemma_lead(mant, 1);
        assert(b == sign | (((113 - k) as u32) << 23u32) | (((mant << k) & 0x3FFu32) << 13u32));
        let e = (b >> 23u32) & 0xFFu32;
        let m = b & 0x7FFFFFu32;
        let s = ((b >> 16u32) & 0x8000u32) as u16;
        assert(e == (113 - k) as u32 && 103 <= e <= 112 && s | (((m | 0x800000u32) >> ((126
            - e) as u32)) as u16) == h) by (bit_vector)
            requires
                1 <= k <= 10,
                (0x400u32 >> k) <= mant,
                mant < (0x400u32 >> ((k - 1) as u32)),
                mant == (h as u32) & 0x3FFu32,
                ((h as u32) >> 10u32) & 0x1Fu32 == 0,
                sign == ((h as u32) & 0x8000u32) << 16u32,
                b == sign | (((113 - k) as u32) << 23u32) | (((mant << k) & 0x3FFu32) << 13u32),
                e == (b >> 23u32) & 0xFFu32,
                m == b & 0x7FFFFFu32,
                s == ((b >> 16u32) & 0x8000u32) as u16,
        ;
    } else if exp == 0 {
        assert(b == sign);
        assert((b >> 23u32) & 0xFFu32 == 0 && ((b >> 16u32) & 0x8000u32) as u16 == h)
            by (bit_vector)
            requires
                (h as u32) & 0x3FFu32 == 0,
                ((h as u32) >> 10u32) & 0x1Fu32 == 0,
                b == ((h as u32) & 0x8000u32) << 16u32,
        ;
    } else if exp == 31 {
        assert(mant == 0) by (bit_vector)
            requires
                mant == (h as u32) & 0x3FFu32,
                exp == ((h as u32) >> 10u32) & 0x1Fu32,
                exp == 31,
                !((h & 0x7C00u16) == 0x7C00u16 && (h & 0x3FFu16) != 0),
        ;
        assert((b >> 23u32) & 0xFFu32 == 0xFF && b & 0x7FFFFFu32 == 0 && ((b >> 16u32)
            & 0x8000u32) as u16 | 0x7C00u16 == h) by (bit_vector)
            requires
                mant == (h as u32) & 0x3FFu32,
                mant == 0,
                ((h as u32) >> 10u32) & 0x1Fu32 == 31,
                b == (((h as u32) & 0x8000u32) << 16u32) | 0x7F800000u32 | (mant << 13u32),
        ;
    } else {
        let e = (b >> 23u32) & 0xFFu32;
        let m = b & 0x7FFFFFu32;
        let s = ((b >> 16u32) & 0x8000u32) as u16;
        assert(112 < e < 143 && s | ((((e - 112) as u32) << 10u32) as u16) | ((m >> 13u32) as u16)
            == h) by (bit_vector)
            requires
                exp == ((h as u32) >> 10u32) & 0x1Fu32,
                0 < exp < 31,
                b == (((h as u32) & 0x8000u32) << 16u32) | (((exp + 112) as u32) << 23u32) | (((
                h as u32) & 0x3FFu32) << 13u32),
                e == (b >> 23u32) & 0xFFu32,
                m == b & 0x7FFFFFu32,
                s == ((b >> 16u32) & 0x8000u32) as u16,
        ;
    }
}

/// The bits of a half of the given number.
pub fn f32_to_f16<W: Word>(x: W) -> (r: u16)
    ensures
        r == half_of(x.spec_bits()),
{
    let bits: u32 = x.bits();
    let sign: u16 = ((bits >> 16u32) & 0x8000u32) as u16;
    let exp: u32 = (bits >> 23u32) & 0xFFu32;
    let mant: u32 = bits & 0x7FFFFFu32;
    if exp == 0xFF {
        return if mant != 0 {
            sign | 0x7E00u16
        } else {
            sign | 0x7C00u16
        };
    }
    if exp >= 143 {
        return sign | 0x7C00u16;
    }
    if exp <= 102 {
        return sign;
    }
    if exp <= 112 {
        let shift: u32 = 126 - exp;
        return sign | (((mant | 0x800000u32) >> shift) as u16);
    }
    assert(exp <= 0xFF) by (bit_vector)
        requires
            exp == (bits >> 23u32) & 0xFFu32,
    ;
    sign | (((exp - 112) << 10u32) as u16) | ((mant >> 13u32) as u16)
}

/// The number of the bits of a half.
pub fn f16_to_f32<W: Word>(h: u16) -> (r: W)
    ensures
        r == W::spec_from_bits(float_of(h)),
{
    let sign: u32 = ((h as u32) & 0x8000u32) << 16u32;
    let exp: u32 = ((h as u32) >> 10u32) & 0x1Fu32;
    let mant: u32 = (h as u32) & 0x3FFu32;
    assert(exp <= 31) by (bit_vector)
        requires
            exp == ((h as u32) >> 10u32) & 0x1Fu32,
    ;
    let val: u32 = if exp == 0 {
        if mant == 0 {
            sign
        } else {
            let mut k: u32 = 1;
            while k < 10 && mant < (0x400u32 >> k)
                invariant
                    1 <= k <= 10,
                    lead(mant, 1) == lead(mant, k),
                decreases 10 - k,
            {
                k += 1;
            }
            sign | ((113 - k) << 23u32) | (((mant << k) & 0x3FFu32) << 13u32)
        }
    } else if exp == 31 {
        sign | 0x7F800000u32 | (mant << 13u32)
    } else {
        sign | ((exp + 112) << 23u32) | (mant << 13u32)
    };
    W::from_bits(val)
}

/// The upper half of a float, rounded to the nearest, to even where two are as near.
pub open spec fn brain_of(bits: u32) -> u16 {
    (((bits + ((bits >> 16u32) & 1u32) + 0x7FFF) as u32) >> 16u32) as u16
}

/// The rounding of a float stays in range.
pub open spec fn rounds(bits: u32) -> bool {
    bits + ((bits >> 16u32) & 1u32) + 0x7FFF <= u32::MAX
}

/// The bits of the upper half of the given number.
pub fn f32_to_bf16<W: Word>(x: W) -> (r: u16)
    requires
        rounds(x.spec_bits()),
    ensures
        r == brain_of(x.spec_bits()),
{
    let bits: u32 = x.bits();
    let rounded: u32 = bits + ((bits >> 16u32) & 1u32) + 0x7FFF;
    (rounded >> 16u32) as u16
}

/// The number of the bits of an upper half.
pub fn bf16_to_f32<W: Word>(b: u16) -> (r: W)
    ensures
        r == W::spec_from_bits((b as u32) << 16u32),
{
    W::from_bits((b as u32) << 16u32)
}

/// An upper half comes back from a float as it was.
pub proof fn lemma_brain_round_trip(b: u16)
    ensures
        rounds((b as u32) << 16u32),
        brain_of((b as u32) << 16u32) == b,
{
    let bits = (b as u32) << 16u32;
    assert(bits + ((bits >> 16u32) & 1u32) + 0x7FFF <= 0xFFFFFFFF && (((bits + ((bits >> 16u32)
        & 1u32) + 0x7FFF) as u32) >> 16u32) as u16 == b) by (bit_vector)
        requires
            bits == (b as u32) << 16u32,
    ;
}

// ---- Nibbles

/// The numbers of the nibbles of quantiles: those of the normal distribution.
pub open spec fn nf4_levels<S: Real>() -> Seq<S> {
    seq![
        S::spec_one().spec_neg(),
        optim::ratio::<S>(11680177, 16777216).spec_neg(),
        optim::ratio::<S>(550579, 1048576).spec_neg(),
        optim::ratio::<S>(414101, 1048576).spec_neg(),
        optim::ratio::<S>(9544269, 33554432).spec_neg(),
        optim::ratio::<S>(12399935, 67108864).spec_neg(),
        optim::ratio::<S>(12220529, 134217728).spec_neg(),
        S::spec_zero(),
        optim::ratio::<S>(10681087, 134217728),
        optim::ratio::<S>(10799843, 67108864),
        optim::ratio::<S>(16516317, 67108864),
        optim::ratio::<S>(5669277, 16777216),
        optim::ratio::<S>(1848471, 4194304),
        optim::ratio::<S>(9439147, 16777216),
        optim::ratio::<S>(12129203, 16777216),
        S::spec_one(),
    ]
}

/// The magnitudes of small floats.
pub open spec fn small_magnitudes<S: Real>() -> Seq<S> {
    seq![
        S::spec_zero(),
        optim::ratio::<S>(1, 2),
        S::spec_one(),
        optim::ratio::<S>(3, 2),
        S::spec_count(2),
        S::spec_count(3),
        S::spec_count(4),
        S::spec_count(6),
    ]
}

/// The numbers of the nibbles of small floats: the magnitudes, and the same negated.
pub open spec fn nvfp4_level<S: Real>(i: int) -> S {
    if i < 8 {
        small_magnitudes::<S>()[i]
    } else {
        small_magnitudes::<S>()[i - 8].spec_neg()
    }
}

fn nf4_table<S: Real>() -> (r: Vec<S>)
    ensures
        r@ == nf4_levels::<S>(),
{
    let v: Vec<S> = vec![
        S::one().neg(),
        fraction::<S>(11680177, 16777216).neg(),
        fraction::<S>(550579, 1048576).neg(),
        fraction::<S>(414101, 1048576).neg(),
        fraction::<S>(9544269, 33554432).neg(),
        fraction::<S>(12399935, 67108864).neg(),
        fraction::<S>(12220529, 134217728).neg(),
        S::zero(),
        fraction::<S>(10681087, 134217728),
        fraction::<S>(10799843, 67108864),
        fraction::<S>(16516317, 67108864),
        fraction::<S>(5669277, 16777216),
        fraction::<S>(1848471, 4194304),
        fraction::<S>(9439147, 16777216),
        fraction::<S>(12129203, 16777216),
        S::one(),
    ];
    assert(v@ =~= nf4_levels::<S>());
    v
}

fn magnitude_table<S: Real>() -> (r: Vec<S>)
    ensures
        r@ == small_magnitudes::<S>(),
{
    let v: Vec<S> = vec![
        S::zero(),
        fraction::<S>(1, 2),
        S::one(),
        fraction::<S>(3, 2),
        S::count(2),
        S::count(3),
        S::count(4),
        S::count(6),
    ];
    assert(v@ =~= small_magnitudes::<S>());
    v
}

/// The first of the nearest of the first levels, and its distance.
pub open spec fn nearest<S: Real>(levels: Seq<S>, x: S, n: int) -> (int, S)
    decreases n,
{
    if n <= 0 {
        (0, S::spec_highest())
    } else {
        let best = nearest(levels, x, n - 1);
        let d = levels[n - 1].spec_minus(x).spec_abs();
        if d.spec_below(best.1) {
            (n - 1, d)
        } else {
            best
        }
    }
}

proof fn lemma_nearest<S: Real>(levels: Seq<S>, x: S, n: int)
    requires
        0 <= n,
    ensures
        0 <= nearest(levels, x, n).0,
        n > 0 ==> nearest(levels, x, n).0 < n,
    decreases n,
{
    if n > 0 {
        lemma_nearest(levels, x, n - 1);
    }
}

fn nearest_level<S: Real>(levels: &[S], x: S) -> (r: usize)
    requires
        levels@.len() > 0,
    ensures
        r == nearest(levels@, x, levels@.len() as int).0,
        r < levels@.len(),
{
    let mut best: usize = 0;
    let mut dist = S::highest();
    for i in 0..levels.len()
        invariant
            (best as int, dist) == nearest(levels@, x, i as int),
    {
        let d = levels[i].minus(x).abs();
        if d.below(dist) {
            dist = d;
            best = i;
        }
    }
    proof {
        lemma_nearest(levels@, x, levels@.len() as int);
    }
    best
}

/// The nearest whole number between -8 and 7.
pub open spec fn small_int<S: Real>(q: S) -> i8 {
    let w = number::bounded(
        q.spec_round(),
        S::spec_count(8).spec_neg(),
        S::spec_count(7),
    ).spec_whole();
    if w < -8 {
        -8i8
    } else if w > 7 {
        7i8
    } else {
        w as i8
    }
}

/// The lower four bits.
pub open spec fn nibble_of(v: i8) -> u8 {
    (v & 15i8) as u8
}

/// The number between -8 and 7 of four bits.
pub open spec fn signed_of(n: u8) -> i8 {
    if n & 8u8 != 0 {
        (n | 0xF0u8) as i8
    } else {
        n as i8
    }
}

/// Four bits are enough for the numbers from -8 to 7.
pub proof fn lemma_nibble_round_trip(v: i8)
    requires
        -8 <= v <= 7,
    ensures
        nibble_of(v) < 16,
        signed_of(nibble_of(v)) == v,
{
    assert(((v & 15i8) as u8) < 16 && (if ((v & 15i8) as u8) & 8u8 != 0 {
        (((v & 15i8) as u8) | 0xF0u8) as i8
    } else {
        ((v & 15i8) as u8) as i8
    }) == v) by (bit_vector)
        requires
            -8 <= v <= 7,
    ;
}

/// What a group of numbers is divided by.
pub open spec fn group_scale<S: Real>(f: QuantFormat, group: Seq<S>) -> S {
    let max = int8::widest(group, group.len() as int);
    match f {
        QuantFormat::GGUF_Q4 | QuantFormat::GGUF_Q4K => {
            let s = max.spec_over(S::spec_count(8).spec_neg());
            if s.spec_same(S::spec_zero()) {
                S::spec_one()
            } else {
                s
            }
        },
        _ => if S::spec_zero().spec_below(max) {
            match f {
                QuantFormat::INT4 => max.spec_over(S::spec_count(7)),
                QuantFormat::NF4 => max,
                QuantFormat::NVFP4 => max.spec_over(S::spec_count(6)),
                _ => max.spec_over(S::spec_count(127)),
            }
        } else {
            S::spec_one()
        },
    }
}

/// The byte or nibble of a number.
pub open spec fn code_of<S: Real>(f: QuantFormat, q: S) -> u8 {
    match f {
        QuantFormat::INT4 | QuantFormat::GGUF_Q4 | QuantFormat::GGUF_Q4K => nibble_of(small_int(q)),
        QuantFormat::NF4 => nearest(nf4_levels::<S>(), q, 16).0 as u8,
        QuantFormat::NVFP4 => {
            let m = nearest(small_magnitudes::<S>(), q.spec_abs(), 8).0;
            if q.spec_below(S::spec_zero()) {
                (8 + m) as u8
            } else {
                m as u8
            }
        },
        _ => int8::byte_of(q) as u8,
    }
}

/// The number of a byte or a nibble, in units of the scale.
pub open spec fn level_of<S: Real>(f: QuantFormat, code: u8) -> S {
    match f {
        QuantFormat::INT4 | QuantFormat::GGUF_Q4 | QuantFormat::GGUF_Q4K => int8::int_value::<S>(
            signed_of(code) as int,
        ),
        QuantFormat::NF4 => nf4_levels::<S>()[(code % 16) as int],
        QuantFormat::NVFP4 => nvfp4_level::<S>((code % 16) as int),
        _ => int8::int_value::<S>((code as i8) as int),
    }
}

/// Nibbles are less than sixteen.
pub proof fn lemma_code_small<S: Real>(f: QuantFormat, q: S)
    requires
        f.spec_bits() == 4,
    ensures
        code_of(f, q) < 16,
{
    match f {
        QuantFormat::NF4 => {
            lemma_nearest(nf4_levels::<S>(), q, 16);
        },
        QuantFormat::NVFP4 => {
            lemma_nearest(small_magnitudes::<S>(), q.spec_abs(), 8);
        },
        _ => {
            lemma_nibble_round_trip(small_int(q));
        },
    }
}

fn scale_for<S: Real>(f: QuantFormat, group: &[S]) -> (r: S)
    ensures
        r == group_scale(f, group@),
{
    let mut max = S::zero();
    for j in 0..group.len()
        invariant
            max == int8::widest(group@, j as int),
    {
        max = max.larger(group[j].abs());
    }
    match f {
        QuantFormat::GGUF_Q4 | QuantFormat::GGUF_Q4K => {
            let s = max.over(S::count(8).neg());
            if s.same(S::zero()) {
                S::one()
            } else {
                s
            }
        },
        _ => if S::zero().below(max) {
            match f {
                QuantFormat::INT4 => max.over(S::count(7)),
                QuantFormat::NF4 => max,
                QuantFormat::NVFP4 => max.over(S::count(6)),
                _ => max.over(S::count(127)),
            }
        } else {
            S::one()
        },
    }
}

fn encode<S: Real>(f: QuantFormat, q: S) -> (r: u8)
    ensures
        r == code_of(f, q),
{
    match f {
        QuantFormat::INT4 | QuantFormat::GGUF_Q4 | QuantFormat::GGUF_Q4K => {
            let w: i64 = bound(q.round(), S::count(8).neg(), S::count(7)).whole();
            let v: i8 = if w < -8 {
                -8
            } else if w > 7 {
                7
            } else {
                w as i8
            };
            (v & 15i8) as u8
        },
        QuantFormat::NF4 => nearest_level(&nf4_table(), q) as u8,
        QuantFormat::NVFP4 => {
            let m: usize = nearest_level(&magnitude_table(), q.abs());
            if q.below(S::zero()) {
                (8 + m) as u8
            } else {
                m as u8
            }
        },
        _ => int8::to_byte(q) as u8,
    }
}

fn decode<S: Real>(f: QuantFormat, code: u8) -> (r: S)
    ensures
        r == level_of::<S>(f, code),
{
    match f {
        QuantFormat::INT4 | QuantFormat::GGUF_Q4 | QuantFormat::GGUF_Q4K => {
            let v: i8 = if code & 8u8 != 0 {
                (code | 0xF0u8) as i8
            } else {
                code as i8
            };
            int8::from_int(v as i32)
        },
        QuantFormat::NF4 => nf4_table()[(code % 16) as usize],
        QuantFormat::NVFP4 => {
            let i: usize = (code % 16) as usize;
            if i < 8 {
                magnitude_table()[i]
            } else {
                magnitude_table::<S>()[i - 8].neg()
            }
        },
        _ => int8::from_int((code as i8) as i32),
    }
}

// ---- Groups

/// The place where a group ends.
pub open spec fn group_end(n: int, gs: int, g: int) -> int {
    position::lesser(g * gs + gs, n)
}

/// A group of numbers.
pub open spec fn group_at<S>(data: Seq<S>, gs: int, g: int) -> Seq<S> {
    data.subrange(g * gs, group_end(data.len() as int, gs, g))
}

/// How many groups there are.
pub open spec fn group_count(n: int, gs: int) -> int {
    (n + gs - 1) / gs
}

/// The scales of all groups.
pub open spec fn group_scales<S: Real>(f: QuantFormat, data: Seq<S>, gs: int) -> Seq<S> {
    Seq::new(
        group_count(data.len() as int, gs) as nat,
        |g: int| group_scale(f, group_at(data, gs, g)),
    )
}

/// The codes of a group.
pub open spec fn group_codes<S: Real>(f: QuantFormat, group: Seq<S>) -> Seq<u8> {
    let s = group_scale(f, group);
    Seq::new(group.len(), |i: int| code_of(f, group[i].spec_over(s)))
}

/// Nibbles in pairs, the first in the lower half of a byte.
pub open spec fn paired(codes: Seq<u8>) -> Seq<u8> {
    Seq::new(
        ((codes.len() + 1) / 2) as nat,
        |p: int|
            codes[2 * p] | ((if 2 * p + 1 < codes.len() {
                codes[2 * p + 1]
            } else {
                0
            }) << 4u8),
    )
}

/// The bytes of a group.
pub open spec fn group_bytes<S: Real>(f: QuantFormat, group: Seq<S>) -> Seq<u8> {
    if f.spec_bits() == 4 {
        paired(group_codes(f, group))
    } else {
        group_codes(f, group)
    }
}

/// The bytes of the first groups.
pub open spec fn bytes_before<S: Real>(f: QuantFormat, data: Seq<S>, gs: int, g: int) -> Seq<u8>
    decreases g,
{
    if g <= 0 {
        Seq::empty()
    } else {
        bytes_before(f, data, gs, g - 1) + group_bytes(f, group_at(data, gs, g - 1))
    }
}

/// The nibble at a place.
pub open spec fn nibble_at(data: Seq<u8>, i: int) -> u8 {
    if i % 2 == 0 {
        data[i / 2] & 15u8
    } else {
        (data[i / 2] >> 4u8) & 15u8
    }
}

/// A pair of nibbles comes apart again.
pub proof fn lemma_pairs_come_apart(codes: Seq<u8>, i: int)
    requires
        0 <= i < codes.len(),
        forall|k: int| 0 <= k < codes.len() ==> #[trigger] codes[k] < 16,
    ensures
        0 <= i / 2 < paired(codes).len(),
        nibble_at(paired(codes), i) == codes[i],
{
    let p = i / 2;
    let lo = codes[2 * p];
    let hi: u8 = if 2 * p + 1 < codes.len() {
        codes[2 * p + 1]
    } else {
        0
    };
    assert(lo < 16 && hi < 16);
    assert((lo | (hi << 4u8)) & 15u8 == lo && ((lo | (hi << 4u8)) >> 4u8) & 15u8 == hi)
        by (bit_vector)
        requires
            lo < 16,
            hi < 16,
    ;
}

/// The bytes of a full group.
pub open spec fn stride(f: QuantFormat, gs: int) -> int {
    if f.spec_bits() == 4 {
        (gs + 1) / 2
    } else {
        gs
    }
}

proof fn lemma_group_bounds(n: int, gs: int, g: int)
    requires
        0 <= n,
        0 < gs,
        0 <= g < group_count(n, gs),
    ensures
        0 <= g * gs < n,
        g * gs < group_end(n, gs, g) <= n,
        g + 1 < group_count(n, gs) ==> g * gs + gs <= n && group_end(n, gs, g) == g * gs + gs,
{
    let c = group_count(n, gs);
    vstd::arithmetic::div_mod::lemma_fundamental_div_mod(n + gs - 1, gs);
    vstd::arithmetic::div_mod::lemma_mod_bound(n + gs - 1, gs);
    assert(gs * c == c * gs) by (nonlinear_arith);
    assert(0 <= g * gs && g * gs + gs <= c * gs) by (nonlinear_arith)
        requires
            0 <= g < c,
            0 < gs,
    ;
    if g + 1 < c {
        assert(g * gs + 2 * gs <= c * gs) by (nonlinear_arith)
            requires
                g + 2 <= c,
                0 < gs,
        ;
    }
}

/// The bytes of each group start where those of the groups before it end.
pub proof fn lemma_bytes_at<S: Real>(f: QuantFormat, data: Seq<S>, gs: int, n: int, g: int, p: int)
    requires
        0 < gs,
        0 <= g < n <= group_count(data.len() as int, gs),
        0 <= p < group_bytes(f, group_at(data, gs, g)).len(),
    ensures
        bytes_before(f, data, gs, n).len() >= g * stride(f, gs) + p + 1,
        bytes_before(f, data, gs, n)[g * stride(f, gs) + p] == group_bytes(
            f,
            group_at(data, gs, g),
        )[p],
    decreases n,
{
    lemma_bytes_len(f, data, gs, n - 1);
    if g < n - 1 {
        lemma_bytes_at(f, data, gs, n - 1, g, p);
    }
}

proof fn lemma_bytes_len<S: Real>(f: QuantFormat, data: Seq<S>, gs: int, n: int)
    requires
        0 < gs,
        0 <= n < group_count(data.len() as int, gs),
    ensures
        bytes_before(f, data, gs, n).len() == n * stride(f, gs),
    decreases n,
{
    let s = stride(f, gs);
    if n > 0 {
        lemma_bytes_len(f, data, gs, n - 1);
        lemma_group_bounds(data.len() as int, gs, n - 1);
        assert((n - 1) * s + s == n * s) by (nonlinear_arith);
    } else {
        assert(0 * s == 0) by (nonlinear_arith);
    }
}

/// Packs the groups of numbers.
fn pack_groups<S: Real>(f: QuantFormat, data: &[S], gs: usize) -> (r: (Vec<u8>, Vec<S>))
    requires
        gs > 0,
        data@.len() + gs <= usize::MAX,
    ensures
        r.0@ == bytes_before(f, data@, gs as int, group_count(data@.len() as int, gs as int)),
        r.1@ == group_scales(f, data@, gs as int),
{
    let n: usize = data.len();
    let count: usize = (n + gs - 1) / gs;
    let ghost gi = gs as int;
    let mut out: Vec<u8> = Vec::new();
    let mut scales: Vec<S> = Vec::new();
    for g in 0..count
        invariant
            gi == gs,
            gs > 0,
            n == data@.len(),
            n + gs <= usize::MAX,
            count == group_count(n as int, gi),
            out@ == bytes_before(f, data@, gi, g as int),
            scales@ =~= group_scales(f, data@, gi).take(g as int),
    {
        proof {
            lemma_group_bounds(n as int, gi, g as int);
        }
        let start: usize = g * gs;
        let stop: usize = if n - start <= gs {
            n
        } else {
            start + gs
        };
        let group = vstd::slice::slice_subrange(data, start, stop);
        assert(group@ =~= group_at(data@, gi, g as int));
        let scale = scale_for(f, group);
        scales.push(scale);
        let ghost codes = group_codes(f, group@);
        let m: usize = group.len();
        let mut qs: Vec<u8> = Vec::new();
        for i in 0..m
            invariant
                m == group@.len(),
                scale == group_scale(f, group@),
                codes == group_codes(f, group@),
                qs@ =~= codes.take(i as int),
        {
            qs.push(encode(f, group[i].over(scale)));
        }
        assert(qs@ =~= codes);
        let ghost before = out@;
        if f.bits() == 4 {
            let half: usize = m / 2 + m % 2;
            for p in 0..half
                invariant
                    m == qs@.len(),
                    half == (m + 1) / 2,
                    qs@ == codes,
                    out@ =~= before + paired(codes).take(p as int),
            {
                let lo: u8 = qs[2 * p];
                let hi: u8 = if 2 * p + 1 < m {
                    qs[2 * p + 1]
                } else {
                    0
                };
                out.push(lo | (hi << 4u8));
            }
            assert(paired(codes).take(half as int) =~= paired(codes));
        } else {
            for i in 0..m
                invariant
                    m == qs@.len(),
                    qs@ == codes,
                    out@ =~= before + codes.take(i as int),
            {
                out.push(qs[i]);
            }
            assert(codes.take(m as int) =~= codes);
        }
    }
    assert(scales@ =~= group_scales(f, data@, gi));
    (out, scales)
}

// ---- Tensors

/// A tensor in fewer bits.
#[derive(Debug, Clone)]
pub struct QuantizedTensor<S> {
    pub format: QuantFormat,
    pub data: Vec<u8>,
    /// The scale of each group.
    pub scales: Vec<S>,
    pub shape: Vec<usize>,
    pub group_size: usize,
}

/// The size of the groups of a format, where none is asked for the whole tensor.
pub open spec fn effective_group(f: QuantFormat, n: int, group_size: int) -> int {
    let gs = if group_size == 0 {
        n
    } else {
        group_size
    };
    match f {
        QuantFormat::FP16 | QuantFormat::BF16 => 0,
        QuantFormat::GGUF_Q4 | QuantFormat::GGUF_Q4K | QuantFormat::GGUF_Q8 => position::lesser(
            gs,
            32,
        ),
        _ => gs,
    }
}

/// The format that a tensor is held in.
pub open spec fn held_as(f: QuantFormat) -> QuantFormat {
    if f == QuantFormat::GGUF_Q4K {
        QuantFormat::GGUF_Q4
    } else {
        f
    }
}

/// Two bytes for each number, the lower first.
pub open spec fn half_bytes<W: Word>(f: QuantFormat, data: Seq<W>) -> Seq<u8> {
    Seq::new(
        2 * data.len(),
        |x: int|
            {
                let h = if f == QuantFormat::FP16 {
                    half_of(data[x / 2].spec_bits())
                } else {
                    brain_of(data[x / 2].spec_bits())
                };
                if x % 2 == 0 {
                    (h % 256) as u8
                } else {
                    (h / 256) as u8
                }
            },
    )
}

/// A half of two bytes.
pub open spec fn half_at(data: Seq<u8>, i: int) -> u16 {
    (data[2 * i] + 256 * data[2 * i + 1]) as u16
}

impl<S: Real + Word> QuantizedTensor<S> {
    /// The data has a code for each number and a scale for each group.
    pub open spec fn wf(&self) -> bool {
        let n = tensor::volume(self.shape@);
        &&& tensor::countable(self.shape@)
        &&& match self.format {
            QuantFormat::FP16 | QuantFormat::BF16 => 2 * n <= self.data@.len(),
            QuantFormat::INT8 | QuantFormat::GGUF_Q8 => n > 0 ==> self.group_size > 0
                && self.scales@.len() > 0 && n <= self.data@.len(),
            QuantFormat::INT4 | QuantFormat::NF4 | QuantFormat::NVFP4 => n > 0 ==> {
                &&& self.group_size > 0
                &&& self.scales@.len() > 0
                &&& forall|i: int|
                    0 <= i < n ==> 0 <= #[trigger] self.block_place(i) < self.data@.len()
            },
            QuantFormat::GGUF_Q4 | QuantFormat::GGUF_Q4K => {
                &&& self.group_size > 0
                &&& n + self.group_size <= usize::MAX
                &&& group_count(n, self.group_size as int) <= self.scales@.len()
                &&& forall|i: int|
                    0 <= i < n ==> 0 <= #[trigger] self.block_place(i) < self.data@.len()
            },
        }
    }

    /// The byte that holds the nibble of a number; each group starts with a byte of its own.
    pub open spec fn block_place(&self, i: int) -> int {
        let bs = self.group_size as int;
        (i / bs) * ((bs + 1) / 2) + (i % bs) / 2
    }

    /// The code of a number.
    pub open spec fn code_at(&self, i: int) -> u8 {
        let bs = self.group_size as int;
        match self.format {
            QuantFormat::FP16 | QuantFormat::BF16 | QuantFormat::INT8 | QuantFormat::GGUF_Q8 =>
                self.data@[i],
            _ => if (i % bs) % 2 == 0 {
                self.data@[self.block_place(i)] & 15u8
            } else {
                (self.data@[self.block_place(i)] >> 4u8) & 15u8
            },
        }
    }

    /// The scale of a number.
    pub open spec fn scale_at(&self, i: int) -> S {
        self.scales@[position::lesser(i / (self.group_size as int), self.scales@.len() - 1)]
    }

    /// The number that the data stands for.
    pub open spec fn number_at(&self, i: int) -> S {
        match self.format {
            QuantFormat::FP16 => S::spec_from_bits(float_of(half_at(self.data@, i))),
            QuantFormat::BF16 => S::spec_from_bits((half_at(self.data@, i) as u32) << 16u32),
            _ => level_of::<S>(self.format, self.code_at(i)).spec_times(self.scale_at(i)),
        }
    }

    /// The tensor that the data stands for.
    pub open spec fn restored(&self) -> Value<S> {
        Value {
            data: Seq::new(
                tensor::volume(self.shape@) as nat,
                |i: int| self.number_at(i),
            ),
            shape: self.shape@,
        }
    }

    /// A tensor can be held in a format.
    pub open spec fn can_hold(t: Value<S>, f: QuantFormat, group_size: usize) -> bool {
        match f {
            QuantFormat::FP16 => 2 * t.data.len() <= usize::MAX,
            QuantFormat::BF16 => 2 * t.data.len() <= usize::MAX && forall|i: int|
                0 <= i < t.data.len() ==> rounds((#[trigger] t.data[i]).spec_bits()),
            _ => {
                let gs = effective_group(f, t.data.len() as int, group_size as int);
                gs > 0 && t.data.len() + gs <= usize::MAX
            },
        }
    }

    /// The tensor in the given format.
    pub open spec fn holds(
        &self,
        t: Value<S>,
        f: QuantFormat,
        group_size: usize,
    ) -> bool {
        let gs = effective_group(f, t.data.len() as int, group_size as int);
        &&& self.format == held_as(f)
        &&& self.shape@ == t.shape
        &&& self.group_size == gs
        &&& match f {
            QuantFormat::FP16 | QuantFormat::BF16 => self.data@ == half_bytes(f, t.data)
                && self.scales@ == Seq::<S>::empty(),
            _ => self.data@ == bytes_before(
                f,
                t.data,
                gs,
                group_count(t.data.len() as int, gs),
            ) && self.scales@ == group_scales(f, t.data, gs),
        }
    }

    fn pack_halves(data: &[S], f: QuantFormat) -> (r: Vec<u8>)
        requires
            f == QuantFormat::FP16 || f == QuantFormat::BF16,
            f == QuantFormat::BF16 ==> forall|i: int|
                0 <= i < data@.len() ==> rounds((#[trigger] data@[i]).spec_bits()),
        ensures
            r@ == half_bytes(f, data@),
    {
        let mut out: Vec<u8> = Vec::new();
        for i in 0..data.len()
            invariant
                f == QuantFormat::FP16 || f == QuantFormat::BF16,
                f == QuantFormat::BF16 ==> forall|i: int|
                    0 <= i < data@.len() ==> rounds((#[trigger] data@[i]).spec_bits()),
                out@ =~= half_bytes(f, data@).take(2 * i),
        {
            let h: u16 = match f {
                QuantFormat::FP16 => f32_to_f16(data[i]),
                _ => f32_to_bf16(data[i]),
            };
            assert((2 * i) / 2 == i && (2 * i + 1) / 2 == i);
            out.push((h % 256) as u8);
            out.push((h / 256) as u8);
        }
        out
    }

    /// A tensor in the given format. A group size of zero stands for the whole tensor.
    pub fn quantize(tensor: &Tensor<S>, format: QuantFormat, group_size: usize) -> (r: Self)
        requires
            tensor.wf(),
            Self::can_hold(tensor@, format, group_size),
        ensures
            r.holds(tensor@, format, group_size),
            r.wf(),
    {
        let n: usize = tensor.data.len();
        let whole: usize = if group_size == 0 {
            n
        } else {
            group_size
        };
        let gs: usize = match format {
            QuantFormat::FP16 => 0,
            QuantFormat::BF16 => 0,
            QuantFormat::GGUF_Q4 | QuantFormat::GGUF_Q4K | QuantFormat::GGUF_Q8 => if whole <= 32 {
                whole
            } else {
                32
            },
            _ => whole,
        };
        let kept: QuantFormat = match format {
            QuantFormat::GGUF_Q4K => QuantFormat::GGUF_Q4,
            _ => format,
        };
        let (data, scales) = match format {
            QuantFormat::FP16 | QuantFormat::BF16 => {
                let none: Vec<S> = Vec::new();
                (Self::pack_halves(&tensor.data, format), none)
            },
            _ => pack_groups(format, &tensor.data, gs),
        };
        let r = QuantizedTensor {
            format: kept,
            data,
            scales,
            shape: copy_slice(&tensor.shape),
            group_size: gs,
        };
        proof {
            if format != QuantFormat::FP16 && format != QuantFormat::BF16 {
                assert forall|i: int| 0 <= i < n implies #[trigger] stands(r, tensor@.data, format, i) by {
                    lemma_stands(r, tensor@, format, group_size, i);
                }
                lemma_enough(r, tensor@, format, group_size);
            }
        }
        r
    }

    fn nibble(byte: u8, upper: bool) -> (r: u8)
        ensures
            r == (if upper {
                (byte >> 4u8) & 15u8
            } else {
                byte & 15u8
            }),
    {
        if upper {
            (byte >> 4u8) & 15u8
        } else {
            byte & 15u8
        }
    }

    fn read(&self, i: usize) -> (r: S)
        requires
            self.wf(),
            i < tensor::volume(self.shape@),
        ensures
            r == self.number_at(i as int),
    {
        let dlen: usize = self.data.len();
        match self.format {
            QuantFormat::FP16 => {
                let h: u16 = (self.data[2 * i] as u16) + 256 * (self.data[2 * i + 1] as u16);
                f16_to_f32(h)
            },
            QuantFormat::BF16 => {
                let h: u16 = (self.data[2 * i] as u16) + 256 * (self.data[2 * i + 1] as u16);
                bf16_to_f32(h)
            },
            _ => {
                let bs: usize = self.group_size;
                let code: u8 = match self.format {
                    QuantFormat::FP16 | QuantFormat::BF16 | QuantFormat::INT8
                    | QuantFormat::GGUF_Q8 => self.data[i],
                    _ => {
                        proof {
                            let (q, h) = ((i / bs) as int, ((bs + 1) / 2) as int);
                            assert(0 <= self.block_place(i as int) < dlen);
                            assert(0 <= q * h) by (nonlinear_arith)
                                requires
                                    0 <= q,
                                    0 <= h,
                            ;
                        }
                        Self::nibble(
                            self.data[(i / bs) * (bs / 2 + bs % 2) + (i % bs) / 2],
                            (i % bs) % 2 != 0,
                        )
                    },
                };
                let g: usize = i / bs;
                proof {
                    if self.format == QuantFormat::GGUF_Q4 || self.format == QuantFormat::GGUF_Q4K {
                        let n = tensor::volume(self.shape@);
                        let c = group_count(n, bs as int);
                        vstd::arithmetic::div_mod::lemma_fundamental_div_mod(n + bs - 1, bs as int);
                        vstd::arithmetic::div_mod::lemma_mod_bound(n + bs - 1, bs as int);
                        assert(c > 0) by (nonlinear_arith)
                            requires
                                n + bs - 1 < bs * c + bs,
                                n > 0,
                                bs > 0,
                        ;
                    }
                }
                let last: usize = self.scales.len() - 1;
                let scale = self.scales[if g <= last {
                    g
                } else {
                    last
                }];
                decode::<S>(self.format, code).times(scale)
            },
        }
    }

    /// The tensor that the data stands for.
    pub fn dequantize(&self) -> (r: Tensor<S>)
        requires
            self.wf(),
        ensures
            r.wf(),
            r@ == self.restored(),
            !r.requires_grad,
    {
        let n: usize = count_of(&self.shape);
        let mut data: Vec<S> = Vec::new();
        for i in 0..n
            invariant
                self.wf(),
                n == tensor::volume(self.shape@),
                data@ =~= self.restored().data.take(i as int),
        {
            data.push(self.read(i));
        }
        assert(data@ =~= self.restored().data);
        Tensor::new(data, copy_slice(&self.shape), false)
    }

    /// The bytes that the tensor takes.
    pub fn mem_bytes(&self) -> (r: usize)
        requires
            self.data@.len() + self.scales@.len() * 4 <= usize::MAX,
        ensures
            r == self.data@.len() + self.scales@.len() * 4,
    {
        self.data.len() + self.scales.len() * 4
    }

    /// How many times less that is than four bytes for each number.
    pub fn compression_ratio(&self) -> (r: S)
        requires
            tensor::countable(self.shape@),
            tensor::volume(self.shape@) * 4 <= usize::MAX,
            self.data@.len() + self.scales@.len() * 4 <= usize::MAX,
        ensures
            r == S::spec_count((tensor::volume(self.shape@) * 4) as usize).spec_over(
                S::spec_count((self.data@.len() + self.scales@.len() * 4) as usize),
            ),
    {
        S::count(count_of(&self.shape) * 4).over(S::count(self.mem_bytes()))
    }

    /// The mean distance of the numbers from those that the data stands for.
    pub fn quantization_error(&self, original: &Tensor<S>) -> (r: S)
        requires
            self.wf(),
            original.wf(),
        ensures
            r == number::sum_n(
                |i: int| original@.data[i].spec_minus(self.restored().data[i]).spec_abs(),
                position::lesser(
                    original@.data.len() as int,
                    self.restored().data.len() as int,
                ),
            ).spec_over(
                S::spec_count(
                    (if original@.data.len() < 1 {
                        1
                    } else {
                        original@.data.len() as int
                    }) as usize,
                ),
            ),
    {
        let dequant = self.dequantize();
        let n: usize = if original.data.len() <= dequant.data.len() {
            original.data.len()
        } else {
            dequant.data.len()
        };
        let ghost f = |i: int| original@.data[i].spec_minus(self.restored().data[i]).spec_abs();
        let mut total = S::zero();
        for i in 0..n
            invariant
                n <= original.data@.len(),
                n <= dequant.data@.len(),
                dequant@ == self.restored(),
                f == (|i: int|
                    original@.data[i].spec_minus(self.restored().data[i]).spec_abs()),
                total == number::sum_n(f, i as int),
        {
            total = total.plus(original.data[i].minus(dequant.data[i]).abs());
        }
        let all: usize = if original.data.len() < 1 {
            1
        } else {
            original.data.len()
        };
        total.over(S::count(all))
    }
}

/// The code of a number stands at its place among the bytes.
pub open spec fn stands<S: Real + Word>(
    q: QuantizedTensor<S>,
    data: Seq<S>,
    f: QuantFormat,
    i: int,
) -> bool {
    let gs = q.group_size as int;
    let place = (i / gs) * stride(f, gs) + (if f.spec_bits() == 4 {
        (i % gs) / 2
    } else {
        i % gs
    });
    let code = code_of(f, data[i].spec_over(group_scale(f, group_at(data, gs, i / gs))));
    &&& 0 <= i / gs < q.scales@.len()
    &&& q.scales@[i / gs] == group_scale(f, group_at(data, gs, i / gs))
    &&& 0 <= place < q.data@.len()
    &&& if f.spec_bits() == 4 {
        if (i % gs) % 2 == 0 {
            q.data@[place] & 15u8 == code
        } else {
            (q.data@[place] >> 4u8) & 15u8 == code
        }
    } else {
        q.data@[place] == code
    }
}

proof fn lemma_stands<S: Real + Word>(
    q: QuantizedTensor<S>,
    t: Value<S>,
    f: QuantFormat,
    group_size: usize,
    i: int,
)
    requires
        q.holds(t, f, group_size),
        f != QuantFormat::FP16 && f != QuantFormat::BF16,
        q.group_size > 0,
        0 <= i < t.data.len(),
    ensures
        stands(q, t.data, f, i),
{
    let gs = q.group_size as int;
    let n = t.data.len() as int;
    let (g, j) = (i / gs, i % gs);
    let c = group_count(n, gs);
    vstd::arithmetic::div_mod::lemma_fundamental_div_mod(i, gs);
    vstd::arithmetic::div_mod::lemma_mod_bound(i, gs);
    vstd::arithmetic::div_mod::lemma_div_pos_is_pos(i, gs);
    vstd::arithmetic::div_mod::lemma_fundamental_div_mod(n + gs - 1, gs);
    vstd::arithmetic::div_mod::lemma_mod_bound(n + gs - 1, gs);
    assert(gs * g == g * gs) by (nonlinear_arith);
    assert(g < c) by (nonlinear_arith)
        requires
            g * gs <= n - 1,
            n + gs - 1 < gs * c + gs,
            0 < gs,
    ;
    lemma_group_bounds(n, gs, g);
    let group = group_at(t.data, gs, g);
    assert(group[j] == t.data[i]);
    let codes = group_codes(f, group);
    if f.spec_bits() == 4 {
        assert forall|k: int| 0 <= k < codes.len() implies #[trigger] codes[k] < 16 by {
            lemma_code_small(f, group[k].spec_over(group_scale(f, group)));
        }
        lemma_pairs_come_apart(codes, j);
        lemma_bytes_at(f, t.data, gs, c, g, j / 2);
    } else {
        lemma_bytes_at(f, t.data, gs, c, g, j);
    }
    let s = stride(f, gs);
    assert(0 <= g * s) by (nonlinear_arith)
        requires
            0 <= g,
            0 <= s,
    ;
}

/// The place of a byte in groups is its place in the whole.
proof fn lemma_place_in_groups(i: int, gs: int)
    requires
        0 <= i,
        0 < gs,
    ensures
        (i / gs) * gs + i % gs == i,
{
    vstd::arithmetic::div_mod::lemma_fundamental_div_mod(i, gs);
    let g = i / gs;
    assert(gs * g == g * gs) by (nonlinear_arith);
}

/// There is a byte for each number and a scale for each group.
proof fn lemma_enough<S: Real + Word>(
    q: QuantizedTensor<S>,
    t: Value<S>,
    f: QuantFormat,
    group_size: usize,
)
    requires
        t.wf(),
        q.holds(t, f, group_size),
        f != QuantFormat::FP16 && f != QuantFormat::BF16,
        q.group_size > 0,
        t.data.len() + q.group_size <= usize::MAX,
        forall|i: int| 0 <= i < t.data.len() ==> #[trigger] stands(q, t.data, f, i),
    ensures
        q.wf(),
{
    let gs = q.group_size as int;
    let n = t.data.len() as int;
    match q.format {
        QuantFormat::INT8 | QuantFormat::GGUF_Q8 => {
            if n > 0 {
                assert(stands(q, t.data, f, n - 1));
                lemma_place_in_groups(n - 1, gs);
            }
        },
        _ => {
            if n > 0 {
                assert(stands(q, t.data, f, n - 1));
            }
            assert forall|i: int| 0 <= i < n implies 0 <= #[trigger] q.block_place(i)
                < q.data@.len() by {
                assert(stands(q, t.data, f, i));
            }
        },
    }
}

/// What a quantized tensor gives back for each number is its nearest level, at the scale of its
/// group.
pub proof fn lemma_round_trip<S: Real + Word>(
    q: QuantizedTensor<S>,
    t: Value<S>,
    f: QuantFormat,
    group_size: usize,
    i: int,
)
    requires
        t.wf(),
        q.holds(t, f, group_size),
        f != QuantFormat::FP16 && f != QuantFormat::BF16,
        q.group_size > 0,
        0 <= i < t.data.len(),
    ensures
        ({
            let gs = q.group_size as int;
            let scale = group_scale(f, group_at(t.data, gs, i / gs));
            q.restored().data[i] == level_of::<S>(
                f,
                code_of(f, t.data[i].spec_over(scale)),
            ).spec_times(scale)
        }),
{
    let gs = q.group_size as int;
    lemma_stands(q, t, f, group_size, i);
    lemma_place_in_groups(i, gs);
    let scale = group_scale(f, group_at(t.data, gs, i / gs));
    assert(q.scale_at(i) == scale);
    assert(q.code_at(i) == code_of(f, t.data[i].spec_over(scale)));
}

/// A half comes back as the float of the half.
pub proof fn lemma_halves_round_trip<S: Real + Word>(
    q: QuantizedTensor<S>,
    t: Value<S>,
    f: QuantFormat,
    i: int,
)
    requires
        t.wf(),
        f == QuantFormat::FP16 || f == QuantFormat::BF16,
        q.holds(t, f, 0),
        0 <= i < t.data.len(),
    ensures
        f == QuantFormat::FP16 ==> q.restored().data[i] == S::spec_from_bits(
            float_of(half_of(t.data[i].spec_bits())),
        ),
        f == QuantFormat::BF16 ==> q.restored().data[i] == S::spec_from_bits(
            (brain_of(t.data[i].spec_bits()) as u32) << 16u32,
        ),
{
    assert((2 * i) / 2 == i && (2 * i + 1) / 2 == i);
}

/// A tensor in the given format.
pub fn quantize<S: Real + Word>(tensor: &Tensor<S>, format: QuantFormat, group_size: usize) -> (r:
    QuantizedTensor<S>)
    requires
        tensor.wf(),
        QuantizedTensor::can_hold(tensor@, format, group_size),
    ensures
        r.holds(tensor@, format, group_size),
        r.wf(),
{
    QuantizedTensor::quantize(tensor, format, group_size)
}

// ---- Models

/// A linear layer with its weights in fewer bits.
#[derive(Debug, Clone)]
pub struct QuantizedLinear<S> {
    pub weight: QuantizedTensor<S>,
    pub bias: Option<Vec<S>>,
    pub in_features: usize,
    pub out_features: usize,
}

impl<S: Real + Word> QuantizedLinear<S> {
    /// The weights are a matrix and the bias has a number for each output.
    pub open spec fn wf(&self) -> bool {
        &&& self.weight.wf()
        &&& self.weight.shape@ == seq![self.out_features, self.in_features]
        &&& self.bias matches Some(b) ==> b@.len() == self.out_features
    }

    pub fn from_linear(layer: &Linear<S>, format: QuantFormat, group_size: usize) -> (r: Self)
        requires
            layer.wf(),
            QuantizedTensor::can_hold(layer.weight@, format, group_size),
        ensures
            r.wf(),
            r.weight.holds(layer.weight@, format, group_size),
            r.in_features == layer.weight@.shape[1],
            r.out_features == layer.weight@.shape[0],
            match (r.bias, layer.bias) {
                (Some(a), Some(b)) => a@ == b@.data,
                (None, None) => true,
                _ => false,
            },
    {
        let weight = QuantizedTensor::quantize(&layer.weight, format, group_size);
        let bias = match &layer.bias {
            Some(b) => {
                proof {
                    tensor::lemma_volume_two(layer.weight@.shape[0], 1);
                }
                Some(copy_slice(&b.data))
            },
            None => None,
        };
        let out_f: usize = layer.weight.shape[0];
        let in_f: usize = layer.weight.shape[1];
        assert(layer.weight@.shape =~= seq![out_f, in_f]);
        QuantizedLinear { weight, bias, in_features: in_f, out_features: out_f }
    }

    /// The product with the transposed weights that the data stands for, plus the bias.
    pub open spec fn output(&self, x: Value<S>) -> Value<S> {
        let p = tensor::matmul_value(x, tensor::transpose_value(self.weight.restored()));
        match self.bias {
            Some(b) => tensor::zipped(
                Op::Add,
                p,
                Value { data: b@, shape: seq![self.out_features] },
            ),
            None => p,
        }
    }

    pub fn forward(&self, x: &Tensor<S>) -> (r: Tensor<S>)
        requires
            self.wf(),
            x.wf(),
            x@.shape.len() == 2,
            x@.shape[1] == self.in_features,
            x@.shape[0] * self.out_features <= usize::MAX,
            x@.shape[0] * self.out_features * self.in_features <= usize::MAX,
        ensures
            r.wf(),
            r@ == self.output(x@),
    {
        let w = self.weight.dequantize();
        let w_t = w.transpose();
        let out = x.matmul(&w_t);
        match &self.bias {
            Some(bias) => {
                let one: Vec<usize> = vec![self.out_features];
                proof {
                    assert(one@ =~= seq![self.out_features]);
                    tensor::lemma_volume_two(self.out_features, 1);
                }
                let b = Tensor::from_vec(copy_slice(bias), one);
                proof {
                    nn::lemma_bias_fits(out@, b@);
                }
                out.add(&b)
            },
            None => out,
        }
    }
}

/// All parameters of a model in fewer bits, in pairs of weights and bias.
#[derive(Debug, Clone)]
pub struct QuantizedModel<S> {
    pub layers: Vec<QuantizedLinear<S>>,
    pub format: QuantFormat,
}

/// The size of an axis; zero where there is none.
pub open spec fn axis_of(shape: Seq<usize>, i: int) -> usize {
    if i < shape.len() {
        shape[i]
    } else {
        0
    }
}

/// A layer holds the parameter at a place and, if there is one, the next as its bias.
pub open spec fn layer_holds<S: Real + Word>(
    l: QuantizedLinear<S>,
    params: Seq<Value<S>>,
    i: int,
    f: QuantFormat,
    group_size: usize,
) -> bool {
    &&& l.weight.holds(params[i], f, group_size)
    &&& l.weight.wf()
    &&& l.out_features == axis_of(params[i].shape, 0)
    &&& l.in_features == axis_of(params[i].shape, 1)
    &&& match l.bias {
        Some(b) => i + 1 < params.len() && b@ == params[i + 1].data,
        None => i + 1 >= params.len(),
    }
}

/// The bytes of the first layers.
pub open spec fn layer_bytes<S>(layers: Seq<QuantizedLinear<S>>, n: int) -> int
    decreases n,
{
    if n <= 0 {
        0
    } else {
        let l = layers[n - 1];
        layer_bytes(layers, n - 1) + l.weight.data@.len() + l.weight.scales@.len() * 4 + (
        match l.bias {
            Some(b) => b@.len() * 4,
            None => 0,
        })
    }
}

/// The numbers of the weights of the first layers.
pub open spec fn layer_weights<S>(layers: Seq<QuantizedLinear<S>>, n: int) -> int
    decreases n,
{
    if n <= 0 {
        0
    } else {
        layer_weights(layers, n - 1) + tensor::volume(layers[n - 1].weight.shape@)
    }
}

proof fn lemma_layers_grow<S>(layers: Seq<QuantizedLinear<S>>, n: int, m: int)
    requires
        0 <= n <= m,
    ensures
        0 <= layer_bytes(layers, n) <= layer_bytes(layers, m),
        0 <= layer_weights(layers, n) <= layer_weights(layers, m),
    decreases m,
{
    if m > 0 {
        tensor::lemma_volume_nonneg(layers[m - 1].weight.shape@);
        if n < m {
            lemma_layers_grow(layers, n, m - 1);
        } else {
            lemma_layers_grow(layers, n - 1, m - 1);
        }
    }
}

impl<S: Real + Word> QuantizedModel<S> {
    /// Takes the parameters of a model two by two: weights and bias.
    pub fn from_model<M: Module<S>>(model: &M, format: QuantFormat, group_size: usize) -> (r: Self)
        requires
            model.wf(),
            forall|i: int|
                0 <= i < model.values().len() && i % 2 == 0 ==> QuantizedTensor::can_hold(
                    #[trigger] model.values()[i],
                    format,
                    group_size,
                ),
        ensures
            r.format == format,
            r.layers@.len() == (model.values().len() + 1) / 2,
            forall|k: int|
                0 <= k < r.layers@.len() ==> layer_holds(
                    #[trigger] r.layers@[k],
                    model.values(),
                    2 * k,
                    format,
                    group_size,
                ),
    {
        let params = model.parameters();
        let ghost values = model.values();
        let n: usize = params.len();
        let mut layers: Vec<QuantizedLinear<S>> = Vec::new();
        let pairs: usize = n / 2 + n % 2;
        for k in 0..pairs
            invariant
                n == params@.len(),
                pairs == (n + 1) / 2,
                nn::tensors_are(params@, values),
                forall|i: int|
                    0 <= i < values.len() && i % 2 == 0 ==> QuantizedTensor::can_hold(
                        #[trigger] values[i],
                        format,
                        group_size,
                    ),
                layers@.len() == k,
                forall|j: int|
                    0 <= j < k ==> layer_holds(
                        #[trigger] layers@[j],
                        values,
                        2 * j,
                        format,
                        group_size,
                    ),
        {
            let i: usize = 2 * k;
            proof {
                assert(params@[i as int].wf());
                assert(QuantizedTensor::can_hold(values[i as int], format, group_size));
            }
            let weight = QuantizedTensor::quantize(&params[i], format, group_size);
            let bias = if i + 1 < n {
                assert(params@[i + 1].wf());
                Some(copy_slice(&params[i + 1].data))
            } else {
                None
            };
            let shape = &params[i].shape;
            let out_f: usize = if shape.len() > 0 {
                shape[0]
            } else {
                0
            };
            let in_f: usize = if shape.len() > 1 {
                shape[1]
            } else {
                0
            };
            layers.push(
                QuantizedLinear { weight, bias, in_features: in_f, out_features: out_f },
            );
        }
        QuantizedModel { layers, format }
    }

    /// The bytes that the model takes.
    pub fn mem_bytes(&self) -> (r: usize)
        requires
            layer_bytes(self.layers@, self.layers@.len() as int) <= usize::MAX,
        ensures
            r == layer_bytes(self.layers@, self.layers@.len() as int),
    {
        let n: usize = self.layers.len();
        let mut total: usize = 0;
        for i in 0..n
            invariant
                n == self.layers@.len(),
                layer_bytes(self.layers@, n as int) <= usize::MAX,
                total == layer_bytes(self.layers@, i as int),
        {
            proof {
                lemma_layers_grow(self.layers@, i + 1, n as int);
                lemma_layers_grow(self.layers@, i as int, n as int);
            }
            let l = &self.layers[i];
            let extra: usize = match &l.bias {
                Some(b) => b.len() * 4,
                None => 0,
            };
            total = total + l.weight.mem_bytes() + extra;
        }
        total
    }

    /// How many times less that is than four bytes for each weight.
    pub fn compression_ratio(&self) -> (r: S)
        requires
            layer_bytes(self.layers@, self.layers@.len() as int) <= usize::MAX,
            layer_weights(self.layers@, self.layers@.len() as int) * 4 <= usize::MAX,
            forall|i: int|
                0 <= i < self.layers@.len() ==> tensor::countable(
                    (#[trigger] self.layers@[i]).weight.shape@,
                ),
        ensures
            r == S::spec_count(
                (layer_weights(self.layers@, self.layers@.len() as int) * 4) as usize,
            ).spec_over(
                S::spec_count(
                    (if layer_bytes(self.layers@, self.layers@.len() as int) < 1 {
                        1
                    } else {
                        layer_bytes(self.layers@, self.layers@.len() as int)
                    }) as usize,
                ),
            ),
    {
        let n: usize = self.layers.len();
        let mut total: usize = 0;
        for i in 0..n
            invariant
                n == self.layers@.len(),
                layer_weights(self.layers@, n as int) * 4 <= usize::MAX,
                forall|i: int|
                    0 <= i < self.layers@.len() ==> tensor::countable(
                        (#[trigger] self.layers@[i]).weight.shape@,
                    ),
                total == layer_weights(self.layers@, i as int),
        {
            proof {
                lemma_layers_grow(self.layers@, i + 1, n as int);
            }
            total = total + count_of(&self.layers[i].weight.shape);
        }
        let bytes: usize = self.mem_bytes();
        let bytes: usize = if bytes < 1 {
            1
        } else {
            bytes
        };
        S::count(total * 4).over(S::count(bytes))
    }

    pub fn layers(&self) -> (r: &[QuantizedLinear<S>])
        ensures
            r@ == self.layers@,
    {
        &self.layers
    }
}

} // verus!
