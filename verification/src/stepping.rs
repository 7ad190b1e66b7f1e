//! How far numbers are from the steps that stand for them, for numbers without rounding but where
//! they are rounded on purpose.
use vstd::prelude::*;
use crate::ideal;
use crate::ideal::{faithful, product, Reading};
use crate::int8;
use crate::nn;
use crate::number;
use crate::number::{Number, Real};
use crate::quant;
use crate::quantize;

verus! {

/// A number is rounded to one that is no more than a half away.
pub open spec fn rounds<S: Real>(r: Reading<S>) -> bool {
    forall|a: S|
        -1real <= 2real * (#[trigger] (r.of)(a.spec_round()) - (r.of)(a)) <= 1real
}

/// A number between the least and the greatest step is no more than half a step from its step.
pub proof fn lemma_step<S: Real>(r: Reading<S>, x: S, scale: S, low: S, high: S)
    requires
        faithful(r),
        rounds(r),
        (r.of)(scale) > 0real,
        product((r.of)(low), (r.of)(scale)) <= (r.of)(x) <= product((r.of)(high), (r.of)(scale)),
    ensures
        -(r.of)(scale) <= 2real * ((r.of)(nn::step_of(x, scale, low, high)) - (r.of)(x)) <= (r.of)(
            scale,
        ),
{
    let s = (r.of)(scale);
    let part = x.spec_over(scale);
    let near = part.spec_round();
    let held = number::bounded(near, low, high);
    ideal::lemma_reads_over(r, x, scale);
    let (q, l, h) = ((r.of)(part), (r.of)(low), (r.of)(high));
    if q < l {
        ideal::lemma_strict(l - q, s);
        ideal::lemma_spread(s, l, q);
    }
    if q > h {
        ideal::lemma_strict(q - h, s);
        ideal::lemma_spread(s, q, h);
    }
    ideal::lemma_reads_signs(r, near, low);
    ideal::lemma_reads_signs(r, high, near);
    let e = (r.of)(held) - q;
    assert(-1real <= 2real * ((r.of)(near) - q) <= 1real);
    assert(-1real <= e + e <= 1real);
    ideal::lemma_reads(r, held, scale);
    ideal::lemma_spread(s, (r.of)(held), q);
    ideal::lemma_not_negative(1real - (e + e), s);
    ideal::lemma_not_negative(1real + (e + e), s);
    ideal::lemma_spread(s, 1real, e + e);
    ideal::lemma_spread(s, e, e);
    ideal::lemma_neutral(s);
}

/// A coordinate between the least and the greatest step is no more than half a step from its step.
pub proof fn lemma_coordinate_step<S: Real>(r: Reading<S>, x: S, scale: S, top: S)
    requires
        faithful(r),
        rounds(r),
        (r.of)(scale) > 0real,
        -product((r.of)(top), (r.of)(scale)) <= (r.of)(x) <= product((r.of)(top), (r.of)(scale)),
    ensures
        -(r.of)(scale) <= 2real * ((r.of)(quant::stepped(x, scale, top)) - (r.of)(x)) <= (r.of)(
            scale,
        ),
{
    ideal::lemma_reads_signs(r, top, top);
    ideal::lemma_spread((r.of)(scale), 0real, (r.of)(top));
    ideal::lemma_neutral((r.of)(scale));
    assert(0real - (r.of)(top) == -(r.of)(top));
    lemma_step(r, x, scale, top.spec_neg(), top);
}

/// The distance of two numbers.
pub open spec fn apart(x: real, y: real) -> real {
    if x < y {
        y - x
    } else {
        x - y
    }
}

/// No level is nearer than the one that is chosen.
pub proof fn lemma_nearest<S: Real>(r: Reading<S>, levels: Seq<S>, x: S, n: int)
    requires
        faithful(r),
        0 < n <= levels.len(),
        forall|j: int|
            0 <= j < n ==> apart((r.of)(#[trigger] levels[j]), (r.of)(x)) < (r.of)(
                S::spec_highest(),
            ),
    ensures
        0 <= quantize::nearest(levels, x, n).0 < n,
        (r.of)(quantize::nearest(levels, x, n).1) == apart(
            (r.of)(levels[quantize::nearest(levels, x, n).0]),
            (r.of)(x),
        ),
        forall|j: int|
            0 <= j < n ==> apart(
                (r.of)(levels[quantize::nearest(levels, x, n).0]),
                (r.of)(x),
            ) <= apart((r.of)(#[trigger] levels[j]), (r.of)(x)),
    decreases n,
{
    let best = quantize::nearest(levels, x, n - 1);
    let last = levels[n - 1];
    let d = last.spec_minus(x).spec_abs();
    ideal::lemma_reads(r, last, x);
    ideal::lemma_reads_signs(r, last.spec_minus(x), x);
    ideal::lemma_reads_signs(r, d, best.1);
    assert((r.of)(d) == apart((r.of)(last), (r.of)(x)));
    if n > 1 {
        lemma_nearest(r, levels, x, n - 1);
    }
}

/// The greatest distance from zero is that of one of the numbers, and none is farther.
pub proof fn lemma_widest<S: Real>(r: Reading<S>, row: Seq<S>, n: int)
    requires
        faithful(r),
        0 <= n <= row.len(),
    ensures
        (r.of)(int8::widest(row, n)) >= 0real,
        forall|j: int|
            0 <= j < n ==> apart((r.of)(#[trigger] row[j]), 0real) <= (r.of)(int8::widest(row, n)),
        n > 0 ==> exists|j: int|
            0 <= j < n && apart((r.of)(#[trigger] row[j]), 0real) == (r.of)(int8::widest(row, n)),
    decreases n,
{
    ideal::lemma_reads_signs(r, S::spec_zero(), S::spec_zero());
    if n > 0 {
        lemma_widest(r, row, n - 1);
        let last = row[n - 1];
        let before = int8::widest(row, n - 1);
        ideal::lemma_reads_signs(r, last, last);
        ideal::lemma_reads_signs(r, before, last.spec_abs());
        assert((r.of)(last.spec_abs()) == apart((r.of)(row[n - 1]), 0real));
        if (r.of)(before) >= (r.of)(last.spec_abs()) {
            if n > 1 {
                let j = choose|j: int|
                    0 <= j < n - 1 && apart((r.of)(#[trigger] row[j]), 0real) == (r.of)(before);
                assert(apart((r.of)(row[j]), 0real) == (r.of)(int8::widest(row, n)));
            } else {
                assert(apart((r.of)(row[0]), 0real) == (r.of)(int8::widest(row, n)));
            }
        } else {
            assert(apart((r.of)(row[n - 1]), 0real) == (r.of)(int8::widest(row, n)));
        }
    }
}

/// The numbers of a row are at most 127 times its scale from zero.
pub proof fn lemma_row_scale<S: Real>(r: Reading<S>, row: Seq<S>, j: int)
    requires
        faithful(r),
        0 <= j < row.len(),
    ensures
        (r.of)(int8::row_scale(row)) > 0real,
        apart((r.of)(row[j]), 0real) <= product((r.of)(int8::row_scale(row)), 127real),
        (r.of)(row[j]) != 0real ==> product((r.of)(int8::row_scale(row)), 127real) == (r.of)(
            int8::widest(row, row.len() as int),
        ),
{
    let max = int8::widest(row, row.len() as int);
    lemma_widest(r, row, row.len() as int);
    ideal::lemma_reads_signs(r, S::spec_zero(), max);
    ideal::lemma_reads_count(r, 127, 0);
    ideal::lemma_reads(r, S::spec_one(), S::spec_one());
    ideal::lemma_reads_over(r, max, S::spec_count(127));
    ideal::lemma_neutral(127real);
    let s = (r.of)(int8::row_scale(row));
    assert(apart((r.of)(row[j]), 0real) <= (r.of)(max));
    if (r.of)(max) > 0real && s <= 0real {
        ideal::lemma_not_negative(0real - s, 127real);
        ideal::lemma_spread(127real, 0real, s);
    }
}

} // verus!
