//! What positions do to vectors and to scores, for numbers without rounding.
use vstd::prelude::*;
use crate::ideal;
use crate::ideal::{circles, faithful, product, Reading};
use crate::number::{Number, Real};
use crate::position;
use crate::position::AlibiBias;

verus! {

/// The tables hold the cosine and the sine of an angle for a number and for its partner.
pub open spec fn at_angle<S: Real>(cos: Seq<S>, sin: Seq<S>, at: int, half: int, c: int, angle: S) -> bool {
    &&& cos[at + c] == angle.spec_cos()
    &&& cos[at + (c + half)] == angle.spec_cos()
    &&& sin[at + c] == angle.spec_sin()
    &&& sin[at + (c + half)] == angle.spec_sin()
}

/// What a number and its partner are after they were turned.
proof fn lemma_turned<S: Real>(
    r: Reading<S>,
    row: Seq<S>,
    cos: Seq<S>,
    sin: Seq<S>,
    at: int,
    half: int,
    c: int,
    angle: S,
)
    requires
        faithful(r),
        circles(r),
        0 <= c < half,
        at_angle(cos, sin, at, half, c, angle),
    ensures
        (r.of)(position::rotated_at(row, cos, sin, at, half, c)) == product(
            (r.of)(row[c]),
            (r.cos)((r.of)(angle)),
        ) - product((r.of)(row[c + half]), (r.sin)((r.of)(angle))),
        (r.of)(position::rotated_at(row, cos, sin, at, half, c + half)) == product(
            (r.of)(row[c + half]),
            (r.cos)((r.of)(angle)),
        ) + product((r.of)(row[c]), (r.sin)((r.of)(angle))),
{
    let (x, y) = (row[c], row[c + half]);
    let (u, v) = (angle.spec_cos(), angle.spec_sin());
    ideal::lemma_reads_angle(r, angle, 0real, 0real);
    ideal::lemma_reads(r, x, u);
    ideal::lemma_reads(r, y, v);
    ideal::lemma_reads(r, x.spec_times(u), y.spec_times(v));
    ideal::lemma_reads(r, y, u);
    ideal::lemma_reads(r, x, v);
    ideal::lemma_reads(r, y.spec_times(u), x.spec_times(v));
}

/// Two products multiplied with each other.
proof fn lemma_cross(x: real, c: real, z: real, d: real)
    ensures
        product(product(x, c), product(z, d)) == product(product(x, z), product(c, d)),
{
    ideal::lemma_regroup(x, c, product(z, d));
    ideal::lemma_regroup(c, z, d);
    ideal::lemma_swap(c, z);
    ideal::lemma_regroup(z, c, d);
    ideal::lemma_regroup(x, z, product(c, d));
}

/// Two sums, and two differences, multiplied with each other.
proof fn lemma_expand(a: real, b: real, c: real, d: real)
    ensures
        product(a + b, c + d) == product(a, c) + product(a, d) + product(b, c) + product(b, d),
        product(a - b, c - d) == product(a, c) - product(a, d) - product(b, c) + product(b, d),
{
    ideal::lemma_spread(c + d, a, b);
    ideal::lemma_spread(c - d, a, b);
    ideal::lemma_spread(a, c, d);
    ideal::lemma_spread(b, c, d);
}

/// Two vectors of a plane, each turned, multiplied with each other.
proof fn lemma_plane(x: real, y: real, z: real, w: real, ca: real, sa: real, cb: real, sb: real)
    ensures
        product(product(x, ca) - product(y, sa), product(z, cb) - product(w, sb)) + product(
            product(y, ca) + product(x, sa),
            product(w, cb) + product(z, sb),
        ) == product(product(x, z) + product(y, w), product(ca, cb) + product(sa, sb)) + product(
            product(x, w) - product(y, z),
            product(sa, cb) - product(ca, sb),
        ),
{
    lemma_cross(x, ca, z, cb);
    lemma_cross(x, ca, w, sb);
    lemma_cross(y, sa, z, cb);
    lemma_cross(y, sa, w, sb);
    lemma_cross(y, ca, w, cb);
    lemma_cross(y, ca, z, sb);
    lemma_cross(x, sa, w, cb);
    lemma_cross(x, sa, z, sb);
    lemma_expand(product(x, ca), product(y, sa), product(z, cb), product(w, sb));
    lemma_expand(product(y, ca), product(x, sa), product(w, cb), product(z, sb));
    lemma_expand(product(x, z), product(y, w), product(ca, cb), product(sa, sb));
    lemma_expand(product(x, w), product(y, z), product(sa, cb), product(ca, sb));
}

/// How well a query and a key match after both were turned by their positions depends on the
/// difference of the angles: it is how well they matched, as far as the angles agree, plus the
/// area that leads from the query to the key, as far as they differ.
pub proof fn lemma_match_is_relative<S: Real>(
    r: Reading<S>,
    q: Seq<S>,
    k: Seq<S>,
    cos: Seq<S>,
    sin: Seq<S>,
    i: int,
    j: int,
    half: int,
    c: int,
    a: S,
    b: S,
)
    requires
        faithful(r),
        circles(r),
        0 <= c < half,
        at_angle(cos, sin, i, half, c, a),
        at_angle(cos, sin, j, half, c, b),
    ensures
        product(
            (r.of)(position::rotated_at(q, cos, sin, i, half, c)),
            (r.of)(position::rotated_at(k, cos, sin, j, half, c)),
        ) + product(
            (r.of)(position::rotated_at(q, cos, sin, i, half, c + half)),
            (r.of)(position::rotated_at(k, cos, sin, j, half, c + half)),
        ) == product(
            product((r.of)(q[c]), (r.of)(k[c])) + product(
                (r.of)(q[c + half]),
                (r.of)(k[c + half]),
            ),
            (r.cos)((r.of)(a) - (r.of)(b)),
        ) + product(
            product((r.of)(q[c]), (r.of)(k[c + half])) - product(
                (r.of)(q[c + half]),
                (r.of)(k[c]),
            ),
            (r.sin)((r.of)(a) - (r.of)(b)),
        ),
{
    lemma_turned(r, q, cos, sin, i, half, c, a);
    lemma_turned(r, k, cos, sin, j, half, c, b);
    let (x, y) = ((r.of)(a), (r.of)(b));
    ideal::lemma_reads_angle(r, a, x, y);
    lemma_plane(
        (r.of)(q[c]),
        (r.of)(q[c + half]),
        (r.of)(k[c]),
        (r.of)(k[c + half]),
        (r.cos)(x),
        (r.sin)(x),
        (r.cos)(y),
        (r.sin)(y),
    );
}

/// Turning keeps the length of a number and its partner.
pub proof fn lemma_turning_keeps_length<S: Real>(
    r: Reading<S>,
    row: Seq<S>,
    cos: Seq<S>,
    sin: Seq<S>,
    at: int,
    half: int,
    c: int,
    angle: S,
)
    requires
        faithful(r),
        circles(r),
        0 <= c < half,
        at_angle(cos, sin, at, half, c, angle),
    ensures
        product(
            (r.of)(position::rotated_at(row, cos, sin, at, half, c)),
            (r.of)(position::rotated_at(row, cos, sin, at, half, c)),
        ) + product(
            (r.of)(position::rotated_at(row, cos, sin, at, half, c + half)),
            (r.of)(position::rotated_at(row, cos, sin, at, half, c + half)),
        ) == product((r.of)(row[c]), (r.of)(row[c])) + product(
            (r.of)(row[c + half]),
            (r.of)(row[c + half]),
        ),
{
    lemma_match_is_relative(r, row, row, cos, sin, at, at, half, c, angle, angle);
    ideal::lemma_reads_angle(r, angle, 0real, 0real);
    let (x, y) = ((r.of)(row[c]), (r.of)(row[c + half]));
    ideal::lemma_neutral(product(x, x) + product(y, y));
    ideal::lemma_neutral(product(x, y) - product(y, x));
    assert((r.of)(angle) - (r.of)(angle) == 0real);
}

/// The bias of a position and itself is zero, and each step away from it takes off the slope of
/// the head.
pub proof fn lemma_bias_falls<S: Real>(r: Reading<S>, a: AlibiBias<S>, h: int, i: int, j: int)
    requires
        faithful(r),
        0 <= i <= j < usize::MAX,
    ensures
        (r.of)(a.bias(h, i, i)) == 0real,
        (r.of)(a.bias(h, i, j + 1)) == (r.of)(a.bias(h, i, j)) - (r.of)(a.slopes@[h]),
        (r.of)(a.bias(h, j + 1, i)) == (r.of)(a.bias(h, j, i)) - (r.of)(a.slopes@[h]),
{
    lemma_bias(r, a, h, i, i);
    lemma_bias(r, a, h, i, j);
    lemma_bias(r, a, h, i, j + 1);
    lemma_bias(r, a, h, j, i);
    lemma_bias(r, a, h, j + 1, i);
    let s = (r.of)(a.slopes@[h]);
    let n = (j - i) as real;
    ideal::lemma_neutral(-s);
    assert((j + 1 - i) as real == n + 1real);
    ideal::lemma_spread(-s, n, 1real);
}

proof fn lemma_bias<S: Real>(r: Reading<S>, a: AlibiBias<S>, h: int, i: int, j: int)
    requires
        faithful(r),
        0 <= i <= usize::MAX,
        0 <= j <= usize::MAX,
    ensures
        i <= j ==> (r.of)(a.bias(h, i, j)) == product(-(r.of)(a.slopes@[h]), (j - i) as real),
        j <= i ==> (r.of)(a.bias(h, i, j)) == product(-(r.of)(a.slopes@[h]), (i - j) as real),
{
    let d = position::distance(i, j) as usize;
    ideal::lemma_reads_signs(r, a.slopes@[h], S::spec_zero());
    ideal::lemma_reads_count(r, d, 0);
    ideal::lemma_reads(r, a.slopes@[h].spec_neg(), S::spec_count(d));
}

} // verus!
