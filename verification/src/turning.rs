//! What turning a multivector and turning it back do on two's complement integers.
use vstd::prelude::*;
use crate::exact;
use crate::number::Number;
use crate::quant;
use crate::quant::Rotor;

verus! {

spec fn signed(x: i32, plus: bool, y: i32) -> i32 {
    if plus {
        x.spec_plus(y)
    } else {
        x.spec_minus(y)
    }
}

spec fn isigned(x: int, plus: bool, y: int) -> int {
    if plus {
        x + y
    } else {
        x - y
    }
}

proof fn lemma_signed(x: i32, x2: int, plus: bool, y: i32, y2: int)
    requires
        exact::cong(x as int, x2),
        exact::cong(y as int, y2),
    ensures
        exact::cong(signed(x, plus, y) as int, isigned(x2, plus, y2)),
{
    exact::lemma_ops(x, y);
    exact::lemma_sum(x as int, x2, y as int, y2);
    exact::lemma_trans(signed(x, plus, y) as int, isigned(x as int, plus, y as int), isigned(x2, plus, y2));
}

/// The factors of a product are those of another, modulo two to the power of 32.
spec fn near(x: (i32, i32), y: (int, int)) -> bool {
    exact::cong(x.0 as int, y.0) && exact::cong(x.1 as int, y.1)
}

proof fn lemma_term(x: (i32, i32), y: (int, int))
    requires
        near(x, y),
    ensures
        exact::cong(x.0.spec_times(x.1) as int, y.0 * y.1),
{
    exact::lemma_ops(x.0, x.1);
    exact::lemma_product(x.0 as int, y.0, x.1 as int, y.1);
    exact::lemma_trans(x.0.spec_times(x.1) as int, x.0 * x.1, y.0 * y.1);
}

/// Three products, each added to a first one or taken from it.
proof fn lemma_row(
    p: (bool, bool, bool),
    x: (i32, i32),
    x1: (i32, i32),
    x2: (i32, i32),
    x3: (i32, i32),
    y: (int, int),
    y1: (int, int),
    y2: (int, int),
    y3: (int, int),
)
    requires
        near(x, y),
        near(x1, y1),
        near(x2, y2),
        near(x3, y3),
    ensures
        exact::cong(
            signed(
                signed(
                    signed(x.0.spec_times(x.1), p.0, x1.0.spec_times(x1.1)),
                    p.1,
                    x2.0.spec_times(x2.1),
                ),
                p.2,
                x3.0.spec_times(x3.1),
            ) as int,
            isigned(isigned(isigned(y.0 * y.1, p.0, y1.0 * y1.1), p.1, y2.0 * y2.1), p.2, y3.0 * y3.1),
        ),
{
    lemma_term(x, y);
    lemma_term(x1, y1);
    lemma_term(x2, y2);
    lemma_term(x3, y3);
    let (u, v) = (x.0.spec_times(x.1), y.0 * y.1);
    let (u1, v1) = (x1.0.spec_times(x1.1), y1.0 * y1.1);
    let (u2, v2) = (x2.0.spec_times(x2.1), y2.0 * y2.1);
    let (u3, v3) = (x3.0.spec_times(x3.1), y3.0 * y3.1);
    lemma_signed(u, v, p.0, u1, v1);
    let (w, z) = (signed(u, p.0, u1), isigned(v, p.0, v1));
    lemma_signed(w, z, p.1, u2, v2);
    lemma_signed(signed(w, p.1, u2), isigned(z, p.1, v2), p.2, u3, v3);
}

/// The integers are the components of a multivector, modulo two to the power of 32.
spec fn stands_for(y: Seq<int>, x: Seq<i32>) -> bool {
    &&& x.len() == 8
    &&& y.len() == 8
    &&& exact::cong(x[0] as int, y[0])
    &&& exact::cong(x[1] as int, y[1])
    &&& exact::cong(x[2] as int, y[2])
    &&& exact::cong(x[3] as int, y[3])
    &&& exact::cong(x[4] as int, y[4])
    &&& exact::cong(x[5] as int, y[5])
    &&& exact::cong(x[6] as int, y[6])
    &&& exact::cong(x[7] as int, y[7])
}

spec fn stands_for_rotor(q: Seq<int>, r: Rotor<i32>) -> bool {
    &&& exact::cong(r.s as int, q[0])
    &&& exact::cong(r.p12 as int, q[1])
    &&& exact::cong(r.p13 as int, q[2])
    &&& exact::cong(r.p23 as int, q[3])
}

/// The product of a rotor and a multivector, in the integers.
spec fn ileft(q: Seq<int>, x: Seq<int>) -> Seq<int> {
    let (s, a, b, c) = (q[0], q[1], q[2], q[3]);
    seq![
        s * x[0] - a * x[4] - b * x[5] - c * x[6],
        s * x[1] + a * x[2] + b * x[3] - c * x[7],
        s * x[2] - a * x[1] + c * x[3] + b * x[7],
        s * x[3] - b * x[1] - c * x[2] - a * x[7],
        s * x[4] + a * x[0] - b * x[6] + c * x[5],
        s * x[5] + b * x[0] + a * x[6] - c * x[4],
        s * x[6] + c * x[0] - a * x[5] + b * x[4],
        s * x[7] + a * x[3] - b * x[2] + c * x[1],
    ]
}

/// The product of a multivector and a rotor, in the integers.
spec fn iright(q: Seq<int>, x: Seq<int>) -> Seq<int> {
    let (s, a, b, c) = (q[0], q[1], q[2], q[3]);
    seq![
        s * x[0] - a * x[4] - b * x[5] - c * x[6],
        s * x[1] - a * x[2] - b * x[3] - c * x[7],
        s * x[2] + a * x[1] - c * x[3] + b * x[7],
        s * x[3] + b * x[1] + c * x[2] - a * x[7],
        s * x[4] + a * x[0] + b * x[6] - c * x[5],
        s * x[5] + b * x[0] - a * x[6] + c * x[4],
        s * x[6] + c * x[0] + a * x[5] - b * x[4],
        s * x[7] + a * x[3] - b * x[2] + c * x[1],
    ]
}

proof fn lemma_from_left(r: Rotor<i32>, q: Seq<int>, x: Seq<i32>, y: Seq<int>)
    requires
        stands_for_rotor(q, r),
        stands_for(y, x),
    ensures
        stands_for(ileft(q, y), quant::from_left(r, x)),
{
    lemma_row(
        (false, false, false),
        (r.s, x[0]),
        (r.p12, x[4]),
        (r.p13, x[5]),
        (r.p23, x[6]),
        (q[0], y[0]),
        (q[1], y[4]),
        (q[2], y[5]),
        (q[3], y[6]),
    );
    lemma_row(
        (true, true, false),
        (r.s, x[1]),
        (r.p12, x[2]),
        (r.p13, x[3]),
        (r.p23, x[7]),
        (q[0], y[1]),
        (q[1], y[2]),
        (q[2], y[3]),
        (q[3], y[7]),
    );
    lemma_row(
        (false, true, true),
        (r.s, x[2]),
        (r.p12, x[1]),
        (r.p23, x[3]),
        (r.p13, x[7]),
        (q[0], y[2]),
        (q[1], y[1]),
        (q[3], y[3]),
        (q[2], y[7]),
    );
    lemma_row(
        (false, false, false),
        (r.s, x[3]),
        (r.p13, x[1]),
        (r.p23, x[2]),
        (r.p12, x[7]),
        (q[0], y[3]),
        (q[2], y[1]),
        (q[3], y[2]),
        (q[1], y[7]),
    );
    lemma_row(
        (true, false, true),
        (r.s, x[4]),
        (r.p12, x[0]),
        (r.p13, x[6]),
        (r.p23, x[5]),
        (q[0], y[4]),
        (q[1], y[0]),
        (q[2], y[6]),
        (q[3], y[5]),
    );
    lemma_row(
        (true, true, false),
        (r.s, x[5]),
        (r.p13, x[0]),
        (r.p12, x[6]),
        (r.p23, x[4]),
        (q[0], y[5]),
        (q[2], y[0]),
        (q[1], y[6]),
        (q[3], y[4]),
    );
    lemma_row(
        (true, false, true),
        (r.s, x[6]),
        (r.p23, x[0]),
        (r.p12, x[5]),
        (r.p13, x[4]),
        (q[0], y[6]),
        (q[3], y[0]),
        (q[1], y[5]),
        (q[2], y[4]),
    );
    lemma_row(
        (true, false, true),
        (r.s, x[7]),
        (r.p12, x[3]),
        (r.p13, x[2]),
        (r.p23, x[1]),
        (q[0], y[7]),
        (q[1], y[3]),
        (q[2], y[2]),
        (q[3], y[1]),
    );
}

#[verifier::rlimit(50)]
#[verifier::spinoff_prover]
proof fn lemma_from_right(r: Rotor<i32>, q: Seq<int>, x: Seq<i32>, y: Seq<int>)
    requires
        stands_for_rotor(q, r),
        stands_for(y, x),
    ensures
        stands_for(iright(q, y), quant::from_right(x, r)),
{
    lemma_row(
        (false, false, false),
        (r.s, x[0]),
        (r.p12, x[4]),
        (r.p13, x[5]),
        (r.p23, x[6]),
        (q[0], y[0]),
        (q[1], y[4]),
        (q[2], y[5]),
        (q[3], y[6]),
    );
    lemma_row(
        (false, false, false),
        (r.s, x[1]),
        (r.p12, x[2]),
        (r.p13, x[3]),
        (r.p23, x[7]),
        (q[0], y[1]),
        (q[1], y[2]),
        (q[2], y[3]),
        (q[3], y[7]),
    );
    lemma_row(
        (true, false, true),
        (r.s, x[2]),
        (r.p12, x[1]),
        (r.p23, x[3]),
        (r.p13, x[7]),
        (q[0], y[2]),
        (q[1], y[1]),
        (q[3], y[3]),
        (q[2], y[7]),
    );
    lemma_row(
        (true, true, false),
        (r.s, x[3]),
        (r.p13, x[1]),
        (r.p23, x[2]),
        (r.p12, x[7]),
        (q[0], y[3]),
        (q[2], y[1]),
        (q[3], y[2]),
        (q[1], y[7]),
    );
    lemma_row(
        (true, true, false),
        (r.s, x[4]),
        (r.p12, x[0]),
        (r.p13, x[6]),
        (r.p23, x[5]),
        (q[0], y[4]),
        (q[1], y[0]),
        (q[2], y[6]),
        (q[3], y[5]),
    );
    lemma_row(
        (true, false, true),
        (r.s, x[5]),
        (r.p13, x[0]),
        (r.p12, x[6]),
        (r.p23, x[4]),
        (q[0], y[5]),
        (q[2], y[0]),
        (q[1], y[6]),
        (q[3], y[4]),
    );
    lemma_row(
        (true, true, false),
        (r.s, x[6]),
        (r.p23, x[0]),
        (r.p12, x[5]),
        (r.p13, x[4]),
        (q[0], y[6]),
        (q[3], y[0]),
        (q[1], y[5]),
        (q[2], y[4]),
    );
    lemma_row(
        (true, false, true),
        (r.s, x[7]),
        (r.p12, x[3]),
        (r.p13, x[2]),
        (r.p23, x[1]),
        (q[0], y[7]),
        (q[1], y[3]),
        (q[2], y[2]),
        (q[3], y[1]),
    );
}

/// The product of two quaternions.
spec fn quat(p: (int, int, int, int), q: (int, int, int, int)) -> (int, int, int, int) {
    (
        p.0 * q.0 - p.1 * q.1 - p.2 * q.2 - p.3 * q.3,
        p.0 * q.1 + p.1 * q.0 - p.2 * q.3 + p.3 * q.2,
        p.0 * q.2 + p.2 * q.0 + p.1 * q.3 - p.3 * q.1,
        p.0 * q.3 + p.3 * q.0 - p.1 * q.2 + p.2 * q.1,
    )
}

proof fn lemma_spread(x: int, y: int, z: int, w: int, k: int)
    by (nonlinear_arith)
    ensures
        (x - y - z - w) * k == x * k - y * k - z * k - w * k,
        (x + y - z + w) * k == x * k + y * k - z * k + w * k,
        (x + y + z - w) * k == x * k + y * k + z * k - w * k,
        k * (x - y - z - w) == k * x - k * y - k * z - k * w,
        k * (x + y - z + w) == k * x + k * y - k * z + k * w,
        k * (x + y + z - w) == k * x + k * y + k * z - k * w,
{
}

proof fn lemma_quat_times(p: (int, int, int, int), q: (int, int, int, int), k: int)
    ensures
        quat(p, q).0 * k == p.0 * q.0 * k - p.1 * q.1 * k - p.2 * q.2 * k - p.3 * q.3 * k,
        quat(p, q).1 * k == p.0 * q.1 * k + p.1 * q.0 * k - p.2 * q.3 * k + p.3 * q.2 * k,
        quat(p, q).2 * k == p.0 * q.2 * k + p.2 * q.0 * k + p.1 * q.3 * k - p.3 * q.1 * k,
        quat(p, q).3 * k == p.0 * q.3 * k + p.3 * q.0 * k - p.1 * q.2 * k + p.2 * q.1 * k,
{
    lemma_spread(p.0 * q.0, p.1 * q.1, p.2 * q.2, p.3 * q.3, k);
    lemma_spread(p.0 * q.1, p.1 * q.0, p.2 * q.3, p.3 * q.2, k);
    lemma_spread(p.0 * q.2, p.2 * q.0, p.1 * q.3, p.3 * q.1, k);
    lemma_spread(p.0 * q.3, p.3 * q.0, p.1 * q.2, p.2 * q.1, k);
}

proof fn lemma_times_quat(k: int, p: (int, int, int, int), q: (int, int, int, int))
    ensures
        k * quat(p, q).0 == k * p.0 * q.0 - k * p.1 * q.1 - k * p.2 * q.2 - k * p.3 * q.3,
        k * quat(p, q).1 == k * p.0 * q.1 + k * p.1 * q.0 - k * p.2 * q.3 + k * p.3 * q.2,
        k * quat(p, q).2 == k * p.0 * q.2 + k * p.2 * q.0 + k * p.1 * q.3 - k * p.3 * q.1,
        k * quat(p, q).3 == k * p.0 * q.3 + k * p.3 * q.0 - k * p.1 * q.2 + k * p.2 * q.1,
{
    lemma_spread(p.0 * q.0, p.1 * q.1, p.2 * q.2, p.3 * q.3, k);
    lemma_spread(p.0 * q.1, p.1 * q.0, p.2 * q.3, p.3 * q.2, k);
    lemma_spread(p.0 * q.2, p.2 * q.0, p.1 * q.3, p.3 * q.1, k);
    lemma_spread(p.0 * q.3, p.3 * q.0, p.1 * q.2, p.2 * q.1, k);
    lemma_triples(k, p, q.0);
    lemma_triples(k, p, q.1);
    lemma_triples(k, p, q.2);
    lemma_triples(k, p, q.3);
}

proof fn lemma_triples(k: int, p: (int, int, int, int), z: int)
    ensures
        k * (p.0 * z) == k * p.0 * z,
        k * (p.1 * z) == k * p.1 * z,
        k * (p.2 * z) == k * p.2 * z,
        k * (p.3 * z) == k * p.3 * z,
{
    vstd::arithmetic::mul::lemma_mul_is_associative(k, p.0, z);
    vstd::arithmetic::mul::lemma_mul_is_associative(k, p.1, z);
    vstd::arithmetic::mul::lemma_mul_is_associative(k, p.2, z);
    vstd::arithmetic::mul::lemma_mul_is_associative(k, p.3, z);
}

proof fn lemma_quat_associates(
    p: (int, int, int, int),
    q: (int, int, int, int),
    r: (int, int, int, int),
)
    ensures
        quat(quat(p, q), r) == quat(p, quat(q, r)),
{
    lemma_quat_times(p, q, r.0);
    lemma_quat_times(p, q, r.1);
    lemma_quat_times(p, q, r.2);
    lemma_quat_times(p, q, r.3);
    lemma_times_quat(p.0, q, r);
    lemma_times_quat(p.1, q, r);
    lemma_times_quat(p.2, q, r);
    lemma_times_quat(p.3, q, r);
}

spec fn conjugate(q: (int, int, int, int)) -> (int, int, int, int) {
    (q.0, -q.1, -q.2, -q.3)
}

spec fn scaled(k: int, q: (int, int, int, int)) -> (int, int, int, int) {
    (k * q.0, k * q.1, k * q.2, k * q.3)
}

/// A quaternion with its conjugate is a number, the square of its length.
proof fn lemma_quat_norm(q: (int, int, int, int), n: int)
    requires
        n == q.0 * q.0 + q.1 * q.1 + q.2 * q.2 + q.3 * q.3,
    ensures
        quat(conjugate(q), q) == (n, 0int, 0int, 0int),
{
    let (a, b, c, d) = q;
    assert((-b) * b == -(b * b) && (-c) * c == -(c * c) && (-d) * d == -(d * d)) by (nonlinear_arith);
    assert((-b) * a == -(a * b) && (-c) * a == -(a * c) && (-d) * a == -(a * d)) by (nonlinear_arith);
    assert((-c) * d == -(d * c) && (-d) * c == -(d * c)) by (nonlinear_arith);
    assert((-b) * d == -(d * b) && (-d) * b == -(d * b)) by (nonlinear_arith);
    assert((-b) * c == -(c * b) && (-c) * b == -(c * b)) by (nonlinear_arith);
}

proof fn lemma_quat_number(n: int, q: (int, int, int, int))
    ensures
        quat((n, 0int, 0int, 0int), q) == scaled(n, q),
        quat(q, (n, 0int, 0int, 0int)) == scaled(n, q),
{
    let (a, b, c, d) = q;
    assert(a * n == n * a && b * n == n * b && c * n == n * c && d * n == n * d)
        by (nonlinear_arith);
    assert(0 * a == 0 && 0 * b == 0 && 0 * c == 0 && 0 * d == 0);
}

/// Between a quaternion's conjugate and the quaternion, what stood between the quaternion and its
/// conjugate comes back, times the square of the square of the length.
proof fn lemma_quat_undone(q: (int, int, int, int), x: (int, int, int, int), n: int)
    requires
        n == q.0 * q.0 + q.1 * q.1 + q.2 * q.2 + q.3 * q.3,
    ensures
        quat(quat(conjugate(q), quat(quat(q, x), conjugate(q))), q) == scaled(n, scaled(n, x)),
{
    let c = conjugate(q);
    let m = (n, 0int, 0int, 0int);
    lemma_quat_norm(q, n);
    lemma_quat_associates(c, quat(q, x), c);
    lemma_quat_associates(c, q, x);
    lemma_quat_number(n, x);
    let y = scaled(n, x);
    lemma_quat_associates(y, c, q);
    lemma_quat_number(n, y);
}

/// The even components of a multivector.
spec fn even(x: Seq<int>) -> (int, int, int, int) {
    (x[0], x[4], x[5], x[6])
}

/// The odd components of a multivector.
spec fn odd(x: Seq<int>) -> (int, int, int, int) {
    (x[7], -x[3], x[2], -x[1])
}

spec fn parts(q: Seq<int>) -> (int, int, int, int) {
    (q[0], q[1], q[2], q[3])
}

proof fn lemma_halves(q: Seq<int>, x: Seq<int>)
    ensures
        even(ileft(q, x)) == quat(parts(q), even(x)),
        odd(ileft(q, x)) == quat(parts(q), odd(x)),
        even(iright(q, x)) == quat(even(x), parts(q)),
        odd(iright(q, x)) == quat(odd(x), parts(q)),
{
    let (s, a, b, c) = parts(q);
    assert forall|k: int, i: int| #![trigger q[k], x[i]]
        q[k] * (-x[i]) == -(q[k] * x[i]) && (-x[i]) * q[k] == -(q[k] * x[i]) && x[i] * q[k] == q[k]
            * x[i] by {
        let (u, v) = (q[k], x[i]);
        assert(u * (-v) == -(u * v) && (-v) * u == -(u * v) && v * u == u * v) by (nonlinear_arith);
    }
}

/// Turning back undoes turning, up to the square of the rotor's squared length: all of it where
/// the rotor has length one.
pub proof fn lemma_turning_back(r: Rotor<i32>, x: Seq<i32>, i: int)
    requires
        x.len() == 8,
        0 <= i < 8,
    ensures
        ({
            let n = r.s * r.s + r.p12 * r.p12 + r.p13 * r.p13 + r.p23 * r.p23;
            exact::cong(quant::turned_back(r, quant::turned(r, x))[i] as int, n * (n * x[i]))
        }),
{
    let n = r.s * r.s + r.p12 * r.p12 + r.p13 * r.p13 + r.p23 * r.p23;
    let q = seq![r.s as int, r.p12 as int, r.p13 as int, r.p23 as int];
    let t = quant::reverse_of(r);
    let p = seq![r.s as int, -r.p12, -r.p13, -r.p23];
    let y = Seq::new(8, |j: int| x[j] as int);
    assert forall|z: int| #[trigger] exact::cong(z, z) by {
        exact::lemma_refl(z);
    }
    exact::lemma_ops(0, r.p12);
    exact::lemma_ops(0, r.p13);
    exact::lemma_ops(0, r.p23);
    let y1 = ileft(q, y);
    lemma_from_left(r, q, x, y);
    let x1 = quant::from_left(r, x);
    let y2 = iright(p, y1);
    lemma_from_right(t, p, x1, y1);
    let x2 = quant::from_right(x1, t);
    let y3 = ileft(p, y2);
    lemma_from_left(t, p, x2, y2);
    let x3 = quant::from_left(t, x2);
    let y4 = iright(q, y3);
    lemma_from_right(r, q, x3, y3);
    lemma_halves(q, y);
    lemma_halves(p, y1);
    lemma_halves(p, y2);
    lemma_halves(q, y3);
    assert(parts(p) == conjugate(parts(q)));
    lemma_quat_undone(parts(q), even(y), n);
    lemma_quat_undone(parts(q), odd(y), n);
    assert(even(y4) == scaled(n, scaled(n, even(y))));
    assert(odd(y4) == scaled(n, scaled(n, odd(y))));
    let v = x[i] as int;
    assert(n * (n * (-v)) == -(n * (n * v))) by (nonlinear_arith);
    assert(y4[i] == n * (n * v));
}

spec fn quat_length(q: (int, int, int, int)) -> int {
    q.0 * q.0 + q.1 * q.1 + q.2 * q.2 + q.3 * q.3
}

proof fn lemma_minus_times(x: int, y: int)
    by (nonlinear_arith)
    ensures
        (-x) * (-y) == y * x,
        (-x) * y == -(y * x),
        x * (-y) == -(y * x),
        x * y == y * x,
{
}

proof fn lemma_conjugate_product(p: (int, int, int, int), q: (int, int, int, int))
    ensures
        conjugate(quat(p, q)) == quat(conjugate(q), conjugate(p)),
{
    lemma_minus_times(q.0, p.0);
    lemma_minus_times(q.0, p.1);
    lemma_minus_times(q.0, p.2);
    lemma_minus_times(q.0, p.3);
    lemma_minus_times(q.1, p.0);
    lemma_minus_times(q.1, p.1);
    lemma_minus_times(q.1, p.2);
    lemma_minus_times(q.1, p.3);
    lemma_minus_times(q.2, p.0);
    lemma_minus_times(q.2, p.1);
    lemma_minus_times(q.2, p.2);
    lemma_minus_times(q.2, p.3);
    lemma_minus_times(q.3, p.0);
    lemma_minus_times(q.3, p.1);
    lemma_minus_times(q.3, p.2);
    lemma_minus_times(q.3, p.3);
}

/// The squared length of a product is the product of the squared lengths.
proof fn lemma_quat_lengths(p: (int, int, int, int), q: (int, int, int, int))
    ensures
        quat_length(quat(p, q)) == quat_length(q) * quat_length(p),
{
    let (k, n) = (quat_length(p), quat_length(q));
    let (c, d) = (conjugate(p), conjugate(q));
    let m = (k, 0int, 0int, 0int);
    lemma_quat_norm(p, k);
    lemma_quat_norm(q, n);
    lemma_quat_norm(quat(p, q), quat_length(quat(p, q)));
    lemma_conjugate_product(p, q);
    lemma_quat_associates(d, c, quat(p, q));
    lemma_quat_associates(c, p, q);
    lemma_quat_number(k, q);
    lemma_quat_associates(d, q, m);
    lemma_quat_number(n, m);
}

/// The squared length of a multivector.
pub open spec fn squared_length(x: Seq<i32>) -> int {
    x[0] * x[0] + x[1] * x[1] + x[2] * x[2] + x[3] * x[3] + x[4] * x[4] + x[5] * x[5] + x[6] * x[6]
        + x[7] * x[7]
}

spec fn isquared_length(x: Seq<int>) -> int {
    x[0] * x[0] + x[1] * x[1] + x[2] * x[2] + x[3] * x[3] + x[4] * x[4] + x[5] * x[5] + x[6] * x[6]
        + x[7] * x[7]
}

proof fn lemma_squares(x: Seq<i32>, y: Seq<int>)
    requires
        stands_for(y, x),
    ensures
        exact::cong(squared_length(x), isquared_length(y)),
{
    exact::lemma_product(x[0] as int, y[0], x[0] as int, y[0]);
    exact::lemma_product(x[1] as int, y[1], x[1] as int, y[1]);
    exact::lemma_product(x[2] as int, y[2], x[2] as int, y[2]);
    exact::lemma_product(x[3] as int, y[3], x[3] as int, y[3]);
    exact::lemma_product(x[4] as int, y[4], x[4] as int, y[4]);
    exact::lemma_product(x[5] as int, y[5], x[5] as int, y[5]);
    exact::lemma_product(x[6] as int, y[6], x[6] as int, y[6]);
    exact::lemma_product(x[7] as int, y[7], x[7] as int, y[7]);
    let (a, b) = (x[0] * x[0], y[0] * y[0]);
    exact::lemma_sum(a, b, x[1] * x[1], y[1] * y[1]);
    let (a, b) = (a + x[1] * x[1], b + y[1] * y[1]);
    exact::lemma_sum(a, b, x[2] * x[2], y[2] * y[2]);
    let (a, b) = (a + x[2] * x[2], b + y[2] * y[2]);
    exact::lemma_sum(a, b, x[3] * x[3], y[3] * y[3]);
    let (a, b) = (a + x[3] * x[3], b + y[3] * y[3]);
    exact::lemma_sum(a, b, x[4] * x[4], y[4] * y[4]);
    let (a, b) = (a + x[4] * x[4], b + y[4] * y[4]);
    exact::lemma_sum(a, b, x[5] * x[5], y[5] * y[5]);
    let (a, b) = (a + x[5] * x[5], b + y[5] * y[5]);
    exact::lemma_sum(a, b, x[6] * x[6], y[6] * y[6]);
    let (a, b) = (a + x[6] * x[6], b + y[6] * y[6]);
    exact::lemma_sum(a, b, x[7] * x[7], y[7] * y[7]);
}

proof fn lemma_halves_length(x: Seq<int>)
    ensures
        isquared_length(x) == quat_length(even(x)) + quat_length(odd(x)),
{
    lemma_minus_times(x[1], x[1]);
    lemma_minus_times(x[3], x[3]);
}

/// Turning keeps the length of a multivector, up to the rotor's squared length: all of it where
/// the rotor has length one.
pub proof fn lemma_turning_keeps_length(r: Rotor<i32>, x: Seq<i32>)
    requires
        x.len() == 8,
    ensures
        ({
            let n = r.s * r.s + r.p12 * r.p12 + r.p13 * r.p13 + r.p23 * r.p23;
            exact::cong(squared_length(quant::turned(r, x)), n * (n * squared_length(x)))
        }),
{
    let n = r.s * r.s + r.p12 * r.p12 + r.p13 * r.p13 + r.p23 * r.p23;
    let q = seq![r.s as int, r.p12 as int, r.p13 as int, r.p23 as int];
    let t = quant::reverse_of(r);
    let p = seq![r.s as int, -r.p12, -r.p13, -r.p23];
    let y = Seq::new(8, |j: int| x[j] as int);
    assert forall|z: int| #[trigger] exact::cong(z, z) by {
        exact::lemma_refl(z);
    }
    exact::lemma_ops(0, r.p12);
    exact::lemma_ops(0, r.p13);
    exact::lemma_ops(0, r.p23);
    let y1 = ileft(q, y);
    lemma_from_left(r, q, x, y);
    let x1 = quant::from_left(r, x);
    let y2 = iright(p, y1);
    lemma_from_right(t, p, x1, y1);
    lemma_squares(quant::turned(r, x), y2);
    lemma_halves(q, y);
    lemma_halves(p, y1);
    lemma_halves_length(y);
    lemma_halves_length(y2);
    let (e, o) = (quat_length(even(y)), quat_length(odd(y)));
    lemma_quat_lengths(parts(q), even(y));
    lemma_quat_lengths(parts(q), odd(y));
    lemma_quat_lengths(even(y1), parts(p));
    lemma_quat_lengths(odd(y1), parts(p));
    lemma_minus_times(q[1], q[1]);
    lemma_minus_times(q[2], q[2]);
    lemma_minus_times(q[3], q[3]);
    assert(quat_length(parts(p)) == n && quat_length(parts(q)) == n);
    assert(n * (e * n) + n * (o * n) == n * (n * (e + o))) by (nonlinear_arith);
    assert(squared_length(x) == isquared_length(y));
}

spec fn together(p: (int, int, int, int), q: (int, int, int, int)) -> (int, int, int, int) {
    (p.0 + q.0, p.1 + q.1, p.2 + q.2, p.3 + q.3)
}

proof fn lemma_distributes(k: int, p: (int, int, int, int), q: (int, int, int, int))
    ensures
        k * (p.0 + q.0) == k * p.0 + k * q.0,
        k * (p.1 + q.1) == k * p.1 + k * q.1,
        k * (p.2 + q.2) == k * p.2 + k * q.2,
        k * (p.3 + q.3) == k * p.3 + k * q.3,
        (p.0 + q.0) * k == p.0 * k + q.0 * k,
        (p.1 + q.1) * k == p.1 * k + q.1 * k,
        (p.2 + q.2) * k == p.2 * k + q.2 * k,
        (p.3 + q.3) * k == p.3 * k + q.3 * k,
{
    vstd::arithmetic::mul::lemma_mul_is_distributive_add(k, p.0, q.0);
    vstd::arithmetic::mul::lemma_mul_is_distributive_add(k, p.1, q.1);
    vstd::arithmetic::mul::lemma_mul_is_distributive_add(k, p.2, q.2);
    vstd::arithmetic::mul::lemma_mul_is_distributive_add(k, p.3, q.3);
    vstd::arithmetic::mul::lemma_mul_is_distributive_add_other_way(k, p.0, q.0);
    vstd::arithmetic::mul::lemma_mul_is_distributive_add_other_way(k, p.1, q.1);
    vstd::arithmetic::mul::lemma_mul_is_distributive_add_other_way(k, p.2, q.2);
    vstd::arithmetic::mul::lemma_mul_is_distributive_add_other_way(k, p.3, q.3);
}

#[verifier::opaque]
spec fn between(q: (int, int, int, int), x: (int, int, int, int)) -> (int, int, int, int) {
    quat(quat(q, x), conjugate(q))
}

proof fn lemma_between_adds(
    q: (int, int, int, int),
    x: (int, int, int, int),
    y: (int, int, int, int),
)
    ensures
        between(q, together(x, y)) == together(between(q, x), between(q, y)),
{
    reveal(between);
    lemma_distributes(q.0, x, y);
    lemma_distributes(q.1, x, y);
    lemma_distributes(q.2, x, y);
    lemma_distributes(q.3, x, y);
    let (u, v) = (quat(q, x), quat(q, y));
    assert(quat(q, together(x, y)) == together(u, v));
    let c = conjugate(q);
    lemma_distributes(c.0, u, v);
    lemma_distributes(c.1, u, v);
    lemma_distributes(c.2, u, v);
    lemma_distributes(c.3, u, v);
}

proof fn lemma_between_scales(q: (int, int, int, int), x: (int, int, int, int), k: int)
    ensures
        between(q, scaled(k, x)) == scaled(k, between(q, x)),
{
    reveal(between);
    let m = (k, 0int, 0int, 0int);
    let c = conjugate(q);
    lemma_quat_number(k, x);
    lemma_quat_associates(q, x, m);
    lemma_quat_number(k, quat(q, x));
    lemma_quat_associates(m, quat(q, x), c);
    lemma_quat_number(k, between(q, x));
}

/// A vector as a multivector.
pub open spec fn vector(v: (i32, i32, i32)) -> Seq<i32> {
    seq![0, v.0, v.1, v.2, 0, 0, 0, 0]
}

/// The odd components of a turned multivector.
proof fn lemma_turned(r: Rotor<i32>, x: Seq<i32>, y: Seq<int>) -> (z: Seq<int>)
    requires
        stands_for(y, x),
    ensures
        stands_for(z, quant::turned(r, x)),
        odd(z) == between((r.s as int, r.p12 as int, r.p13 as int, r.p23 as int), odd(y)),
{
    reveal(between);
    let q = seq![r.s as int, r.p12 as int, r.p13 as int, r.p23 as int];
    let t = quant::reverse_of(r);
    let p = seq![r.s as int, -r.p12, -r.p13, -r.p23];
    exact::lemma_refl(r.s as int);
    exact::lemma_refl(r.p12 as int);
    exact::lemma_refl(r.p13 as int);
    exact::lemma_refl(r.p23 as int);
    exact::lemma_ops(0, r.p12);
    exact::lemma_ops(0, r.p13);
    exact::lemma_ops(0, r.p23);
    let y1 = ileft(q, y);
    lemma_from_left(r, q, x, y);
    lemma_from_right(t, p, quant::from_left(r, x), y1);
    lemma_halves(q, y);
    lemma_halves(p, y1);
    assert(parts(p) == conjugate(parts(q)));
    iright(p, y1)
}

proof fn lemma_sum_of_three(x: (i32, i32, i32), y: (int, int, int), v: (i32, i32, i32))
    requires
        exact::cong(x.0 as int, y.0),
        exact::cong(x.1 as int, y.1),
        exact::cong(x.2 as int, y.2),
    ensures
        exact::cong(
            x.0.spec_times(v.0).spec_plus(x.1.spec_times(v.1)).spec_plus(x.2.spec_times(v.2)) as int,
            y.0 * v.0 + y.1 * v.1 + y.2 * v.2,
        ),
{
    exact::lemma_refl(v.0 as int);
    exact::lemma_refl(v.1 as int);
    exact::lemma_refl(v.2 as int);
    lemma_term((x.0, v.0), (y.0, v.0 as int));
    lemma_term((x.1, v.1), (y.1, v.1 as int));
    lemma_term((x.2, v.2), (y.2, v.2 as int));
    let (a, b, c) = (x.0.spec_times(v.0), x.1.spec_times(v.1), x.2.spec_times(v.2));
    lemma_signed(a, y.0 * v.0, true, b, y.1 * v.1);
    lemma_signed(a.spec_plus(b), y.0 * v.0 + y.1 * v.1, true, c, y.2 * v.2);
}

/// What becomes of a vector, from what becomes of the axes.
proof fn lemma_axes(q: (int, int, int, int), a: int, b: int, c: int)
    ensures
        between(q, (0int, -c, b, -a)) == together(
            together(
                scaled(a, between(q, (0int, 0int, 0int, -1int))),
                scaled(b, between(q, (0int, 0int, 1int, 0int))),
            ),
            scaled(c, between(q, (0int, -1int, 0int, 0int))),
        ),
{
    let (e1, e2, e3) = (
        (0int, 0int, 0int, -1int),
        (0int, 0int, 1int, 0int),
        (0int, -1int, 0int, 0int),
    );
    let (s1, s2, s3) = (scaled(a, e1), scaled(b, e2), scaled(c, e3));
    assert((0int, -c, b, -a) == together(together(s1, s2), s3));
    lemma_between_adds(q, together(s1, s2), s3);
    lemma_between_adds(q, s1, s2);
    lemma_between_scales(q, e1, a);
    lemma_between_scales(q, e2, b);
    lemma_between_scales(q, e3, c);
}

#[verifier::opaque]
spec fn turned_at(r: Rotor<i32>, x: Seq<i32>, i: int) -> i32 {
    quant::turned(r, x)[i]
}

/// A component of a turned vector, by the odd components of the vector.
proof fn lemma_turned_at(r: Rotor<i32>, x: Seq<i32>, i: int) -> (z: int)
    requires
        x.len() == 8,
        1 <= i <= 3,
    ensures
        exact::cong(turned_at(r, x, i) as int, z),
        ({
            let q = (r.s as int, r.p12 as int, r.p13 as int, r.p23 as int);
            let w = between(q, (x[7] as int, -x[3], x[2] as int, -x[1]));
            z == if i == 1 {
                -w.3
            } else if i == 2 {
                w.2
            } else {
                -w.1
            }
        }),
{
    reveal(turned_at);
    let y = Seq::new(8, |j: int| x[j] as int);
    exact::lemma_refl(y[0]);
    exact::lemma_refl(y[1]);
    exact::lemma_refl(y[2]);
    exact::lemma_refl(y[3]);
    exact::lemma_refl(y[4]);
    exact::lemma_refl(y[5]);
    exact::lemma_refl(y[6]);
    exact::lemma_refl(y[7]);
    let z = lemma_turned(r, x, y);
    z[i]
}

proof fn lemma_rows_turn(r: Rotor<i32>, v: (i32, i32, i32), i: int)
    requires
        1 <= i <= 3,
    ensures
        ({
            let a = turned_at(r, quant::axis(1), i);
            let b = turned_at(r, quant::axis(2), i);
            let c = turned_at(r, quant::axis(3), i);
            exact::cong(
                a.spec_times(v.0).spec_plus(b.spec_times(v.1)).spec_plus(c.spec_times(v.2)) as int,
                turned_at(r, vector(v), i) as int,
            )
        }),
{
    let q = (r.s as int, r.p12 as int, r.p13 as int, r.p23 as int);
    let (e1, e2, e3) = (quant::axis::<i32>(1), quant::axis::<i32>(2), quant::axis::<i32>(3));
    let x = (turned_at(r, e1, i), turned_at(r, e2, i), turned_at(r, e3, i));
    let z = lemma_turned_at(r, vector(v), i);
    let z1 = lemma_turned_at(r, e1, i);
    let z2 = lemma_turned_at(r, e2, i);
    let z3 = lemma_turned_at(r, e3, i);
    let (a, b, c) = (v.0 as int, v.1 as int, v.2 as int);
    lemma_axes(q, a, b, c);
    lemma_sum_of_three(x, (z1, z2, z3), v);
    assert(z == z1 * a + z2 * b + z3 * c) by {
        lemma_minus_times(a, -z1);
        lemma_minus_times(b, -z2);
        lemma_minus_times(c, -z3);
        lemma_minus_times(a, z1);
        lemma_minus_times(b, z2);
        lemma_minus_times(c, z3);
    }
    let m = turned_at(r, vector(v), i) as int;
    let n = x.0.spec_times(v.0).spec_plus(x.1.spec_times(v.1)).spec_plus(x.2.spec_times(v.2));
    exact::lemma_symm(m, z);
    exact::lemma_trans(n as int, z, m);
}

/// On a vector, the matrix of a rotation does what the rotor does.
pub proof fn lemma_matrix_turns(r: Rotor<i32>, v: (i32, i32, i32), i: int)
    requires
        0 <= i < 3,
    ensures
        exact::cong(
            quant::forth(r, v, i) as int,
            quant::turned(r, vector(v))[i + 1] as int,
        ),
{
    lemma_rows_turn(r, v, i + 1);
    assert(turned_at(r, vector(v), i + 1) == quant::turned(r, vector(v))[i + 1]) by {
        reveal(turned_at);
    }
    assert(turned_at(r, quant::axis(1), i + 1) == quant::rotation_entry(r, i, 0)) by {
        reveal(turned_at);
    }
    assert(turned_at(r, quant::axis(2), i + 1) == quant::rotation_entry(r, i, 1)) by {
        reveal(turned_at);
    }
    assert(turned_at(r, quant::axis(3), i + 1) == quant::rotation_entry(r, i, 2)) by {
        reveal(turned_at);
    }
}

} // verus!
