//! Quantization behind rotations: groups of three coordinates are rotated, rounded to steps and
//! rotated back.
use vstd::prelude::*;
use crate::activations;
use crate::blas;
use crate::nn;
use crate::nn::Module;
use crate::number;
use crate::number::{bound, filled, Number, Real};
use crate::optim;
use crate::optim::fraction;
use crate::random;
use crate::random::{fill_words, number_between};
use crate::tensor;
use crate::tensor::{copy_slice, Tensor, Value};

verus! {

/// A multivector of three dimensions: `1, e1, e2, e3, e12, e13, e23, e123`.
pub type MV<S> = [S; 8];

/// A rotor: a number and the components of a plane. One of norm one turns vectors.
#[derive(Debug, Clone, Copy)]
pub struct Rotor<S> {
    pub s: S,
    pub p12: S,
    pub p13: S,
    pub p23: S,
}

/// The product of a rotor and a multivector.
pub open spec fn from_left<S: Number>(r: Rotor<S>, x: Seq<S>) -> Seq<S> {
    let (s, a, b, c) = (r.s, r.p12, r.p13, r.p23);
    seq![
        s.spec_times(x[0]).spec_minus(a.spec_times(x[4])).spec_minus(b.spec_times(x[5])).spec_minus(
            c.spec_times(x[6]),
        ),
        s.spec_times(x[1]).spec_plus(a.spec_times(x[2])).spec_plus(b.spec_times(x[3])).spec_minus(
            c.spec_times(x[7]),
        ),
        s.spec_times(x[2]).spec_minus(a.spec_times(x[1])).spec_plus(c.spec_times(x[3])).spec_plus(
            b.spec_times(x[7]),
        ),
        s.spec_times(x[3]).spec_minus(b.spec_times(x[1])).spec_minus(c.spec_times(x[2])).spec_minus(
            a.spec_times(x[7]),
        ),
        s.spec_times(x[4]).spec_plus(a.spec_times(x[0])).spec_minus(b.spec_times(x[6])).spec_plus(
            c.spec_times(x[5]),
        ),
        s.spec_times(x[5]).spec_plus(b.spec_times(x[0])).spec_plus(a.spec_times(x[6])).spec_minus(
            c.spec_times(x[4]),
        ),
        s.spec_times(x[6]).spec_plus(c.spec_times(x[0])).spec_minus(a.spec_times(x[5])).spec_plus(
            b.spec_times(x[4]),
        ),
        s.spec_times(x[7]).spec_plus(a.spec_times(x[3])).spec_minus(b.spec_times(x[2])).spec_plus(
            c.spec_times(x[1]),
        ),
    ]
}

/// The product of a multivector and a rotor.
pub open spec fn from_right<S: Number>(x: Seq<S>, r: Rotor<S>) -> Seq<S> {
    let (s, a, b, c) = (r.s, r.p12, r.p13, r.p23);
    seq![
        s.spec_times(x[0]).spec_minus(a.spec_times(x[4])).spec_minus(b.spec_times(x[5])).spec_minus(
            c.spec_times(x[6]),
        ),
        s.spec_times(x[1]).spec_minus(a.spec_times(x[2])).spec_minus(b.spec_times(x[3])).spec_minus(
            c.spec_times(x[7]),
        ),
        s.spec_times(x[2]).spec_plus(a.spec_times(x[1])).spec_minus(c.spec_times(x[3])).spec_plus(
            b.spec_times(x[7]),
        ),
        s.spec_times(x[3]).spec_plus(b.spec_times(x[1])).spec_plus(c.spec_times(x[2])).spec_minus(
            a.spec_times(x[7]),
        ),
        s.spec_times(x[4]).spec_plus(a.spec_times(x[0])).spec_plus(b.spec_times(x[6])).spec_minus(
            c.spec_times(x[5]),
        ),
        s.spec_times(x[5]).spec_plus(b.spec_times(x[0])).spec_minus(a.spec_times(x[6])).spec_plus(
            c.spec_times(x[4]),
        ),
        s.spec_times(x[6]).spec_plus(c.spec_times(x[0])).spec_plus(a.spec_times(x[5])).spec_minus(
            b.spec_times(x[4]),
        ),
        s.spec_times(x[7]).spec_plus(a.spec_times(x[3])).spec_minus(b.spec_times(x[2])).spec_plus(
            c.spec_times(x[1]),
        ),
    ]
}

/// The rotor with its plane turned over.
pub open spec fn reverse_of<S: Number>(r: Rotor<S>) -> Rotor<S> {
    Rotor {
        s: r.s,
        p12: S::spec_zero().spec_minus(r.p12),
        p13: S::spec_zero().spec_minus(r.p13),
        p23: S::spec_zero().spec_minus(r.p23),
    }
}

/// The multivector between the rotor and its reverse.
pub open spec fn turned<S: Number>(r: Rotor<S>, x: Seq<S>) -> Seq<S> {
    from_right(from_left(r, x), reverse_of(r))
}

/// The multivector between the reverse of the rotor and the rotor.
pub open spec fn turned_back<S: Number>(r: Rotor<S>, x: Seq<S>) -> Seq<S> {
    from_right(from_left(reverse_of(r), x), r)
}

/// A vector along an axis, counted from one.
pub open spec fn axis<S: Number>(i: int) -> Seq<S> {
    Seq::new(
        8,
        |k: int|
            if k == i {
                S::spec_one()
            } else {
                S::spec_zero()
            },
    )
}

/// What becomes of a coordinate of each axis: the matrix of the rotation.
pub open spec fn rotation_entry<S: Number>(r: Rotor<S>, i: int, j: int) -> S {
    turned(r, axis(j + 1))[i + 1]
}

impl<S: Number> Rotor<S> {
    fn left(&self, x: MV<S>) -> (r: MV<S>)
        ensures
            r@ == from_left(*self, x@),
    {
        let (s, a, b, c) = (self.s, self.p12, self.p13, self.p23);
        let r: MV<S> = [
            s.times(x[0]).minus(a.times(x[4])).minus(b.times(x[5])).minus(c.times(x[6])),
            s.times(x[1]).plus(a.times(x[2])).plus(b.times(x[3])).minus(c.times(x[7])),
            s.times(x[2]).minus(a.times(x[1])).plus(c.times(x[3])).plus(b.times(x[7])),
            s.times(x[3]).minus(b.times(x[1])).minus(c.times(x[2])).minus(a.times(x[7])),
            s.times(x[4]).plus(a.times(x[0])).minus(b.times(x[6])).plus(c.times(x[5])),
            s.times(x[5]).plus(b.times(x[0])).plus(a.times(x[6])).minus(c.times(x[4])),
            s.times(x[6]).plus(c.times(x[0])).minus(a.times(x[5])).plus(b.times(x[4])),
            s.times(x[7]).plus(a.times(x[3])).minus(b.times(x[2])).plus(c.times(x[1])),
        ];
        assert(r@ =~= from_left(*self, x@));
        r
    }

    fn right(&self, x: MV<S>) -> (r: MV<S>)
        ensures
            r@ == from_right(x@, *self),
    {
        let (s, a, b, c) = (self.s, self.p12, self.p13, self.p23);
        let r: MV<S> = [
            s.times(x[0]).minus(a.times(x[4])).minus(b.times(x[5])).minus(c.times(x[6])),
            s.times(x[1]).minus(a.times(x[2])).minus(b.times(x[3])).minus(c.times(x[7])),
            s.times(x[2]).plus(a.times(x[1])).minus(c.times(x[3])).plus(b.times(x[7])),
            s.times(x[3]).plus(b.times(x[1])).plus(c.times(x[2])).minus(a.times(x[7])),
            s.times(x[4]).plus(a.times(x[0])).plus(b.times(x[6])).minus(c.times(x[5])),
            s.times(x[5]).plus(b.times(x[0])).minus(a.times(x[6])).plus(c.times(x[4])),
            s.times(x[6]).plus(c.times(x[0])).plus(a.times(x[5])).minus(b.times(x[4])),
            s.times(x[7]).plus(a.times(x[3])).minus(b.times(x[2])).plus(c.times(x[1])),
        ];
        assert(r@ =~= from_right(x@, *self));
        r
    }

    fn reverse(&self) -> (r: Self)
        ensures
            r == reverse_of(*self),
    {
        Rotor {
            s: self.s,
            p12: S::zero().minus(self.p12),
            p13: S::zero().minus(self.p13),
            p23: S::zero().minus(self.p23),
        }
    }

    /// Turns a multivector.
    pub fn sandwich(&self, x: MV<S>) -> (r: MV<S>)
        ensures
            r@ == turned(*self, x@),
    {
        self.reverse().right(self.left(x))
    }

    /// Turns a multivector back.
    pub fn inv_sandwich(&self, x: MV<S>) -> (r: MV<S>)
        ensures
            r@ == turned_back(*self, x@),
    {
        self.right(self.reverse().left(x))
    }

    fn turned_axis(&self, i: usize) -> (r: MV<S>)
        requires
            1 <= i <= 3,
        ensures
            r@ == turned(*self, axis::<S>(i as int)),
    {
        let (o, z) = (S::one(), S::zero());
        let e: MV<S> = if i == 1 {
            [z, o, z, z, z, z, z, z]
        } else if i == 2 {
            [z, z, o, z, z, z, z, z]
        } else {
            [z, z, z, o, z, z, z, z]
        };
        assert(e@ =~= axis::<S>(i as int));
        self.sandwich(e)
    }

    /// The matrix of the rotation.
    pub fn rotation_matrix(&self) -> (r: [[S; 3]; 3])
        ensures
            forall|i: int, j: int|
                0 <= i < 3 && 0 <= j < 3 ==> #[trigger] r@[i]@[j] == rotation_entry(*self, i, j),
    {
        let a = self.turned_axis(1);
        let b = self.turned_axis(2);
        let c = self.turned_axis(3);
        let r: [[S; 3]; 3] = [[a[1], b[1], c[1]], [a[2], b[2], c[2]], [a[3], b[3], c[3]]];
        r
    }
}

/// The rotor of a plane and an angle; the one that turns nothing where there is no plane.
pub open spec fn rotor_of<S: Real>(a: S, b: S, c: S, theta: S) -> Rotor<S> {
    let norm = a.spec_times(a).spec_plus(b.spec_times(b)).spec_plus(c.spec_times(c)).spec_sqrt();
    if norm.spec_below(optim::ratio(1, 100000000)) {
        Rotor {
            s: S::spec_one(),
            p12: S::spec_zero(),
            p13: S::spec_zero(),
            p23: S::spec_zero(),
        }
    } else {
        let half = theta.spec_over(S::spec_count(2));
        let mag = half.spec_sin();
        Rotor {
            s: half.spec_cos(),
            p12: mag.spec_times(a.spec_over(norm)),
            p13: mag.spec_times(b.spec_over(norm)),
            p23: mag.spec_times(c.spec_over(norm)),
        }
    }
}

impl<S: Real> Rotor<S> {
    /// A rotor of norm one from random numbers: three between minus one and one for the plane, and
    /// one between zero and pi for the angle.
    pub fn random(a: S, b: S, c: S, theta: S) -> (r: Self)
        ensures
            r == rotor_of(a, b, c, theta),
    {
        let norm = a.times(a).plus(b.times(b)).plus(c.times(c)).sqrt();
        if norm.below(fraction(1, 100000000)) {
            return Rotor { s: S::one(), p12: S::zero(), p13: S::zero(), p23: S::zero() };
        }
        let half = theta.over(S::count(2));
        let mag = half.sin();
        Rotor {
            s: half.cos(),
            p12: mag.times(a.over(norm)),
            p13: mag.times(b.over(norm)),
            p23: mag.times(c.over(norm)),
        }
    }
}

// ---- The quantizer

/// The seed of rotors that are always the same.
pub const USUAL_SEED: u64 = 0xC11F_C0DE;

/// Half a turn: pi, to the precision of 24 bits.
pub open spec fn half_turn<S: Real>() -> S {
    S::spec_count(13176795).spec_over(S::spec_count(4194304))
}

/// Quantizes vectors in groups of three coordinates, each with a rotor of its own.
#[derive(Debug, Clone)]
pub struct RotorQuant<S> {
    pub dim: usize,
    pub bits: u8,
    pub rotors: Vec<Rotor<S>>,
    /// The least multiple of three that is not less than `dim`.
    pub padded_dim: usize,
}

/// How many groups of three there are.
pub open spec fn groups(dim: int) -> int {
    (dim + 2) / 3
}

/// A coordinate after a rotation.
pub open spec fn forth<S: Number>(r: Rotor<S>, v: (S, S, S), i: int) -> S {
    rotation_entry(r, i, 0).spec_times(v.0).spec_plus(
        rotation_entry(r, i, 1).spec_times(v.1),
    ).spec_plus(rotation_entry(r, i, 2).spec_times(v.2))
}

/// A coordinate after the rotation back, by the transposed matrix.
pub open spec fn back<S: Number>(r: Rotor<S>, v: (S, S, S), i: int) -> S {
    rotation_entry(r, 0, i).spec_times(v.0).spec_plus(
        rotation_entry(r, 1, i).spec_times(v.1),
    ).spec_plus(rotation_entry(r, 2, i).spec_times(v.2))
}

/// The greatest distance from zero of three numbers.
pub open spec fn span<S: Real>(v: (S, S, S)) -> S {
    S::spec_zero().spec_larger(v.0.spec_abs()).spec_larger(v.1.spec_abs()).spec_larger(
        v.2.spec_abs(),
    )
}

/// A number at the nearest step.
pub open spec fn stepped<S: Real>(x: S, scale: S, qmax: S) -> S {
    number::bounded(x.spec_over(scale).spec_round(), qmax.spec_neg(), qmax).spec_times(scale)
}

/// Numbers whose distance from zero is less count as zero.
pub open spec fn nothing<S: Real>() -> S {
    optim::ratio::<S>(1, 1000000).spec_over(S::spec_count(1000000))
}

/// A group: rotated, each coordinate at its nearest step, and rotated back.
pub open spec fn group_quantized<S: Real>(r: Rotor<S>, v: (S, S, S), qmax: S) -> (S, S, S) {
    let t = (forth(r, v, 0), forth(r, v, 1), forth(r, v, 2));
    let max = span(t);
    if max.spec_below(nothing()) {
        v
    } else {
        let scale = max.spec_over(qmax);
        let q = (stepped(t.0, scale, qmax), stepped(t.1, scale, qmax), stepped(t.2, scale, qmax));
        (back(r, q, 0), back(r, q, 1), back(r, q, 2))
    }
}

fn quantize_group<S: Real>(r: &Rotor<S>, v: (S, S, S), qmax: S) -> (q: (S, S, S))
    ensures
        q == group_quantized(*r, v, qmax),
{
    let m = r.rotation_matrix();
    let t0 = m[0][0].times(v.0).plus(m[0][1].times(v.1)).plus(m[0][2].times(v.2));
    let t1 = m[1][0].times(v.0).plus(m[1][1].times(v.1)).plus(m[1][2].times(v.2));
    let t2 = m[2][0].times(v.0).plus(m[2][1].times(v.1)).plus(m[2][2].times(v.2));
    let max = S::zero().larger(t0.abs()).larger(t1.abs()).larger(t2.abs());
    let least: S = fraction::<S>(1, 1000000).over(S::count(1000000));
    if max.below(least) {
        return v;
    }
    let scale = max.over(qmax);
    let q0 = bound(t0.over(scale).round(), qmax.neg(), qmax).times(scale);
    let q1 = bound(t1.over(scale).round(), qmax.neg(), qmax).times(scale);
    let q2 = bound(t2.over(scale).round(), qmax.neg(), qmax).times(scale);
    (
        m[0][0].times(q0).plus(m[1][0].times(q1)).plus(m[2][0].times(q2)),
        m[0][1].times(q0).plus(m[1][1].times(q1)).plus(m[2][1].times(q2)),
        m[0][2].times(q0).plus(m[1][2].times(q1)).plus(m[2][2].times(q2)),
    )
}

/// A coordinate of a row, zero beyond its end.
pub open spec fn coordinate<S: Number>(row: Seq<S>, i: int) -> S {
    if i < row.len() {
        row[i]
    } else {
        S::spec_zero()
    }
}

/// The random number that a word stands for: three in turn between minus one and one, then one
/// between zero and pi.
pub open spec fn seeded_draw<S: Real>(i: int, w: u32) -> S {
    if i % 4 == 3 {
        random::between(S::spec_zero(), half_turn(), w)
    } else {
        random::between(S::spec_zero().spec_minus(S::spec_one()), S::spec_one(), w)
    }
}

impl<S: Real> RotorQuant<S> {
    pub open spec fn wf(&self) -> bool {
        &&& 2 <= self.bits <= 32
        &&& self.dim <= self.padded_dim
        &&& self.padded_dim == 3 * groups(self.dim as int)
        &&& self.rotors@.len() == groups(self.dim as int)
    }

    /// The rotors of random numbers, four for each.
    pub open spec fn rotors_of(draws: Seq<S>, n: int) -> Seq<Rotor<S>> {
        Seq::new(
            n as nat,
            |g: int| rotor_of(draws[4 * g], draws[4 * g + 1], draws[4 * g + 2], draws[4 * g + 3]),
        )
    }

    /// The rotors of random words, four for each.
    pub open spec fn seeded_rotors(words: Seq<u32>, n: int) -> Seq<Rotor<S>> {
        Self::rotors_of(Seq::new((4 * n) as nat, |i: int| seeded_draw(i, words[i])), n)
    }

    /// A quantizer of vectors of `dim` coordinates with `bits` bits for each. Its rotors are always
    /// the same.
    pub fn new(dim: usize, bits: u8) -> (r: Self)
        requires
            2 <= bits <= 32,
            4 * groups(dim as int) <= usize::MAX,
            dim + 2 <= usize::MAX,
        ensures
            r.wf(),
            r.dim == dim,
            r.bits == bits,
            r.rotors@ == Self::seeded_rotors(
                random::seeded_words(USUAL_SEED, (4 * groups(dim as int)) as nat),
                groups(dim as int),
            ),
    {
        Self::with_seed(dim, bits, USUAL_SEED)
    }

    /// A quantizer with rotors of its own for each seed.
    pub fn with_seed(dim: usize, bits: u8, seed: u64) -> (r: Self)
        requires
            2 <= bits <= 32,
            4 * groups(dim as int) <= usize::MAX,
            dim + 2 <= usize::MAX,
        ensures
            r.wf(),
            r.dim == dim,
            r.bits == bits,
            r.rotors@ == Self::seeded_rotors(
                random::seeded_words(seed, (4 * groups(dim as int)) as nat),
                groups(dim as int),
            ),
    {
        let n: usize = 4 * ((dim + 2) / 3);
        let mut words: Vec<u32> = filled(0, n);
        fill_words(seed, &mut words);
        Self::from_words(dim, bits, &words)
    }

    /// A quantizer from random words, four for each group.
    pub fn from_words(dim: usize, bits: u8, words: &[u32]) -> (r: Self)
        requires
            2 <= bits <= 32,
            dim + 2 <= usize::MAX,
            words@.len() == 4 * groups(dim as int),
        ensures
            r.wf(),
            r.dim == dim,
            r.bits == bits,
            r.rotors@ == Self::seeded_rotors(words@, groups(dim as int)),
    {
        let n: usize = words.len();
        let (zero, one) = (S::zero(), S::one());
        let turn = S::count(13176795).over(S::count(4194304));
        let ghost all = Seq::new(n as nat, |i: int| seeded_draw::<S>(i, words@[i]));
        let mut draws: Vec<S> = Vec::new();
        for i in 0..n
            invariant
                n == words@.len(),
                n == all.len(),
                zero == S::spec_zero(),
                one == S::spec_one(),
                turn == half_turn::<S>(),
                all == Seq::new(n as nat, |i: int| seeded_draw::<S>(i, words@[i])),
                draws@ =~= all.take(i as int),
        {
            if i % 4 == 3 {
                draws.push(number_between(zero, turn, words[i]));
            } else {
                draws.push(number_between(zero.minus(one), one, words[i]));
            }
        }
        assert(draws@ =~= all);
        Self::from_draws(dim, bits, &draws)
    }

    /// A quantizer from random numbers, four for each group: three between minus one and one, and
    /// one between zero and pi.
    pub fn from_draws(dim: usize, bits: u8, draws: &[S]) -> (r: Self)
        requires
            2 <= bits <= 32,
            dim + 2 <= usize::MAX,
            draws@.len() == 4 * groups(dim as int),
        ensures
            r.wf(),
            r.dim == dim,
            r.bits == bits,
            r.rotors@ == Self::rotors_of(draws@, groups(dim as int)),
    {
        let n: usize = (dim + 2) / 3;
        let len: usize = draws.len();
        let mut rotors: Vec<Rotor<S>> = Vec::new();
        for g in 0..n
            invariant
                n == groups(dim as int),
                len == draws@.len(),
                len == 4 * n,
                rotors@ =~= Self::rotors_of(draws@, n as int).take(g as int),
        {
            rotors.push(
                Rotor::random(draws[4 * g], draws[4 * g + 1], draws[4 * g + 2], draws[4 * g + 3]),
            );
        }
        assert(rotors@ =~= Self::rotors_of(draws@, n as int));
        RotorQuant { dim, bits, rotors, padded_dim: 3 * n }
    }

    /// The number of steps to either side of zero.
    pub open spec fn steps(&self) -> nat {
        (nn::half_range(self.bits) - 1) as nat
    }

    fn qmax(&self) -> (r: S)
        requires
            self.wf(),
        ensures
            r == S::spec_count(self.steps() as usize),
    {
        let mut half: u64 = 1;
        proof {
            vstd::arithmetic::power2::lemma2_to64();
        }
        for i in 1..self.bits
            invariant
                1 <= self.bits <= 32,
                half == vstd::arithmetic::power2::pow2((i - 1) as nat),
                half <= 2147483648,
        {
            proof {
                vstd::arithmetic::power2::lemma_pow2_unfold(i as nat);
                vstd::arithmetic::power2::lemma2_to64();
                nn::lemma_pow2_grows(i as nat, 31);
            }
            half = half * 2;
        }
        proof {
            vstd::arithmetic::power2::lemma_pow2_pos((self.bits - 1) as nat);
        }
        S::count((half - 1) as usize)
    }

    /// A row quantized.
    pub open spec fn row_quantized(&self, row: Seq<S>) -> Seq<S> {
        Seq::new(
            row.len(),
            |i: int|
                {
                    let g = i / 3;
                    let q = group_quantized(
                        self.rotors@[g],
                        (
                            coordinate(row, 3 * g),
                            coordinate(row, 3 * g + 1),
                            coordinate(row, 3 * g + 2),
                        ),
                        S::spec_count(self.steps() as usize),
                    );
                    if i % 3 == 0 {
                        q.0
                    } else if i % 3 == 1 {
                        q.1
                    } else {
                        q.2
                    }
                },
        )
    }

    fn coordinate_at(&self, row: &[S], i: usize) -> (r: S)
        ensures
            r == coordinate(row@, i as int),
    {
        if i < row.len() {
            row[i]
        } else {
            S::zero()
        }
    }

    /// A row quantized, padded with zeros to whole groups and cut again.
    fn quantize_vec(&self, row: &[S]) -> (r: Vec<S>)
        requires
            self.wf(),
            row@.len() == self.dim,
        ensures
            r@ == self.row_quantized(row@),
    {
        let qmax = self.qmax();
        let n: usize = self.rotors.len();
        let len: usize = row.len();
        let ghost want = self.row_quantized(row@);
        let mut out: Vec<S> = Vec::new();
        for g in 0..n
            invariant
                self.wf(),
                n == self.rotors@.len(),
                len == row@.len(),
                len == self.dim,
                qmax == S::spec_count(self.steps() as usize),
                want == self.row_quantized(row@),
                out@ =~= want.take(
                    if 3 * g < len {
                        3 * g as int
                    } else {
                        len as int
                    },
                ),
        {
            let v = (
                self.coordinate_at(row, 3 * g),
                self.coordinate_at(row, 3 * g + 1),
                self.coordinate_at(row, 3 * g + 2),
            );
            let q = quantize_group(&self.rotors[g], v, qmax);
            assert((3 * g) / 3 == g && (3 * g + 1) / 3 == g && (3 * g + 2) / 3 == g);
            if 3 * g < len {
                out.push(q.0);
            }
            if 3 * g + 1 < len {
                out.push(q.1);
            }
            if 3 * g + 2 < len {
                out.push(q.2);
            }
        }
        assert(out@ =~= want);
        out
    }

    /// Each row of the last axis quantized.
    #[verifier::loop_isolation(false)]
    pub fn quantize(&self, input: &Tensor<S>) -> (r: Tensor<S>)
        requires
            self.wf(),
            input.wf(),
            self.accepts(input@),
        ensures
            r.wf(),
            r@ == self.output(input@),
            !r.requires_grad,
    {
        let axes: usize = input.shape.len();
        let d: usize = self.dim;
        let len: usize = input.data.len();
        let ghost di = d as int;
        let ghost want = self.output(input@).data;
        let ghost lead = tensor::volume(input.shape@.drop_last());
        let rows: usize = len / d;
        proof {
            assert(len as int / di == lead) by {
                vstd::arithmetic::div_mod::lemma_div_multiples_vanish(lead, di);
                assert(di * lead == lead * di) by (nonlinear_arith);
            }
            assert(0 * di == 0) by (nonlinear_arith);
        }
        let mut data: Vec<S> = Vec::new();
        for i in 0..rows
            invariant
                rows == lead,
                data@.len() == i * di,
                forall|k: int| 0 <= k < i * di ==> #[trigger] data@[k] == want[k],
        {
            proof {
                nn::lemma_row_in(i as int, lead, di, len as int);
            }
            let row = vstd::slice::slice_subrange(&input.data, i * d, i * d + d);
            assert(row@ =~= activations::row_at(input.data@, di, i as int));
            let out = self.quantize_vec(row);
            for j in 0..d
                invariant
                    data@.len() == i * di + j,
                    forall|k: int| 0 <= k < i * di + j ==> #[trigger] data@[k] == want[k],
            {
                proof {
                    blas::lemma_cell(i as int, j as int, di);
                }
                data.push(out[j]);
            }
            assert(i * di + di == (i + 1) * di) by (nonlinear_arith);
        }
        assert(data@ =~= want);
        Tensor { data, shape: copy_slice(&input.shape), requires_grad: false, grad: None }
    }
}

impl<S: Real> Module<S> for RotorQuant<S> {
    open spec fn wf(&self) -> bool {
        RotorQuant::wf(self)
    }

    open spec fn accepts(&self, x: Value<S>) -> bool {
        self.dim > 0 && x.shape.len() > 0 && x.shape.last() == self.dim
    }

    open spec fn output(&self, x: Value<S>) -> Value<S> {
        let d = self.dim as int;
        Value {
            data: Seq::new(
                x.data.len(),
                |k: int|
                    self.row_quantized(
                        activations::row_at(x.data, d, blas::row_of(k, d)),
                    )[blas::col_of(k, d)],
            ),
            shape: x.shape,
        }
    }

    open spec fn values(&self) -> Seq<Value<S>> {
        Seq::empty()
    }

    open spec fn switched(&self, new: &Self, training: bool) -> bool {
        *new == *self
    }

    fn forward(&self, input: &Tensor<S>) -> (r: Tensor<S>) {
        self.quantize(input)
    }

    fn parameters(&self) -> (r: Vec<Tensor<S>>) {
        Vec::new()
    }

    fn set_training(&mut self, training: bool) {
    }
}

} // verus!
