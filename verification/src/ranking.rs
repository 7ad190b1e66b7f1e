//! How rewards become advantages, for numbers without rounding.
use vstd::prelude::*;
use crate::distill;
use crate::grpo;
use crate::ideal;
use crate::ideal::{exact, faithful, is_root, reals, rsum, Reading};
use crate::number::{Number, Real};
use crate::optim;

verus! {

/// The smallest spread that counts.
pub open spec fn least_spread() -> real {
    1real / 100_000_000real
}

/// The unit of advantages: the standard deviation, or the smallest spread where that is less.
spec fn unit_of<S: Real>(s: Seq<S>) -> S {
    grpo::deviation(s, s.len() as usize).spec_larger(optim::ratio(1, 100_000_000))
}

/// The distances of numbers from another.
spec fn apart<S>(of: spec_fn(S) -> real, s: Seq<S>, m: real) -> spec_fn(int) -> real {
    |i: int| of(s[i]) - m
}

proof fn lemma_mean<S: Real>(r: Reading<S>, s: Seq<S>)
    requires
        exact(r),
        0 < s.len() <= usize::MAX,
    ensures
        (r.of)(grpo::mean_over(s, s.len() as usize)) * (s.len() as real) == rsum(
            reals(r.of, s),
            s.len() as int,
        ),
{
    ideal::lemma_total(r.of, s);
    ideal::lemma_quotient(rsum(reals(r.of, s), s.len() as int), s.len() as real);
}

proof fn lemma_unit<S: Real>(r: Reading<S>, s: Seq<S>)
    requires
        exact(r),
    ensures
        (r.of)(unit_of(s)) > 0real,
        (r.of)(unit_of(s)) >= (r.of)(grpo::deviation(s, s.len() as usize)),
        (r.of)(grpo::deviation(s, s.len() as usize)) >= least_spread() ==> (r.of)(unit_of(s))
            == (r.of)(grpo::deviation(s, s.len() as usize)),
{
    ideal::lemma_ratio::<S>(r.of, 1, 100_000_000);
}

/// An advantage times the unit is the distance of the reward from the mean.
proof fn lemma_advantage<S: Real>(r: Reading<S>, s: Seq<S>, i: int)
    requires
        exact(r),
        0 < s.len() <= usize::MAX,
        0 <= i < s.len(),
    ensures
        (r.of)(unit_of(s)) * (r.of)(grpo::advantages_of(s)[i]) == (r.of)(s[i]) - (r.of)(
            grpo::mean_over(s, s.len() as usize),
        ),
{
    lemma_unit(r, s);
    let d = (r.of)(s[i]) - (r.of)(grpo::mean_over(s, s.len() as usize));
    ideal::lemma_quotient(d, (r.of)(unit_of(s)));
}

/// Advantages keep the order of the rewards: a greater reward has a greater advantage.
pub proof fn lemma_advantages_keep_order<S: Real>(r: Reading<S>, s: Seq<S>, i: int, j: int)
    requires
        exact(r),
        0 < s.len() <= usize::MAX,
        0 <= i < s.len(),
        0 <= j < s.len(),
    ensures
        (r.of)(s[i]) < (r.of)(s[j]) <==> (r.of)(grpo::advantages_of(s)[i]) < (r.of)(
            grpo::advantages_of(s)[j],
        ),
{
    lemma_unit(r, s);
    lemma_advantage(r, s, i);
    lemma_advantage(r, s, j);
    ideal::lemma_order(
        (r.of)(grpo::advantages_of(s)[i]),
        (r.of)(grpo::advantages_of(s)[j]),
        (r.of)(unit_of(s)),
    );
}

/// A reward above the mean of the group has a positive advantage, and one below it a negative one.
pub proof fn lemma_advantage_sign<S: Real>(r: Reading<S>, s: Seq<S>, i: int)
    requires
        exact(r),
        0 < s.len() <= usize::MAX,
        0 <= i < s.len(),
    ensures
        (s.len() as real) * (r.of)(s[i]) > rsum(reals(r.of, s), s.len() as int) <==> (r.of)(
            grpo::advantages_of(s)[i],
        ) > 0real,
        (s.len() as real) * (r.of)(s[i]) < rsum(reals(r.of, s), s.len() as int) <==> (r.of)(
            grpo::advantages_of(s)[i],
        ) < 0real,
{
    lemma_unit(r, s);
    lemma_advantage(r, s, i);
    lemma_mean(r, s);
    let (n, x, m) = (
        s.len() as real,
        (r.of)(s[i]),
        (r.of)(grpo::mean_over(s, s.len() as usize)),
    );
    ideal::lemma_order(m, x, n);
    ideal::lemma_order(x, m, n);
    let (u, a) = ((r.of)(unit_of(s)), (r.of)(grpo::advantages_of(s)[i]));
    ideal::lemma_order(0real, a, u);
    ideal::lemma_order(a, 0real, u);
    assert(u * 0real == 0real) by (nonlinear_arith);
}

/// The advantages of a group cancel out.
pub proof fn lemma_advantages_cancel<S: Real>(r: Reading<S>, s: Seq<S>)
    requires
        exact(r),
        0 < s.len() <= usize::MAX,
    ensures
        rsum(reals(r.of, grpo::advantages_of(s)), s.len() as int) == 0real,
{
    let n = s.len() as int;
    let m = (r.of)(grpo::mean_over(s, s.len() as usize));
    let u = (r.of)(unit_of(s));
    let adv = reals(r.of, grpo::advantages_of(s));
    let d = apart(r.of, s, m);
    assert forall|i: int| 0 <= i < n implies #[trigger] d(i) == u * adv(i) by {
        lemma_advantage(r, s, i);
    }
    ideal::lemma_rsum_times(adv, d, u, n);
    lemma_mean(r, s);
    lemma_unit(r, s);
    let minus = |i: int| -m;
    ideal::lemma_rsum_same(minus, -m, n);
    ideal::lemma_rsum_plus(reals(r.of, s), minus, d, n);
    let (x, nr) = (rsum(adv, n), n as real);
    assert(nr * (-m) == -(m * nr)) by (nonlinear_arith);
    assert(u * 0real == 0real) by (nonlinear_arith);
    ideal::lemma_order(x, 0real, u);
}

/// The squares of the advantages of a group add up to its size, where the rewards differ enough:
/// advantages are counted in standard deviations.
pub proof fn lemma_advantages_have_unit_spread<S: Real>(r: Reading<S>, s: Seq<S>)
    requires
        exact(r),
        0 < s.len() <= usize::MAX,
        (r.of)(grpo::deviation(s, s.len() as usize)) >= least_spread(),
    ensures
        rsum(
            |i: int|
                (r.of)(grpo::advantages_of(s)[i]) * (r.of)(grpo::advantages_of(s)[i]),
            s.len() as int,
        ) == s.len() as real,
{
    let n = s.len() as int;
    let mean = grpo::mean_over(s, s.len() as usize);
    let m = (r.of)(mean);
    let u = (r.of)(unit_of(s));
    lemma_unit(r, s);
    let adv = grpo::advantages_of(s);
    let asq = |i: int| (r.of)(adv[i]) * (r.of)(adv[i]);
    let sq = grpo::squared_distances(s, mean);
    let rsq = reals(r.of, sq);
    let uu = u * u;
    assert forall|i: int| 0 <= i < n implies #[trigger] rsq(i) == uu * asq(i) by {
        lemma_advantage(r, s, i);
        ideal::lemma_square(r.of, s[i].spec_minus(mean));
        let (d, a) = ((r.of)(s[i]) - m, (r.of)(adv[i]));
        let aa = a * a;
        assert(d * d == uu * aa) by (nonlinear_arith)
            requires
                d == u * a,
                uu == u * u,
                aa == a * a,
        ;
    }
    ideal::lemma_rsum_times(asq, rsq, uu, n);
    lemma_mean(r, sq);
    let var = grpo::mean_over(sq, s.len() as usize);
    let (x, v, nr) = (rsum(asq, n), (r.of)(var), n as real);
    // The variance is the square of the unit.
    assert forall|i: int| 0 <= i < n implies #[trigger] rsq(i) >= 0real by {
        ideal::lemma_square(r.of, s[i].spec_minus(mean));
        ideal::lemma_square_sign((r.of)(s[i]) - m);
    }
    ideal::lemma_rsum_bounds(rsq, 0, n);
    assert(v >= 0real) by {
        if v < 0real {
            ideal::lemma_order(v, 0real, nr);
            assert(nr * 0real == 0real) by (nonlinear_arith);
        }
    }
    assert(v == uu);
    ideal::lemma_positive(u, u);
    ideal::lemma_order(x, nr, uu);
}

/// No reward is greater than the best.
pub proof fn lemma_best<S: Real>(r: Reading<S>, s: Seq<S>, n: int)
    requires
        faithful(r),
        0 < n <= s.len(),
    ensures
        0 <= grpo::best_of(s, n) < n,
        forall|j: int|
            0 <= j < n ==> (r.of)(#[trigger] s[j]) <= (r.of)(s[grpo::best_of(s, n)]),
    decreases n,
{
    if n > 1 {
        lemma_best(r, s, n - 1);
        ideal::lemma_reads_signs(r, s[n - 1], s[grpo::best_of(s, n - 1)]);
    }
}

proof fn lemma_smaller<S: Real>(r: Reading<S>, a: S, b: S)
    requires
        faithful(r),
    ensures
        (r.of)(a.spec_smaller(b)) == (if (r.of)(b) < (r.of)(a) {
            (r.of)(b)
        } else {
            (r.of)(a)
        }),
{
    reveal(faithful);
}

/// The greatest and the least of numbers are among them, and none lies beyond.
pub proof fn lemma_extremes<S: Real>(r: Reading<S>, s: Seq<S>, n: int)
    requires
        faithful(r),
        0 < n <= s.len(),
        forall|j: int|
            0 <= j < n ==> (r.of)(S::spec_lowest()) <= (r.of)(#[trigger] s[j]) <= (r.of)(
                S::spec_highest(),
            ),
    ensures
        forall|j: int|
            0 <= j < n ==> (r.of)(grpo::least(s, n)) <= (r.of)(#[trigger] s[j]) <= (r.of)(
                grpo::greatest(s, n),
            ),
        exists|j: int| 0 <= j < n && (r.of)(#[trigger] s[j]) == (r.of)(grpo::least(s, n)),
        exists|j: int| 0 <= j < n && (r.of)(#[trigger] s[j]) == (r.of)(grpo::greatest(s, n)),
    decreases n,
{
    let last = s[n - 1];
    ideal::lemma_reads_signs(r, grpo::greatest(s, n - 1), last);
    lemma_smaller(r, grpo::least(s, n - 1), last);
    if n > 1 {
        lemma_extremes(r, s, n - 1);
        let (a, b) = (
            choose|j: int| 0 <= j < n - 1 && (r.of)(#[trigger] s[j]) == (r.of)(grpo::least(s, n - 1)),
            choose|j: int|
                0 <= j < n - 1 && (r.of)(#[trigger] s[j]) == (r.of)(grpo::greatest(s, n - 1)),
        );
        assert((r.of)(s[a]) == (r.of)(grpo::least(s, n)) || (r.of)(s[n - 1]) == (r.of)(
            grpo::least(s, n),
        ));
        assert((r.of)(s[b]) == (r.of)(grpo::greatest(s, n)) || (r.of)(s[n - 1]) == (r.of)(
            grpo::greatest(s, n),
        ));
    } else {
        assert((r.of)(s[0]) == (r.of)(grpo::least(s, n)));
        assert((r.of)(s[0]) == (r.of)(grpo::greatest(s, n)));
        assert(grpo::least(s, 0) == S::spec_highest() && grpo::greatest(s, 0) == S::spec_lowest());
    }
}

/// No number of a row is greater than the one that is named as its class.
pub proof fn lemma_top<S: Real>(r: Reading<S>, row: Seq<S>, n: int)
    requires
        faithful(r),
        0 < n <= row.len(),
        forall|j: int| 0 <= j < n ==> (r.of)(S::spec_lowest()) < (r.of)(#[trigger] row[j]),
    ensures
        0 <= distill::top_of(row, n).0 < n,
        distill::top_of(row, n).1 == row[distill::top_of(row, n).0],
        forall|j: int|
            0 <= j < n ==> (r.of)(#[trigger] row[j]) <= (r.of)(row[distill::top_of(row, n).0]),
    decreases n,
{
    let best = distill::top_of(row, n - 1);
    ideal::lemma_reads_signs(r, best.1, row[n - 1]);
    if n > 1 {
        lemma_top(r, row, n - 1);
    }
}

} // verus!
