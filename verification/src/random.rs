//! Random numbers.
use vstd::prelude::*;
use crate::number::Real;
use crate::optim;
use crate::optim::fraction;

verus! {

/// A random word, from `rand::random`. Nothing is claimed of its value.
#[verifier::external_body]
fn random_word() -> (r: u32) {
    rand::random::<u32>()
}

/// A random number below `n`, from `rand::Rng::gen_range` of the generator of the thread. The
/// claim is that it lies in the range, which must not be empty.
#[verifier::external_body]
pub(crate) fn random_below(n: usize) -> (r: usize)
    requires
        n > 0,
    ensures
        r < n,
{
    rand::Rng::gen_range(&mut rand::thread_rng(), 0..n)
}

/// The words that the standard generator of `rand` gives out after it was seeded: as many as asked
/// for, from the first on.
pub uninterp spec fn seeded_words(seed: u64, n: nat) -> Seq<u32>;

/// Overwrites words with those of a seeded generator, by `rand::Rng::fill` of
/// `rand::rngs::StdRng::seed_from_u64`. The claim is that all are overwritten, by words that depend
/// on the seed and on their number alone. Nothing is claimed of their values.
#[verifier::external_body]
pub(crate) fn fill_words(seed: u64, words: &mut Vec<u32>)
    ensures
        final(words)@ == seeded_words(seed, old(words)@.len()),
        final(words)@.len() == old(words)@.len(),
{
    let mut g: rand::rngs::StdRng = rand::SeedableRng::seed_from_u64(seed);
    rand::Rng::fill(&mut g, &mut words[..]);
}

/// The number between two others that a word stands for, by its upper 23 bits.
pub open spec fn between<S: Real>(low: S, high: S, w: u32) -> S {
    S::spec_count((w / 512) as usize).spec_over(S::spec_count(8388608)).spec_times(
        high.spec_minus(low),
    ).spec_plus(low)
}

/// The number between two others that a word stands for.
pub fn number_between<S: Real>(low: S, high: S, w: u32) -> (r: S)
    ensures
        r == between(low, high, w),
{
    S::count((w / 512) as usize).over(S::count(8388608)).times(high.minus(low)).plus(low)
}

/// The upper 24 bits of a word as a number between zero and one.
pub open spec fn unit_of<S: Real>(w: u32) -> S {
    S::spec_count((w / 256) as usize).spec_over(S::spec_count(16777216))
}

/// Numbers between zero and one, each from a word.
pub open spec fn are_units<S: Real>(v: Seq<S>) -> bool {
    exists|words: Seq<u32>|
        #![trigger units_of::<S>(words)]
        words.len() == v.len() && v == units_of::<S>(words)
}

/// The numbers of words.
pub open spec fn units_of<S: Real>(words: Seq<u32>) -> Seq<S> {
    Seq::new(words.len(), |i: int| unit_of(words[i]))
}

/// The number of a standard normal distribution that two numbers between zero and one stand for:
/// a distance from the origin and a cosine (Box and Muller).
pub open spec fn gaussian<S: Real>(u: S, v: S) -> S {
    let far = S::spec_count(2).spec_neg().spec_times(S::spec_one().spec_minus(u).spec_ln());
    let turn = S::spec_count(2).spec_times(optim::ratio(13176795, 4194304)).spec_times(v);
    far.spec_sqrt().spec_times(turn.spec_cos())
}

/// The number of a standard normal distribution that two numbers between zero and one stand for.
pub fn normal_number<S: Real>(u: S, v: S) -> (r: S)
    ensures
        r == gaussian(u, v),
{
    let far = S::count(2).neg().times(S::one().minus(u).ln());
    let turn = S::count(2).times(fraction(13176795, 4194304)).times(v);
    far.sqrt().times(turn.cos())
}

/// The number of a standard normal distribution at a place, from two numbers of a list.
pub open spec fn gaussian_at<S: Real>(draws: Seq<S>, i: int) -> S {
    gaussian(draws[2 * i], draws[2 * i + 1])
}

/// Random numbers between zero and one.
pub fn random_units<S: Real>(n: usize) -> (r: Vec<S>)
    ensures
        r@.len() == n,
        are_units(r@),
{
    let mut v: Vec<S> = Vec::new();
    let ghost mut words: Seq<u32> = Seq::empty();
    for i in 0..n
        invariant
            words.len() == i,
            v@ =~= units_of::<S>(words),
    {
        let w: u32 = random_word();
        v.push(S::count((w / 256) as usize).over(S::count(16777216)));
        proof {
            words = words.push(w);
        }
    }
    assert(v@ =~= units_of::<S>(words));
    v
}

} // verus!
