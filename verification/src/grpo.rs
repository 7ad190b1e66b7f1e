//! Group-relative rewards, the scoring of code, and two models that train against each other.
use vstd::prelude::*;
use crate::data::copy_texts;
use crate::number;
use crate::number::Real;
use crate::optim;
use crate::optim::fraction;
use crate::table::Table;
use crate::tensor;
use crate::text;
use crate::text::{
    byte_count, chars_of, contains, count_occurrences, decimal, lines, owned, same_chars,
    string_of, trim,
};

verus! {

/// Whether a character is an upper-case letter in the sense of Unicode.
pub uninterp spec fn uppercase(c: char) -> bool;

/// `char::is_uppercase` tells upper-case letters from other characters, by the character alone.
pub assume_specification[ char::is_uppercase ](c: char) -> (r: bool)
    ensures
        r == uppercase(c),
;

// ---- Groups

/// How a group is trained on.
#[derive(Debug, Clone, Copy)]
pub struct GrpoConfig<S> {
    /// The number of samples per prompt.
    pub group_size: usize,
    pub clip_eps: S,
    pub lr: S,
    pub kl_coeff: S,
    pub num_iterations: usize,
}

impl<S: Real> Default for GrpoConfig<S> {
    fn default() -> (r: Self)
        ensures
            r == (GrpoConfig::<S> {
                group_size: 8,
                clip_eps: optim::ratio(2, 10),
                lr: optim::ratio(1, 1000),
                kl_coeff: optim::ratio(4, 100),
                num_iterations: 1,
            }),
    {
        GrpoConfig {
            group_size: 8,
            clip_eps: fraction(2, 10),
            lr: fraction(1, 1000),
            kl_coeff: fraction(4, 100),
            num_iterations: 1,
        }
    }
}

/// A prompt with responses and the reward of each.
#[derive(Debug, Clone)]
pub struct GrpoGroup<S> {
    pub prompt: String,
    pub responses: Vec<String>,
    pub rewards: Vec<S>,
}

/// The sum divided by a number.
pub open spec fn mean_over<S: Real>(s: Seq<S>, n: usize) -> S {
    tensor::sum_of(s).spec_over(S::spec_count(n))
}

/// The squared distances from a number.
pub open spec fn squared_distances<S: Real>(s: Seq<S>, mean: S) -> Seq<S> {
    Seq::new(s.len(), |i: int| s[i].spec_minus(mean).spec_powi(2))
}

/// The standard deviation, counting `n` numbers.
pub open spec fn deviation<S: Real>(s: Seq<S>, n: usize) -> S {
    mean_over(squared_distances(s, mean_over(s, n)), n).spec_sqrt()
}

/// The distance of each reward from the mean, in standard deviations.
pub open spec fn advantages_of<S: Real>(s: Seq<S>) -> Seq<S> {
    let n = s.len() as usize;
    let std = deviation(s, n).spec_larger(optim::ratio(1, 100_000_000));
    Seq::new(s.len(), |i: int| s[i].spec_minus(mean_over(s, n)).spec_over(std))
}

/// The last position among the first `n` at which no reward is greater.
pub open spec fn best_of<S: Real>(s: Seq<S>, n: int) -> int
    decreases n,
{
    if n <= 1 {
        0
    } else {
        let b = best_of(s, n - 1);
        if s[n - 1].spec_below(s[b]) {
            b
        } else {
            n - 1
        }
    }
}

/// The greatest of the first `n` numbers.
pub open spec fn greatest<S: Real>(s: Seq<S>, n: int) -> S
    decreases n,
{
    if n <= 0 {
        S::spec_lowest()
    } else {
        greatest(s, n - 1).spec_larger(s[n - 1])
    }
}

/// The least of the first `n` numbers.
pub open spec fn least<S: Real>(s: Seq<S>, n: int) -> S
    decreases n,
{
    if n <= 0 {
        S::spec_highest()
    } else {
        least(s, n - 1).spec_smaller(s[n - 1])
    }
}

/// The sum of numbers, in order.
pub fn total<S: Real>(v: &[S]) -> (r: S)
    ensures
        r == tensor::sum_of(v@),
{
    let mut acc = S::zero();
    for i in 0..v.len()
        invariant
            acc == number::sum_n(tensor::elements(v@), i as int),
    {
        acc = acc.plus(v[i]);
    }
    acc
}

fn mean<S: Real>(v: &[S], n: usize) -> (r: S)
    ensures
        r == mean_over(v@, n),
{
    total(v).over(S::count(n))
}

fn spread<S: Real>(v: &[S], n: usize) -> (r: S)
    ensures
        r == deviation(v@, n),
{
    let m = mean(v, n);
    let mut sq: Vec<S> = Vec::new();
    for i in 0..v.len()
        invariant
            m == mean_over(v@, n),
            sq@ =~= squared_distances(v@, m).take(i as int),
    {
        sq.push(v[i].minus(m).powi(2));
    }
    assert(sq@ =~= squared_distances(v@, m));
    mean(&sq, n).sqrt()
}

impl<S: Real> GrpoGroup<S> {
    /// The distance of each reward from the mean of the group, in standard deviations.
    pub fn advantages(&self) -> (r: Vec<S>)
        ensures
            r@ == advantages_of(self.rewards@),
    {
        let n: usize = self.rewards.len();
        if n == 0 {
            let none: Vec<S> = Vec::new();
            assert(none@ =~= advantages_of(self.rewards@));
            return none;
        }
        let m = mean(&self.rewards, n);
        let std = spread(&self.rewards, n).larger(fraction(1, 100_000_000));
        let mut out: Vec<S> = Vec::new();
        for i in 0..n
            invariant
                n == self.rewards@.len(),
                m == mean_over(self.rewards@, n),
                std == deviation(self.rewards@, n).spec_larger(optim::ratio(1, 100_000_000)),
                out@ =~= advantages_of(self.rewards@).take(i as int),
        {
            out.push(self.rewards[i].minus(m).over(std));
        }
        assert(out@ =~= advantages_of(self.rewards@));
        out
    }

    /// The position of the highest reward; of several, the last.
    pub fn best_index(&self) -> (r: usize)
        ensures
            r == best_of(self.rewards@, self.rewards@.len() as int),
            self.rewards@.len() > 0 ==> r < self.rewards@.len(),
    {
        let n: usize = self.rewards.len();
        let mut best: usize = 0;
        if n > 0 {
            for i in 1..n
                invariant
                    n == self.rewards@.len(),
                    best == best_of(self.rewards@, i as int),
                    best < i,
            {
                if !self.rewards[i].below(self.rewards[best]) {
                    best = i;
                }
            }
        }
        best
    }

    /// The response with the highest reward.
    pub fn best_response(&self) -> (r: &str)
        requires
            best_of(self.rewards@, self.rewards@.len() as int) < self.responses@.len(),
        ensures
            r@ == self.responses@[best_of(self.rewards@, self.rewards@.len() as int)]@,
    {
        let i: usize = self.best_index();
        self.responses[i].as_str()
    }
}

/// What one group shows.
#[derive(Debug, Clone, Copy)]
pub struct GrpoStats<S> {
    pub step: usize,
    pub mean_reward: S,
    pub std_reward: S,
    pub mean_advantage: S,
    pub best_reward: S,
    pub worst_reward: S,
}

/// At least one.
pub open spec fn at_least_one(n: nat) -> usize {
    if n < 1 {
        1
    } else {
        n as usize
    }
}

/// What a group with these rewards shows.
pub open spec fn stats_of<S: Real>(step: usize, rewards: Seq<S>) -> GrpoStats<S> {
    let n = at_least_one(rewards.len());
    GrpoStats {
        step,
        mean_reward: mean_over(rewards, n),
        std_reward: deviation(rewards, n),
        mean_advantage: mean_over(advantages_of(rewards), n),
        best_reward: greatest(rewards, rewards.len() as int),
        worst_reward: least(rewards, rewards.len() as int),
    }
}

/// What the groups show.
pub open spec fn stats_of_groups<S: Real>(groups: Seq<GrpoGroup<S>>) -> Seq<GrpoStats<S>> {
    Seq::new(groups.len(), |i: int| stats_of(i as usize, groups[i].rewards@))
}

/// Keeps what the groups showed.
#[derive(Debug, Clone)]
pub struct GrpoTrainer<S> {
    pub config: GrpoConfig<S>,
    pub history: Vec<GrpoStats<S>>,
}

impl<S: Real> GrpoTrainer<S> {
    pub fn new(config: GrpoConfig<S>) -> (r: Self)
        ensures
            r.config == config,
            r.history@ == Seq::<GrpoStats<S>>::empty(),
    {
        GrpoTrainer { config, history: Vec::new() }
    }

    /// What each group shows; it is kept as well.
    pub fn step(&mut self, groups: &[GrpoGroup<S>]) -> (r: Vec<GrpoStats<S>>)
        ensures
            r@ == stats_of_groups(groups@),
            final(self).history@ == old(self).history@ + r@,
            final(self).config == old(self).config,
    {
        let mut out: Vec<GrpoStats<S>> = Vec::new();
        for k in 0..groups.len()
            invariant
                out@ =~= stats_of_groups(groups@).take(k as int),
                self.config == old(self).config,
                self.history@ =~= old(self).history@ + out@,
        {
            let rewards = &groups[k].rewards;
            let len: usize = rewards.len();
            let n: usize = if len < 1 {
                1
            } else {
                len
            };
            let adv = groups[k].advantages();
            let mut best = S::lowest();
            let mut worst = S::highest();
            for i in 0..len
                invariant
                    len == rewards@.len(),
                    best == greatest(rewards@, i as int),
                    worst == least(rewards@, i as int),
            {
                best = best.larger(rewards[i]);
                worst = worst.smaller(rewards[i]);
            }
            let stats = GrpoStats {
                step: k,
                mean_reward: mean(rewards, n),
                std_reward: spread(rewards, n),
                mean_advantage: mean(&adv, n),
                best_reward: best,
                worst_reward: worst,
            };
            assert(stats == stats_of_groups(groups@)[k as int]);
            out.push(stats);
            self.history.push(stats);
        }
        assert(out@ =~= stats_of_groups(groups@));
        out
    }
}

// ---- Scoring code

/// What code is judged by.
#[derive(Debug, Clone, Copy, PartialEq, Eq, Structural)]
pub enum RewardDimension {
    Correctness,
    Readability,
    Style,
    Aesthetics,
}

/// How code does in each dimension.
#[derive(Debug, Clone, Copy)]
pub struct RewardScore<S> {
    pub correctness: S,
    pub readability: S,
    pub style: S,
    pub aesthetics: S,
}

/// How much each dimension counts.
#[derive(Debug, Clone, Copy)]
pub struct RewardWeights<S> {
    pub correctness: S,
    pub readability: S,
    pub style: S,
    pub aesthetics: S,
}

impl<S: Real> Default for RewardWeights<S> {
    fn default() -> (r: Self)
        ensures
            r == (RewardWeights::<S> {
                correctness: optim::ratio(5, 10),
                readability: optim::ratio(2, 10),
                style: optim::ratio(15, 100),
                aesthetics: optim::ratio(15, 100),
            }),
    {
        RewardWeights {
            correctness: fraction(5, 10),
            readability: fraction(2, 10),
            style: fraction(15, 100),
            aesthetics: fraction(15, 100),
        }
    }
}

/// The weighted sum of the dimensions.
pub open spec fn weighted_total<S: Real>(s: RewardScore<S>, w: RewardWeights<S>) -> S {
    w.correctness.spec_times(s.correctness).spec_plus(
        w.readability.spec_times(s.readability),
    ).spec_plus(w.style.spec_times(s.style)).spec_plus(w.aesthetics.spec_times(s.aesthetics))
}

impl<S: Real> RewardScore<S> {
    /// The weighted sum of the dimensions.
    pub fn total(&self, weights: &RewardWeights<S>) -> (r: S)
        ensures
            r == weighted_total(*self, *weights),
    {
        weights.correctness.times(self.correctness).plus(
            weights.readability.times(self.readability),
        ).plus(weights.style.times(self.style)).plus(weights.aesthetics.times(self.aesthetics))
    }

    /// The dimensions in a row.
    pub fn to_vec(&self) -> (r: Vec<S>)
        ensures
            r@ == seq![self.correctness, self.readability, self.style, self.aesthetics],
    {
        let mut v: Vec<S> = Vec::new();
        v.push(self.correctness);
        v.push(self.readability);
        v.push(self.style);
        v.push(self.aesthetics);
        assert(v@ =~= seq![self.correctness, self.readability, self.style, self.aesthetics]);
        v
    }
}

/// A score with something added where a condition holds.
pub open spec fn plus_if<S: Real>(score: S, cond: bool, n: usize, d: usize) -> S {
    if cond {
        score.spec_plus(optim::ratio(n, d))
    } else {
        score
    }
}

/// A score held between zero and one.
pub open spec fn clamped<S: Real>(x: S) -> S {
    if x.spec_below(S::spec_zero()) {
        S::spec_zero()
    } else if S::spec_one().spec_below(x) {
        S::spec_one()
    } else {
        x
    }
}

/// How often a character occurs.
pub open spec fn count_char(s: Seq<char>, c: char) -> nat
    decreases s.len(),
{
    if s.len() == 0 {
        0
    } else {
        count_char(s.drop_last(), c) + (if s.last() == c {
            1nat
        } else {
            0
        })
    }
}

/// The score for correctness: decided by the tests where there are some; otherwise half, and more
/// for braces that match, for a function or a return, and for nothing being left open.
pub open spec fn correctness_of<S: Real>(code: Seq<char>, tests_passed: Option<bool>) -> S {
    match tests_passed {
        Some(true) => S::spec_one(),
        Some(false) => S::spec_zero(),
        None => {
            let s = optim::ratio::<S>(5, 10);
            let s = plus_if(s, count_char(code, '{') == count_char(code, '}'), 2, 10);
            let s = plus_if(
                s,
                text::holds_text(code, "return"@) || text::holds_text(code, "fn "@),
                15,
                100,
            );
            let s = plus_if(
                s,
                !text::holds_text(code, "todo!"@) && !text::holds_text(code, "unimplemented!"@),
                15,
                100,
            );
            clamped(s)
        },
    }
}

/// The lengths of lines in bytes, as numbers.
pub open spec fn line_lengths<S: Real>(lines: Seq<Seq<char>>) -> Seq<S> {
    Seq::new(lines.len(), |i: int| S::spec_count(text::byte_len(lines[i]) as usize))
}

/// A line with a function and without upper-case letters.
pub open spec fn is_snake(line: Seq<char>) -> bool {
    text::holds_text(line, "fn "@) && forall|i: int|
        0 <= i < line.len() ==> !uppercase(#[trigger] line[i])
}

/// A line that is a comment.
pub open spec fn is_comment(line: Seq<char>) -> bool {
    text::occurs(text::strip_front(line, None), "//"@, 0)
}

/// A line that is not blank.
pub open spec fn is_filled(line: Seq<char>) -> bool {
    text::trimmed(line).len() > 0
}

/// A line with space at its end.
pub open spec fn has_trailing(line: Seq<char>) -> bool {
    line.len() > 0 && (line.last() == ' ' || line.last() == '\t')
}

/// What is counted about lines.
#[derive(Debug, Clone, Copy, PartialEq, Eq, Structural)]
pub enum LineKind {
    Snake,
    Comment,
    Filled,
    Trailing,
}

pub open spec fn is_kind(kind: LineKind, line: Seq<char>) -> bool {
    match kind {
        LineKind::Snake => is_snake(line),
        LineKind::Comment => is_comment(line),
        LineKind::Filled => is_filled(line),
        LineKind::Trailing => has_trailing(line),
    }
}

/// The number of lines of a kind.
pub open spec fn count_lines(kind: LineKind, lines: Seq<Seq<char>>) -> nat
    decreases lines.len(),
{
    if lines.len() == 0 {
        0
    } else {
        count_lines(kind, lines.drop_last()) + (if is_kind(kind, lines.last()) {
            1nat
        } else {
            0
        })
    }
}

/// The depth of braces after a text, and the greatest on the way.
pub open spec fn nesting(s: Seq<char>) -> (int, int)
    decreases s.len(),
{
    if s.len() == 0 {
        (0, 0)
    } else {
        let (depth, max) = nesting(s.drop_last());
        let d = if s.last() == '{' {
            depth + 1
        } else if s.last() == '}' {
            depth - 1
        } else {
            depth
        };
        (d, if max < d {
            d
        } else {
            max
        })
    }
}

/// The score for readability: for lines of a middle length, for functions in snake case, for
/// comments, and for code that is not nested deeply.
pub open spec fn readability_of<S: Real>(code: Seq<char>) -> S {
    let lines = text::lines_of(code);
    if lines.len() == 0 {
        S::spec_zero()
    } else {
        let avg = mean_over(line_lengths::<S>(lines), lines.len() as usize);
        let s = plus_if(
            S::spec_zero(),
            S::spec_zero().spec_below(avg) && avg.spec_below(S::spec_count(100)),
            3,
            10,
        );
        let fns = text::count_text(code, "fn "@, code.len() as int);
        let s = if fns > 0 {
            s.spec_plus(
                optim::ratio::<S>(3, 10).spec_times(
                    S::spec_count(count_lines(LineKind::Snake, lines) as usize).spec_over(
                        S::spec_count(fns as usize),
                    ),
                ),
            )
        } else {
            s.spec_plus(optim::ratio(3, 10))
        };
        let s = plus_if(s, count_lines(LineKind::Comment, lines) > 0, 2, 10);
        let s = plus_if(s, nesting(code).1 <= 4, 2, 10);
        clamped(s)
    }
}

/// How far a line is indented, in bytes, modulo four; nothing for a line that is not.
pub open spec fn indent_unit(line: Seq<char>) -> Option<int> {
    let ws = text::byte_len(line) - text::byte_len(text::strip_front(line, None));
    if ws > 0 {
        Some(ws % 4)
    } else {
        None
    }
}

/// Some line that is not blank is indented by a unit.
pub open spec fn has_unit(lines: Seq<Seq<char>>, unit: int) -> bool {
    exists|i: int|
        0 <= i < lines.len() && is_filled(#[trigger] lines[i]) && indent_unit(lines[i]) == Some(
            unit,
        )
}

/// All lines that are not blank are indented by the same unit, if at all.
pub open spec fn one_unit(lines: Seq<Seq<char>>) -> bool {
    forall|a: int, b: int| #[trigger] has_unit(lines, a) && #[trigger] has_unit(lines, b) ==> a == b
}

/// The score for style: half, and more for one unit of indentation and for no trailing space.
pub open spec fn style_of<S: Real>(code: Seq<char>) -> S {
    let lines = text::lines_of(code);
    let s = optim::ratio::<S>(5, 10);
    if count_lines(LineKind::Filled, lines) == 0 {
        s
    } else {
        let s = plus_if(s, one_unit(lines), 3, 10);
        let s = plus_if(s, count_lines(LineKind::Trailing, lines) == 0, 2, 10);
        clamped(s)
    }
}

/// The bytes of comments.
pub open spec fn comment_bytes(lines: Seq<Seq<char>>) -> nat
    decreases lines.len(),
{
    if lines.len() == 0 {
        0
    } else {
        comment_bytes(lines.drop_last()) + (if is_comment(lines.last()) {
            text::byte_len(lines.last())
        } else {
            0
        })
    }
}

/// The score for aesthetics: for short lines, for few comments, and for few blank lines.
pub open spec fn aesthetics_of<S: Real>(code: Seq<char>) -> S {
    let lines = text::lines_of(code);
    let filled = count_lines(LineKind::Filled, lines);
    if filled == 0 {
        S::spec_zero()
    } else {
        let bytes = text::byte_len(code);
        let per_line = S::spec_count(bytes as usize).spec_over(S::spec_count(filled as usize));
        let s = plus_if(S::spec_zero(), per_line.spec_below(S::spec_count(80)), 4, 10);
        let comments = S::spec_count(comment_bytes(lines) as usize).spec_over(
            S::spec_count(at_least_one(bytes)),
        );
        let s = plus_if(s, comments.spec_below(optim::ratio(3, 10)), 3, 10);
        let blank = S::spec_count((lines.len() - filled) as usize).spec_over(
            S::spec_count(at_least_one(lines.len())),
        );
        let s = plus_if(s, blank.spec_below(optim::ratio(2, 10)), 3, 10);
        clamped(s)
    }
}

/// The scores in all dimensions.
pub open spec fn score_of<S: Real>(code: Seq<char>, tests_passed: Option<bool>) -> RewardScore<S> {
    RewardScore {
        correctness: correctness_of(code, tests_passed),
        readability: readability_of(code),
        style: style_of(code),
        aesthetics: aesthetics_of(code),
    }
}

fn add_if<S: Real>(score: S, cond: bool, n: usize, d: usize) -> (r: S)
    ensures
        r == plus_if(score, cond, n, d),
{
    if cond {
        score.plus(fraction(n, d))
    } else {
        score
    }
}

pub fn clamp<S: Real>(x: S) -> (r: S)
    ensures
        r == clamped(x),
{
    if x.below(S::zero()) {
        S::zero()
    } else if S::one().below(x) {
        S::one()
    } else {
        x
    }
}

fn count_of_char(s: &[char], c: char) -> (r: usize)
    ensures
        r == count_char(s@, c),
{
    let mut n: usize = 0;
    assert(s@.take(0) =~= Seq::<char>::empty());
    for i in 0..s.len()
        invariant
            n == count_char(s@.take(i as int), c),
            n <= i,
    {
        assert(s@.take(i + 1).drop_last() =~= s@.take(i as int));
        if s[i] == c {
            n = n + 1;
        }
    }
    assert(s@.take(s@.len() as int) =~= s@);
    n
}

/// A line without the space in front.
fn strip_start(line: &[char]) -> (r: Vec<char>)
    ensures
        r@ == text::strip_front(line@, None),
{
    let mut i: usize = 0;
    assert(line@.skip(0) =~= line@);
    while i < line.len() && text::is_space(line[i])
        invariant
            i <= line@.len(),
            text::strip_front(line@, None) == text::strip_front(line@.skip(i as int), None),
        decreases line@.len() - i,
    {
        assert(line@.skip(i as int)[0] == line@[i as int]);
        assert(line@.skip(i as int).skip(1) =~= line@.skip(i + 1));
        i = i + 1;
    }
    proof {
        if i < line@.len() {
            assert(line@.skip(i as int)[0] == line@[i as int]);
        }
        assert(line@.subrange(i as int, line@.len() as int) =~= line@.skip(i as int));
    }
    text::part(line, i, line.len())
}

fn line_is(kind: LineKind, line: &[char]) -> (r: bool)
    ensures
        r == is_kind(kind, line@),
{
    match kind {
        LineKind::Snake => {
            if !contains(line, "fn ") {
                return false;
            }
            for i in 0..line.len()
                invariant
                    kind == LineKind::Snake,
                    forall|j: int| 0 <= j < i ==> !uppercase(#[trigger] line@[j]),
            {
                if line[i].is_uppercase() {
                    assert(!is_snake(line@));
                    return false;
                }
            }
            true
        },
        LineKind::Comment => {
            let t = strip_start(line);
            text::starts_with(&t, "//")
        },
        LineKind::Filled => trim(line).len() > 0,
        LineKind::Trailing => {
            line.len() > 0 && (line[line.len() - 1] == ' ' || line[line.len() - 1] == '\t')
        },
    }
}

fn count_of_lines(kind: LineKind, v: &[Vec<char>]) -> (r: usize)
    ensures
        r == count_lines(kind, text::views(v@)),
        r <= v@.len(),
{
    let ghost lv = text::views(v@);
    let mut n: usize = 0;
    assert(lv.take(0) =~= Seq::<Seq<char>>::empty());
    for i in 0..v.len()
        invariant
            lv == text::views(v@),
            n == count_lines(kind, lv.take(i as int)),
            n <= i,
    {
        proof {
            assert(lv.take(i + 1).drop_last() =~= lv.take(i as int));
            assert(lv.take(i + 1).last() == v@[i as int]@);
        }
        if line_is(kind, &v[i]) {
            n = n + 1;
        }
    }
    assert(lv.take(lv.len() as int) =~= lv);
    n
}

fn line_bytes(line: &[char]) -> (r: usize)
    ensures
        r == text::byte_len(line@),
{
    byte_count(string_of(line).as_str())
}

fn score_correctness<S: Real>(code: &[char], tests_passed: Option<bool>) -> (r: S)
    ensures
        r == correctness_of::<S>(code@, tests_passed),
{
    if let Some(passed) = tests_passed {
        return if passed {
            S::one()
        } else {
            S::zero()
        };
    }
    let score = fraction::<S>(5, 10);
    let score = add_if(score, count_of_char(code, '{') == count_of_char(code, '}'), 2, 10);
    let has = contains(code, "return") || contains(code, "fn ");
    let score = add_if(score, has, 15, 100);
    let done = !contains(code, "todo!") && !contains(code, "unimplemented!");
    let score = add_if(score, done, 15, 100);
    clamp(score)
}

fn deepest(code: &[char]) -> (r: i128)
    ensures
        r == nesting(code@).1,
{
    let mut depth: i128 = 0;
    let mut max: i128 = 0;
    assert(code@.take(0) =~= Seq::<char>::empty());
    let n: usize = code.len();
    for i in 0..n
        invariant
            n == code@.len(),
            (depth as int, max as int) == nesting(code@.take(i as int)),
            -(i as int) <= depth <= i,
            0 <= max <= i,
    {
        assert(code@.take(i + 1).drop_last() =~= code@.take(i as int));
        if code[i] == '{' {
            depth = depth + 1;
        } else if code[i] == '}' {
            depth = depth - 1;
        }
        if max < depth {
            max = depth;
        }
    }
    assert(code@.take(code@.len() as int) =~= code@);
    max
}

fn score_readability<S: Real>(code: &[char]) -> (r: S)
    ensures
        r == readability_of::<S>(code@),
{
    let all = lines(code);
    let ghost lv = text::views(all@);
    let n: usize = all.len();
    if n == 0 {
        return S::zero();
    }
    let mut lengths: Vec<S> = Vec::new();
    for i in 0..n
        invariant
            n == all@.len(),
            lv == text::views(all@),
            lengths@ =~= line_lengths::<S>(lv).take(i as int),
    {
        assert(lv[i as int] == all@[i as int]@);
        lengths.push(S::count(line_bytes(&all[i])));
    }
    assert(lengths@ =~= line_lengths::<S>(lv));
    let avg = mean(&lengths, n);
    let middle = S::zero().below(avg) && avg.below(S::count(100));
    let score = add_if(S::zero(), middle, 3, 10);
    let fns: usize = count_occurrences(code, "fn ");
    let snake: usize = count_of_lines(LineKind::Snake, &all);
    let score = if fns > 0 {
        score.plus(fraction::<S>(3, 10).times(S::count(snake).over(S::count(fns))))
    } else {
        score.plus(fraction(3, 10))
    };
    let score = add_if(score, count_of_lines(LineKind::Comment, &all) > 0, 2, 10);
    let score = add_if(score, deepest(code) <= 4, 2, 10);
    clamp(score)
}

/// Whether all lines that are not blank are indented by the same unit, if at all.
fn has_one_unit(v: &[Vec<char>]) -> (r: bool)
    ensures
        r == one_unit(text::views(v@)),
{
    let ghost lv = text::views(v@);
    let mut unit: Option<usize> = None;
    for i in 0..v.len()
        invariant
            lv == text::views(v@),
            match unit {
                None => forall|k: int|
                    0 <= k < i ==> !(is_filled(#[trigger] lv[k]) && indent_unit(lv[k]) is Some),
                Some(u) => has_unit(lv, u as int) && forall|k: int|
                    0 <= k < i && is_filled(#[trigger] lv[k]) && indent_unit(lv[k]) is Some
                        ==> indent_unit(lv[k]) == Some(u as int),
            },
    {
        assert(lv[i as int] == v@[i as int]@);
        if line_is(LineKind::Filled, &v[i]) {
            let t = strip_start(&v[i]);
            let whole: usize = line_bytes(&v[i]);
            let rest: usize = line_bytes(&t);
            if whole > rest {
                let u: usize = (whole - rest) % 4;
                assert(indent_unit(lv[i as int]) == Some(u as int));
                assert(has_unit(lv, u as int));
                match unit {
                    None => {
                        unit = Some(u);
                    },
                    Some(x) => {
                        if x != u {
                            assert(!one_unit(lv));
                            return false;
                        }
                    },
                }
            }
        }
    }
    assert forall|a: int, b: int| #[trigger] has_unit(lv, a) && #[trigger] has_unit(
        lv,
        b,
    ) implies a == b by {
        let i = choose|i: int|
            0 <= i < lv.len() && is_filled(#[trigger] lv[i]) && indent_unit(lv[i]) == Some(a);
        let j = choose|j: int|
            0 <= j < lv.len() && is_filled(#[trigger] lv[j]) && indent_unit(lv[j]) == Some(b);
        assert(is_filled(lv[i]));
        assert(is_filled(lv[j]));
    }
    true
}

fn score_style<S: Real>(code: &[char]) -> (r: S)
    ensures
        r == style_of::<S>(code@),
{
    let all = lines(code);
    let score = fraction::<S>(5, 10);
    if count_of_lines(LineKind::Filled, &all) == 0 {
        return score;
    }
    let score = add_if(score, has_one_unit(&all), 3, 10);
    let score = add_if(score, count_of_lines(LineKind::Trailing, &all) == 0, 2, 10);
    clamp(score)
}

proof fn lemma_comment_bytes(v: Seq<Seq<char>>)
    ensures
        comment_bytes(v) <= text::total_bytes(v),
    decreases v.len(),
{
    if v.len() > 0 {
        lemma_comment_bytes(v.drop_last());
    }
}

fn score_aesthetics<S: Real>(code: &str) -> (r: S)
    ensures
        r == aesthetics_of::<S>(code@),
{
    let chars = chars_of(code);
    let all = lines(&chars);
    let ghost lv = text::views(all@);
    let n: usize = all.len();
    let filled: usize = count_of_lines(LineKind::Filled, &all);
    if filled == 0 {
        return S::zero();
    }
    let bytes: usize = byte_count(code);
    let per_line = S::count(bytes).over(S::count(filled));
    let score = add_if(S::zero(), per_line.below(S::count(80)), 4, 10);
    let mut comments: usize = 0;
    proof {
        text::lemma_line_bytes(code@);
        assert(lv.take(0) =~= Seq::<Seq<char>>::empty());
    }
    for i in 0..n
        invariant
            n == all@.len(),
            lv == text::views(all@),
            text::total_bytes(lv) <= bytes,
            comments == comment_bytes(lv.take(i as int)),
    {
        proof {
            text::lemma_total_prefix(lv, i as int);
            lemma_comment_bytes(lv.take(i as int));
            assert(lv.take(i + 1).drop_last() =~= lv.take(i as int));
            assert(lv.take(i + 1).last() == all@[i as int]@);
        }
        if line_is(LineKind::Comment, &all[i]) {
            comments = comments + line_bytes(&all[i]);
        }
    }
    assert(lv.take(lv.len() as int) =~= lv);
    let share = S::count(comments).over(
        S::count(
            if bytes < 1 {
                1
            } else {
                bytes
            },
        ),
    );
    let score = add_if(score, share.below(fraction(3, 10)), 3, 10);
    let blank = S::count(n - filled).over(
        S::count(
            if n < 1 {
                1
            } else {
                n
            },
        ),
    );
    let score = add_if(score, blank.below(fraction(2, 10)), 3, 10);
    clamp(score)
}

/// Judges code.
#[derive(Debug, Clone, Copy)]
pub struct RewardModel<S> {
    pub weights: RewardWeights<S>,
}

impl<S: Real> RewardModel<S> {
    pub fn new(weights: RewardWeights<S>) -> (r: Self)
        ensures
            r.weights == weights,
    {
        RewardModel { weights }
    }

    /// The scores of code in all dimensions.
    pub fn score(&self, code: &str, tests_passed: Option<bool>) -> (r: RewardScore<S>)
        ensures
            r == score_of::<S>(code@, tests_passed),
    {
        let chars = chars_of(code);
        RewardScore {
            correctness: score_correctness(&chars, tests_passed),
            readability: score_readability(&chars),
            style: score_style(&chars),
            aesthetics: score_aesthetics(code),
        }
    }

    /// The weighted score of code.
    pub fn reward(&self, code: &str, tests_passed: Option<bool>) -> (r: S)
        ensures
            r == weighted_total(score_of::<S>(code@, tests_passed), self.weights),
    {
        self.score(code, tests_passed).total(&self.weights)
    }
}

// ---- Two models against each other

/// What a model does in the game.
#[derive(Debug, Clone, Copy, PartialEq, Eq, Structural)]
pub enum ModelRole {
    /// Writes code.
    CodeGenerator,
    /// Writes tests that break code.
    TestGenerator,
}

/// One piece of code and how it did.
#[derive(Debug, Clone)]
pub struct AdversarialEpisode<S> {
    pub problem: String,
    pub generated_code: String,
    pub generated_tests: String,
    pub tests_passed: bool,
    pub code_reward: RewardScore<S>,
    /// One if the tests caught a bug.
    pub test_reward: S,
}

/// What a round shows.
#[derive(Debug, Clone, Copy)]
pub struct CoEvolutionStats<S> {
    pub round: usize,
    /// The share of code that passed.
    pub code_pass_rate: S,
    /// The share of code that was broken.
    pub test_break_rate: S,
    pub avg_code_reward: S,
    /// Grows with the rounds.
    pub difficulty: S,
}

/// An episode as texts.
#[verifier::ext_equal]
pub struct Episode<S> {
    pub problem: Seq<char>,
    pub code: Seq<char>,
    pub tests: Seq<char>,
    pub passed: bool,
    pub code_reward: RewardScore<S>,
    pub test_reward: S,
}

impl<S> View for AdversarialEpisode<S> {
    type V = Episode<S>;

    open spec fn view(&self) -> Episode<S> {
        Episode {
            problem: self.problem@,
            code: self.generated_code@,
            tests: self.generated_tests@,
            passed: self.tests_passed,
            code_reward: self.code_reward,
            test_reward: self.test_reward,
        }
    }
}

/// Episodes as texts.
pub open spec fn episodes_of<S>(v: Seq<AdversarialEpisode<S>>) -> Seq<Episode<S>> {
    Seq::new(v.len(), |i: int| v[i]@)
}

/// A group as texts.
#[verifier::ext_equal]
pub struct Group<S> {
    pub prompt: Seq<char>,
    pub responses: Seq<Seq<char>>,
    pub rewards: Seq<S>,
}

impl<S> View for GrpoGroup<S> {
    type V = Group<S>;

    open spec fn view(&self) -> Group<S> {
        Group {
            prompt: self.prompt@,
            responses: text::texts(self.responses@),
            rewards: self.rewards@,
        }
    }
}

/// Groups as texts.
pub open spec fn groups_of<S>(v: Seq<GrpoGroup<S>>) -> Seq<Group<S>> {
    Seq::new(v.len(), |i: int| v[i]@)
}

/// What groups show.
pub open spec fn shown_by<S: Real>(groups: Seq<Group<S>>) -> Seq<GrpoStats<S>> {
    Seq::new(groups.len(), |i: int| stats_of(i as usize, groups[i].rewards))
}

/// What a round has brought so far.
#[verifier::ext_equal]
pub struct Tally<S> {
    pub episodes: Seq<Episode<S>>,
    pub code_groups: Seq<Group<S>>,
    pub test_groups: Seq<Group<S>>,
    pub passes: nat,
    pub breaks: nat,
    pub total: S,
}

/// What a round starts with.
pub open spec fn empty_tally<S: Real>() -> Tally<S> {
    Tally {
        episodes: Seq::empty(),
        code_groups: Seq::empty(),
        test_groups: Seq::empty(),
        passes: 0,
        breaks: 0,
        total: S::spec_zero(),
    }
}

/// Some test was passed by the code with number `i` for a problem.
pub open spec fn passed_by(
    results: Seq<(String, String, bool)>,
    problem: Seq<char>,
    i: int,
) -> bool {
    exists|k: int|
        0 <= k < results.len() && (#[trigger] results[k]).0@ == problem && results[k].1@
            == text::digits(i as nat) && results[k].2
}

/// How many of the first `n` results are failures for a problem.
pub open spec fn failures(
    results: Seq<(String, String, bool)>,
    problem: Seq<char>,
    n: int,
) -> nat
    decreases n,
{
    if n <= 0 {
        0
    } else {
        failures(results, problem, n - 1) + (if results[n - 1].0@ == problem && !results[n - 1].2 {
            1nat
        } else {
            0
        })
    }
}

/// The samples for a problem.
pub open spec fn samples_for(t: Table<Vec<String>>, problem: Seq<char>) -> Seq<Seq<char>> {
    if t@.dom().contains(problem) {
        text::texts(t@[problem]@)
    } else {
        Seq::empty()
    }
}

/// The score of the code with number `i`.
pub open spec fn code_score<S: Real>(
    results: Seq<(String, String, bool)>,
    problem: Seq<char>,
    codes: Seq<Seq<char>>,
    i: int,
) -> RewardScore<S> {
    score_of::<S>(codes[i], Some(passed_by(results, problem, i)))
}

/// The tally after the first `n` pieces of code for a problem.
pub open spec fn after_codes<S: Real>(
    t: Tally<S>,
    weights: RewardWeights<S>,
    results: Seq<(String, String, bool)>,
    problem: Seq<char>,
    codes: Seq<Seq<char>>,
    tests: Seq<Seq<char>>,
    n: int,
) -> Tally<S>
    decreases n,
{
    if n <= 0 {
        t
    } else {
        let p = after_codes(t, weights, results, problem, codes, tests, n - 1);
        let passed = passed_by(results, problem, n - 1);
        let score = code_score::<S>(results, problem, codes, n - 1);
        Tally {
            episodes: p.episodes.push(
                Episode {
                    problem,
                    code: codes[n - 1],
                    tests: if tests.len() > 0 {
                        tests[0]
                    } else {
                        Seq::empty()
                    },
                    passed,
                    code_reward: score,
                    test_reward: if passed {
                        S::spec_zero()
                    } else {
                        S::spec_one()
                    },
                },
            ),
            passes: p.passes + (if passed {
                1nat
            } else {
                0
            }),
            breaks: p.breaks + (if passed {
                0nat
            } else {
                1
            }),
            total: p.total.spec_plus(weighted_total(score, weights)),
            ..p
        }
    }
}

/// The rewards of the pieces of code for a problem.
pub open spec fn code_rewards<S: Real>(
    weights: RewardWeights<S>,
    results: Seq<(String, String, bool)>,
    problem: Seq<char>,
    codes: Seq<Seq<char>>,
) -> Seq<S> {
    Seq::new(
        codes.len(),
        |i: int| weighted_total(code_score::<S>(results, problem, codes, i), weights),
    )
}

/// The tally after a problem; without code for it, as it was.
pub open spec fn after_problem<S: Real>(
    t: Tally<S>,
    weights: RewardWeights<S>,
    results: Seq<(String, String, bool)>,
    problem: Seq<char>,
    codes: Seq<Seq<char>>,
    tests: Seq<Seq<char>>,
) -> Tally<S> {
    if codes.len() == 0 {
        t
    } else {
        let p = after_codes(t, weights, results, problem, codes, tests, codes.len() as int);
        let share = S::spec_count(failures(results, problem, results.len() as int) as usize).spec_over(
            S::spec_count(codes.len() as usize),
        );
        Tally {
            code_groups: p.code_groups.push(
                Group {
                    prompt: problem,
                    responses: codes,
                    rewards: code_rewards(weights, results, problem, codes),
                },
            ),
            test_groups: if tests.len() > 0 {
                p.test_groups.push(
                    Group {
                        prompt: problem,
                        responses: tests,
                        rewards: Seq::new(tests.len(), |i: int| share),
                    },
                )
            } else {
                p.test_groups
            },
            ..p
        }
    }
}

/// The tally after the first `n` problems.
pub open spec fn after_problems<S: Real>(
    weights: RewardWeights<S>,
    results: Seq<(String, String, bool)>,
    problems: Seq<Seq<char>>,
    codes: Table<Vec<String>>,
    tests: Table<Vec<String>>,
    n: int,
) -> Tally<S>
    decreases n,
{
    if n <= 0 {
        empty_tally()
    } else {
        after_problem(
            after_problems(weights, results, problems, codes, tests, n - 1),
            weights,
            results,
            problems[n - 1],
            samples_for(codes, problems[n - 1]),
            samples_for(tests, problems[n - 1]),
        )
    }
}

/// What a round shows.
pub open spec fn round_stats<S: Real>(round: usize, t: Tally<S>) -> CoEvolutionStats<S> {
    let n = S::spec_count(at_least_one(t.episodes.len()));
    CoEvolutionStats {
        round,
        code_pass_rate: S::spec_count(t.passes as usize).spec_over(n),
        test_break_rate: S::spec_count(t.breaks as usize).spec_over(n),
        avg_code_reward: t.total.spec_over(n),
        difficulty: S::spec_count(round).spec_times(optim::ratio(1, 10)),
    }
}

/// The tally in the making.
struct Counts<S> {
    episodes: Vec<AdversarialEpisode<S>>,
    code_groups: Vec<GrpoGroup<S>>,
    test_groups: Vec<GrpoGroup<S>>,
    passes: usize,
    breaks: usize,
    total: S,
}

impl<S> Counts<S> {
    spec fn tally(&self) -> Tally<S> {
        Tally {
            episodes: episodes_of(self.episodes@),
            code_groups: groups_of(self.code_groups@),
            test_groups: groups_of(self.test_groups@),
            passes: self.passes as nat,
            breaks: self.breaks as nat,
            total: self.total,
        }
    }

    spec fn wf(&self) -> bool {
        self.passes + self.breaks == self.episodes@.len()
    }
}

fn did_pass(results: &[(String, String, bool)], problem: &str, i: usize) -> (r: bool)
    ensures
        r == passed_by(results@, problem@, i as int),
{
    let key = chars_of(problem);
    let number = chars_of(decimal(i as u64).as_str());
    for k in 0..results.len()
        invariant
            key@ == problem@,
            number@ == text::digits(i as nat),
            forall|j: int|
                0 <= j < k ==> !((#[trigger] results@[j]).0@ == problem@ && results@[j].1@
                    == text::digits(i as nat) && results@[j].2),
    {
        let p = chars_of(results[k].0.as_str());
        let c = chars_of(results[k].1.as_str());
        if same_chars(&p, &key) && same_chars(&c, &number) && results[k].2 {
            return true;
        }
    }
    false
}

fn count_failures(results: &[(String, String, bool)], problem: &str) -> (r: usize)
    ensures
        r == failures(results@, problem@, results@.len() as int),
{
    let key = chars_of(problem);
    let mut n: usize = 0;
    for k in 0..results.len()
        invariant
            key@ == problem@,
            n == failures(results@, problem@, k as int),
            n <= k,
    {
        let p = chars_of(results[k].0.as_str());
        if same_chars(&p, &key) && !results[k].2 {
            n = n + 1;
        }
    }
    n
}

fn samples(t: &Table<Vec<String>>, problem: &str) -> (r: Vec<String>)
    requires
        t.wf(),
    ensures
        text::texts(r@) == samples_for(*t, problem@),
{
    match t.get(problem) {
        Some(v) => copy_texts(v),
        None => {
            let none: Vec<String> = Vec::new();
            assert(text::texts(none@) =~= Seq::<Seq<char>>::empty());
            none
        },
    }
}

/// Plays one problem.
fn play<S: Real>(
    counts: &mut Counts<S>,
    model: &RewardModel<S>,
    results: &[(String, String, bool)],
    problem: &str,
    codes: Vec<String>,
    tests: Vec<String>,
)
    requires
        old(counts).wf(),
    ensures
        final(counts).wf(),
        final(counts).tally() == after_problem(
            old(counts).tally(),
            model.weights,
            results@,
            problem@,
            text::texts(codes@),
            text::texts(tests@),
        ),
{
    let ghost first = counts.tally();
    let ghost cv = text::texts(codes@);
    let ghost tv = text::texts(tests@);
    let n: usize = codes.len();
    if n == 0 {
        return ;
    }
    let mut rewards: Vec<S> = Vec::new();
    for i in 0..n
        invariant
            n == codes@.len(),
            cv == text::texts(codes@),
            tv == text::texts(tests@),
            counts.wf(),
            counts.tally() == after_codes(
                first,
                model.weights,
                results@,
                problem@,
                cv,
                tv,
                i as int,
            ),
            rewards@ =~= code_rewards(model.weights, results@, problem@, cv).take(i as int),
    {
        let passed = did_pass(results, problem, i);
        let score = model.score(codes[i].as_str(), Some(passed));
        assert(codes@[i as int]@ == cv[i as int]);
        let reward = score.total(&model.weights);
        rewards.push(reward);
        counts.total = counts.total.plus(reward);
        let first_tests = if tests.len() > 0 {
            assert(tv[0] == tests@[0]@);
            owned(tests[0].as_str())
        } else {
            String::new()
        };
        let episode = AdversarialEpisode {
            problem: owned(problem),
            generated_code: owned(codes[i].as_str()),
            generated_tests: first_tests,
            tests_passed: passed,
            code_reward: score,
            test_reward: if passed {
                S::zero()
            } else {
                S::one()
            },
        };
        let ghost before = episodes_of(counts.episodes@);
        let ghost ev = episode@;
        counts.episodes.push(episode);
        let len: usize = counts.episodes.len();
        proof {
            assert(episodes_of(counts.episodes@) =~= before.push(ev));
        }
        if passed {
            counts.passes = counts.passes + 1;
        } else {
            counts.breaks = counts.breaks + 1;
        }
        proof {
            assert(ev.tests =~= (if tv.len() > 0 {
                tv[0]
            } else {
                Seq::empty()
            }));
            assert(counts.tally() =~= after_codes(
                first,
                model.weights,
                results@,
                problem@,
                cv,
                tv,
                i + 1,
            ));
        }
    }
    assert(rewards@ =~= code_rewards(model.weights, results@, problem@, cv));
    let share = S::count(count_failures(results, problem)).over(S::count(n));
    let m: usize = tests.len();
    let group = GrpoGroup { prompt: owned(problem), responses: codes, rewards };
    let ghost before = groups_of(counts.code_groups@);
    let ghost gv = group@;
    counts.code_groups.push(group);
    assert(groups_of(counts.code_groups@) =~= before.push(gv));
    if m > 0 {
        let group = GrpoGroup {
            prompt: owned(problem),
            responses: tests,
            rewards: number::filled(share, m),
        };
        let ghost before = groups_of(counts.test_groups@);
        let ghost gv = group@;
        proof {
            assert(gv.rewards =~= Seq::new(tv.len(), |i: int| share));
        }
        counts.test_groups.push(group);
        assert(groups_of(counts.test_groups@) =~= before.push(gv));
    }
}

/// Trains two models against each other.
#[derive(Debug, Clone)]
pub struct CoEvolutionTrainer<S> {
    pub grpo: GrpoTrainer<S>,
    pub reward_model: RewardModel<S>,
    pub round: usize,
    pub stats: Vec<CoEvolutionStats<S>>,
    pub config: GrpoConfig<S>,
}

impl<S: Real> CoEvolutionTrainer<S> {
    pub fn new(grpo_config: GrpoConfig<S>, reward_weights: RewardWeights<S>) -> (r: Self)
        ensures
            r.grpo.config == grpo_config,
            r.grpo.history@ == Seq::<GrpoStats<S>>::empty(),
            r.reward_model.weights == reward_weights,
            r.round == 0,
            r.stats@ == Seq::<CoEvolutionStats<S>>::empty(),
            r.config == grpo_config,
    {
        CoEvolutionTrainer {
            grpo: GrpoTrainer::new(grpo_config),
            reward_model: RewardModel::new(reward_weights),
            round: 0,
            stats: Vec::new(),
            config: grpo_config,
        }
    }

    /// Plays one round: each piece of code is scored by whether it passed, tests by how much code
    /// they broke, and what the groups show is kept.
    pub fn co_evolve_round(
        &mut self,
        problems: &[String],
        code_samples: &Table<Vec<String>>,
        test_samples: &Table<Vec<String>>,
        test_results: &[(String, String, bool)],
    ) -> (r: Vec<AdversarialEpisode<S>>)
        requires
            code_samples.wf(),
            test_samples.wf(),
            old(self).round < usize::MAX,
        ensures
            ({
                let t = after_problems(
                    old(self).reward_model.weights,
                    test_results@,
                    text::texts(problems@),
                    *code_samples,
                    *test_samples,
                    problems@.len() as int,
                );
                &&& episodes_of(r@) == t.episodes
                &&& final(self).round == old(self).round + 1
                &&& final(self).stats@ == old(self).stats@.push(round_stats(final(self).round, t))
                &&& final(self).grpo.history@ == old(self).grpo.history@ + shown_by(t.code_groups)
                    + shown_by(t.test_groups)
                &&& t.passes + t.breaks == t.episodes.len()
            }),
            final(self).reward_model == old(self).reward_model,
            final(self).config == old(self).config,
            final(self).grpo.config == old(self).grpo.config,
    {
        self.round = self.round + 1;
        let mut counts: Counts<S> = Counts {
            episodes: Vec::new(),
            code_groups: Vec::new(),
            test_groups: Vec::new(),
            passes: 0,
            breaks: 0,
            total: S::zero(),
        };
        let ghost pv = text::texts(problems@);
        assert(counts.tally() =~= empty_tally::<S>());
        for i in 0..problems.len()
            invariant
                code_samples.wf(),
                test_samples.wf(),
                pv == text::texts(problems@),
                counts.wf(),
                counts.tally() == after_problems(
                    self.reward_model.weights,
                    test_results@,
                    pv,
                    *code_samples,
                    *test_samples,
                    i as int,
                ),
        {
            assert(pv[i as int] == problems@[i as int]@);
            let codes = samples(code_samples, problems[i].as_str());
            let tests = samples(test_samples, problems[i].as_str());
            play(
                &mut counts,
                &self.reward_model,
                test_results,
                problems[i].as_str(),
                codes,
                tests,
            );
        }
        let ghost t = counts.tally();
        self.grpo.step(&counts.code_groups);
        self.grpo.step(&counts.test_groups);
        proof {
            assert(stats_of_groups(counts.code_groups@) =~= shown_by(t.code_groups));
            assert(stats_of_groups(counts.test_groups@) =~= shown_by(t.test_groups));
        }
        let len: usize = counts.episodes.len();
        let n = S::count(
            if len < 1 {
                1
            } else {
                len
            },
        );
        let stats = CoEvolutionStats {
            round: self.round,
            code_pass_rate: S::count(counts.passes).over(n),
            test_break_rate: S::count(counts.breaks).over(n),
            avg_code_reward: counts.total.over(n),
            difficulty: S::count(self.round).times(fraction(1, 10)),
        };
        self.stats.push(stats);
        counts.episodes
    }
}

} // verus!
