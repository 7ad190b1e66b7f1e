//! Distillation: a small student learns from the outputs of a teacher.
use vstd::prelude::*;
use crate::activations;
use crate::blas;
use crate::bytes::Word;
use crate::finetune;
use crate::loss::{CrossEntropyLoss, Loss, MSELoss};
use crate::nn;
use crate::nn::{Draws, Layer, Linear, Module, ReLU, Sequential};
use crate::number;
use crate::number::Real;
use crate::optim;
use crate::optim::fraction;
use crate::quantize;
use crate::quantize::{QuantFormat, QuantizedModel, QuantizedTensor};
use crate::tensor;
use crate::tensor::{copy_slice, Op, Tensor, Value};

verus! {

/// How to distill.
#[derive(Debug, Clone, Copy)]
pub struct DistillConfig<S> {
    /// What the outputs are divided by before they are compared.
    pub temperature: S,
    /// The weight of the labels.
    pub alpha: S,
    /// The weight of the outputs of the teacher.
    pub beta: S,
    /// The weight of the features.
    pub gamma: S,
    pub epochs: usize,
    pub lr: S,
    pub batch_size: usize,
    /// The width of the student; zero for half that of the teacher.
    pub student_hidden: usize,
    /// The depth of the student; zero for half that of the teacher.
    pub student_layers: usize,
    /// Whether the trained student is also given in eight bits.
    pub quantize_output: bool,
}

impl<S: Real> Default for DistillConfig<S> {
    fn default() -> (r: Self)
        ensures
            r == (DistillConfig::<S> {
                temperature: S::spec_count(4),
                alpha: optim::ratio(3, 10),
                beta: optim::ratio(1, 2),
                gamma: optim::ratio(2, 10),
                epochs: 20,
                lr: optim::ratio(1, 1000),
                batch_size: 32,
                student_hidden: 0,
                student_layers: 0,
                quantize_output: false,
            }),
    {
        DistillConfig {
            temperature: S::count(4),
            alpha: fraction(3, 10),
            beta: fraction(1, 2),
            gamma: fraction(2, 10),
            epochs: 20,
            lr: fraction(1, 1000),
            batch_size: 32,
            student_hidden: 0,
            student_layers: 0,
            quantize_output: false,
        }
    }
}

impl<S: Real> DistillConfig<S> {
    pub fn with_temperature(self, t: S) -> (r: Self)
        ensures
            r == (DistillConfig { temperature: t, ..self }),
    {
        let mut c = self;
        c.temperature = t;
        c
    }

    pub fn with_weights(self, alpha: S, beta: S, gamma: S) -> (r: Self)
        ensures
            r == (DistillConfig { alpha, beta, gamma, ..self }),
    {
        let mut c = self;
        c.alpha = alpha;
        c.beta = beta;
        c.gamma = gamma;
        c
    }

    /// A student of half the width and half the depth.
    pub fn auto_student(self) -> (r: Self)
        ensures
            r == (DistillConfig { student_hidden: 0, student_layers: 0, ..self }),
    {
        let mut c = self;
        c.student_hidden = 0;
        c.student_layers = 0;
        c
    }

    /// Asks for the student in eight bits.
    pub fn quantize(self) -> (r: Self)
        ensures
            r == (DistillConfig { quantize_output: true, ..self }),
    {
        let mut c = self;
        c.quantize_output = true;
        c
    }
}

/// What came of a distillation.
#[derive(Debug, Clone)]
pub struct DistillResult<S> {
    pub student: Sequential<Layer<S>>,
    /// The student in eight bits, where that was asked for.
    pub quantized: Option<QuantizedModel<S>>,
    pub teacher_accuracy: S,
    pub student_accuracy: S,
    /// How many times more parameters the teacher has.
    pub compression_ratio: S,
    pub final_loss: S,
    pub loss_history: Vec<S>,
}

/// Distills a teacher into a student.
#[derive(Debug, Clone)]
pub struct Distiller<S, M> {
    pub teacher: M,
    pub config: DistillConfig<S>,
}

// ---- The student

/// The matrices among tensors.
pub open spec fn matrices<S>(v: Seq<Value<S>>) -> Seq<Value<S>> {
    v.filter(|t: Value<S>| t.shape.len() == 2)
}

/// The greater of two sizes.
pub open spec fn at_least(n: int, low: int) -> int {
    if n < low {
        low
    } else {
        n
    }
}

/// The greatest power of two that is no greater than a number, or one.
pub open spec fn low_power(n: nat) -> nat
    decreases n,
{
    if n < 2 {
        1
    } else {
        2 * low_power(n / 2)
    }
}

/// The power of two that is nearest to a number; of two, the smaller.
pub open spec fn nearest_power(n: nat) -> nat {
    let p = low_power(n);
    if n < p || n - p <= 2 * p - n {
        p
    } else {
        2 * p
    }
}

proof fn lemma_low_power(n: nat)
    requires
        n > 0,
    ensures
        low_power(n) <= n < 2 * low_power(n),
    decreases n,
{
    if n >= 2 {
        lemma_low_power(n / 2);
    }
}

/// No power of two is nearer.
pub proof fn lemma_nearest_power(n: nat, k: nat)
    requires
        n > 0,
    ensures
        ({
            let (a, b) = (nearest_power(n), vstd::arithmetic::power2::pow2(k));
            (if a < n {
                n - a
            } else {
                a - n
            }) <= (if b < n {
                n - b
            } else {
                b - n
            })
        }),
        exists|j: nat| nearest_power(n) == #[trigger] vstd::arithmetic::power2::pow2(j),
{
    lemma_low_power(n);
    let p = low_power(n);
    let m = lemma_is_power(n);
    vstd::arithmetic::power2::lemma_pow2_unfold(m + 1);
    assert(2 * p == vstd::arithmetic::power2::pow2(m + 1));
    if k <= m {
        if k < m {
            vstd::arithmetic::power2::lemma_pow2_strictly_increases(k, m);
        }
    } else if k > m + 1 {
        vstd::arithmetic::power2::lemma_pow2_strictly_increases(m + 1, k);
    }
}

proof fn lemma_is_power(n: nat) -> (m: nat)
    ensures
        low_power(n) == vstd::arithmetic::power2::pow2(m),
    decreases n,
{
    if n < 2 {
        vstd::arithmetic::power2::lemma2_to64();
        0
    } else {
        let m = lemma_is_power(n / 2);
        vstd::arithmetic::power2::lemma_pow2_unfold(m + 1);
        m + 1
    }
}

fn near_power(n: usize) -> (r: usize)
    requires
        2 * n <= usize::MAX,
    ensures
        r == nearest_power(n as nat),
{
    let mut p: usize = 1;
    let mut left: usize = n;
    while left >= 2
        invariant
            2 * n <= usize::MAX,
            p > 0,
            p * low_power(left as nat) == low_power(n as nat),
            p * left <= n,
        decreases left,
    {
        proof {
            let (a, b, l) = (p as int, low_power((left / 2) as nat) as int, left as int);
            let h = l / 2;
            assert(a * (2 * b) == (2 * a) * b) by (nonlinear_arith);
            assert((2 * a) * h <= a * l) by (nonlinear_arith)
                requires
                    2 * h <= l,
                    0 <= a,
            ;
            assert(2 * a <= a * l) by (nonlinear_arith)
                requires
                    2 <= l,
                    0 <= a,
            ;
        }
        p = 2 * p;
        left = left / 2;
    }
    proof {
        assert(p * 1 == p) by (nonlinear_arith);
        if n > 0 {
            lemma_low_power(n as nat);
        }
    }
    if n < p || n - p <= 2 * p - n {
        p
    } else {
        2 * p
    }
}

/// The width of the student: half that of the teacher, as the nearest power of two, but at least
/// sixteen.
pub open spec fn student_width<S>(c: DistillConfig<S>, teacher: Seq<Value<S>>) -> int {
    let m = matrices(teacher);
    let width: int = if m.len() > 0 {
        m[0].shape[0] as int
    } else {
        64
    };
    if c.student_hidden > 0 {
        c.student_hidden as int
    } else {
        at_least(nearest_power((width / 2) as nat) as int, 16)
    }
}

/// The depth of the student.
pub open spec fn student_depth<S>(c: DistillConfig<S>, teacher: Seq<Value<S>>) -> int {
    if c.student_layers > 0 {
        c.student_layers as int
    } else {
        at_least((matrices(teacher).len() / 2) as int, 1)
    }
}

/// The size of the input of a layer; beyond the last layer, the size of the output.
pub open spec fn dim_at(i: int, depth: int, width: int, input: int, output: int) -> int {
    if i <= 0 {
        input
    } else if i >= depth {
        output
    } else {
        width
    }
}

/// The number of weights of the first layers.
pub open spec fn weights_before(i: int, depth: int, width: int, input: int, output: int) -> int
    decreases i,
{
    if i <= 0 {
        0
    } else {
        weights_before(i - 1, depth, width, input, output) + dim_at(i, depth, width, input, output)
            * dim_at(i - 1, depth, width, input, output)
    }
}

/// Linear layers as drawn with rectifiers between them.
pub open spec fn is_student<S: Real>(
    layers: Seq<Layer<S>>,
    n: int,
    depth: int,
    width: int,
    input: int,
    output: int,
    draws: Seq<S>,
    at: int,
) -> bool {
    &&& layers.len() == (if n < depth {
        2 * n
    } else {
        2 * n - 1
    })
    &&& forall|i: int|
        0 <= i < n ==> {
            &&& #[trigger] layers[2 * i] matches Layer::Linear(l)
            &&& nn::drawn_linear(
                l,
                dim_at(i, depth, width, input, output) as usize,
                dim_at(i + 1, depth, width, input, output) as usize,
                true,
                draws,
                at + weights_before(i, depth, width, input, output),
            )
        }
    &&& forall|i: int| 0 <= i < n && i + 1 < depth ==> #[trigger] layers[2 * i + 1] is ReLU
}

proof fn lemma_weights_grow(i: int, j: int, depth: int, width: int, input: int, output: int)
    requires
        0 <= i <= j,
        0 <= width,
        0 <= input,
        0 <= output,
    ensures
        0 <= weights_before(i, depth, width, input, output) <= weights_before(
            j,
            depth,
            width,
            input,
            output,
        ),
    decreases j,
{
    if j > 0 {
        let (a, b) = (
            dim_at(j, depth, width, input, output),
            dim_at(j - 1, depth, width, input, output),
        );
        assert(0 <= a * b) by (nonlinear_arith)
            requires
                0 <= a,
                0 <= b,
        ;
        if i < j {
            lemma_weights_grow(i, j - 1, depth, width, input, output);
        } else {
            lemma_weights_grow(i - 1, j - 1, depth, width, input, output);
        }
    }
}

impl<S: Real, M: Module<S>> Distiller<S, M> {
    pub fn new(teacher: M, config: DistillConfig<S>) -> (r: Self)
        ensures
            r.teacher == teacher,
            r.config == config,
    {
        Distiller { teacher, config }
    }

    pub open spec fn width(&self) -> int {
        student_width(self.config, self.teacher.values())
    }

    pub open spec fn depth(&self) -> int {
        student_depth(self.config, self.teacher.values())
    }

    /// The number of weights of the student.
    pub open spec fn student_size(&self, input_dim: usize, output_dim: usize) -> int {
        weights_before(
            self.depth(),
            self.depth(),
            self.width(),
            input_dim as int,
            output_dim as int,
        )
    }

    /// The number of matrices of the teacher, and the height of the first one.
    fn teacher_shape(&self) -> (r: (usize, usize))
        requires
            self.teacher.wf(),
        ensures
            ({
                let m = matrices(self.teacher.values());
                &&& r.0 == m.len()
                &&& r.1 == (if m.len() > 0 {
                    m[0].shape[0] as int
                } else {
                    64
                })
            }),
    {
        let params = self.teacher.parameters();
        let ghost values = self.teacher.values();
        let ghost is_matrix = |t: Value<S>| t.shape.len() == 2;
        let mut count: usize = 0;
        let mut height: usize = 64;
        let n: usize = params.len();
        assert(values.take(0).filter(is_matrix) =~= Seq::<Value<S>>::empty()) by {
            reveal(Seq::filter);
        }
        for i in 0..n
            invariant
                n == params@.len(),
                nn::tensors_are(params@, values),
                is_matrix == (|t: Value<S>| t.shape.len() == 2),
                count <= i,
                count == values.take(i as int).filter(is_matrix).len(),
                height == (if count > 0 {
                    values.take(i as int).filter(is_matrix)[0].shape[0] as int
                } else {
                    64
                }),
        {
            let ghost before = values.take(i as int);
            proof {
                assert(params@[i as int].wf());
                reveal(Seq::filter);
                assert(values.take(i + 1).drop_last() =~= before);
                assert(values.take(i + 1).last() == values[i as int]);
            }
            if params[i].shape.len() == 2 {
                if count == 0 {
                    height = params[i].shape[0];
                }
                count = count + 1;
            }
        }
        assert(values.take(n as int) =~= values);
        (count, height)
    }

    /// The depth and the width of the student.
    fn student_shape(&self) -> (r: (usize, usize))
        requires
            self.teacher.wf(),
        ensures
            r.0 == self.depth(),
            r.1 == self.width(),
            r.0 > 0,
    {
        let (n_layers, teacher_hidden) = self.teacher_shape();
        let width: usize = if self.config.student_hidden > 0 {
            self.config.student_hidden
        } else {
            let near: usize = near_power(teacher_hidden / 2);
            if near < 16 {
                16
            } else {
                near
            }
        };
        let depth: usize = if self.config.student_layers > 0 {
            self.config.student_layers
        } else if n_layers / 2 < 1 {
            1
        } else {
            n_layers / 2
        };
        (depth, width)
    }

    /// How many weights a student takes, if that many can be counted.
    pub fn student_weights(&self, input_dim: usize, output_dim: usize) -> (r: Option<usize>)
        requires
            self.teacher.wf(),
        ensures
            match r {
                Some(n) => n == self.student_size(input_dim, output_dim),
                None => self.student_size(input_dim, output_dim) > usize::MAX,
            },
    {
        let (depth, width) = self.student_shape();
        let ghost (d, w, a, z) = (depth as int, width as int, input_dim as int, output_dim as int);
        let mut total: usize = 0;
        let mut prev: usize = input_dim;
        for i in 0..depth
            invariant
                d == depth,
                w == width,
                a == input_dim,
                z == output_dim,
                d == self.depth(),
                w == self.width(),
                prev == dim_at(i as int, d, w, a, z),
                total == weights_before(i as int, d, w, a, z),
        {
            let out: usize = if i == depth - 1 {
                output_dim
            } else {
                width
            };
            proof {
                assert(out == dim_at(i + 1, d, w, a, z));
                lemma_weights_grow(i as int, d, d, w, a, z);
                lemma_weights_grow(i + 1, d, d, w, a, z);
            }
            let more: usize = match out.checked_mul(prev) {
                Some(n) => n,
                None => {
                    return None;
                },
            };
            total = match total.checked_add(more) {
                Some(n) => n,
                None => {
                    return None;
                },
            };
            prev = out;
        }
        Some(total)
    }

    /// A student with the inputs and the outputs of the teacher, half as wide and half as deep
    /// unless the sizes are given.
    pub fn generate_student(&self, input_dim: usize, output_dim: usize, draws: &mut Draws<S>) -> (r:
        Sequential<Layer<S>>)
        requires
            self.teacher.wf(),
            old(draws).wf(),
            self.student_size(input_dim, output_dim) <= old(draws).left(),
        ensures
            old(draws).taken(final(draws), self.student_size(input_dim, output_dim)),
            is_student(
                r.layers@,
                self.depth(),
                self.depth(),
                self.width(),
                input_dim as int,
                output_dim as int,
                old(draws).values@,
                old(draws).next as int,
            ),
            r.wf(),
    {
        let (depth, width) = self.student_shape();
        let ghost (d, w, a, z) = (depth as int, width as int, input_dim as int, output_dim as int);
        let ghost first = *draws;
        let mut model: Sequential<Layer<S>> = Sequential::new();
        let mut prev: usize = input_dim;
        for i in 0..depth
            invariant
                d == depth,
                w == width,
                a == input_dim,
                z == output_dim,
                prev == dim_at(i as int, d, w, a, z),
                weights_before(d, d, w, a, z) <= first.left(),
                first.taken(draws, weights_before(i as int, d, w, a, z)),
                is_student(
                    model.layers@,
                    i as int,
                    d,
                    w,
                    a,
                    z,
                    first.values@,
                    first.next as int,
                ),
                nn::all_wf::<S, Layer<S>>(model.layers@),
        {
            let out: usize = if i == depth - 1 {
                output_dim
            } else {
                width
            };
            proof {
                lemma_weights_grow(i as int, d, d, w, a, z);
                lemma_weights_grow(i + 1, d, d, w, a, z);
                assert(out == dim_at(i + 1, d, w, a, z));
            }
            let ghost old_layers = model.layers@;
            let layer = Linear::new(prev, out, true, draws);
            model = model.add(Layer::Linear(layer));
            if i < depth - 1 {
                model = model.add(Layer::ReLU(ReLU));
            }
            proof {
                let now = model.layers@;
                assert forall|k: int| 0 <= k < i + 1 implies {
                    &&& #[trigger] now[2 * k] matches Layer::Linear(l)
                    &&& nn::drawn_linear(
                        l,
                        dim_at(k, d, w, a, z) as usize,
                        dim_at(k + 1, d, w, a, z) as usize,
                        true,
                        first.values@,
                        first.next + weights_before(k, d, w, a, z),
                    )
                } by {
                    if k < i {
                        assert(now[2 * k] == old_layers[2 * k]);
                    }
                }
                assert forall|k: int|
                    0 <= k < i + 1 && k + 1 < d implies #[trigger] now[2 * k + 1] is ReLU by {
                    if k < i {
                        assert(now[2 * k + 1] == old_layers[2 * k + 1]);
                    }
                }
            }
            prev = out;
        }
        model
    }
}

// ---- The loss

/// The numbers over a temperature.
pub open spec fn cooled<S: Real>(v: Value<S>, temperature: S) -> Value<S> {
    Value {
        data: Seq::new(v.data.len(), |i: int| v.data[i].spec_over(temperature)),
        shape: v.shape,
    }
}

/// The softmax of each row over a temperature; a tensor without rows stays as it is.
pub open spec fn soft_rows<S: Real>(v: Value<S>, temperature: S) -> Value<S> {
    if v.shape.len() < 2 {
        v
    } else {
        activations::softmax_value(cooled(v, temperature))
    }
}

/// The softmax of each row over a temperature.
pub fn softmax_temp<S: Real>(logits: &Tensor<S>, temperature: S) -> (r: Tensor<S>)
    requires
        logits.wf(),
        logits@.shape.len() <= 2,
    ensures
        r.wf(),
        r@ == soft_rows(logits@, temperature),
        r@.shape == logits@.shape,
        r.requires_grad == logits.requires_grad,
{
    if logits.shape.len() < 2 {
        return logits.duplicate();
    }
    let ghost want = cooled(logits@, temperature).data;
    let mut data: Vec<S> = Vec::new();
    for i in 0..logits.data.len()
        invariant
            want == cooled(logits@, temperature).data,
            data@ =~= want.take(i as int),
    {
        data.push(logits.data[i].over(temperature));
    }
    assert(data@ =~= want);
    let scaled = Tensor {
        data,
        shape: copy_slice(&logits.shape),
        requires_grad: logits.requires_grad,
        grad: None,
    };
    activations::softmax(&scaled)
}

/// What one probability adds to the divergence. A probability of zero adds nothing, and the other
/// one counts as at least a hundred-millionth.
pub open spec fn divergence_term<S: Real>(p: S, q: S) -> S {
    if p.spec_at_most(S::spec_zero()) {
        S::spec_zero()
    } else {
        p.spec_times(p.spec_over(q.spec_larger(optim::ratio(1, 100_000_000))).spec_ln())
    }
}

/// The Kullback-Leibler divergence of a teacher from a student, over all rows.
pub open spec fn divergence<S: Real>(student: Seq<S>, teacher: Seq<S>) -> S {
    tensor::sum_of(
        Seq::new(student.len(), |i: int| divergence_term(teacher[i], student[i])),
    )
}

fn kl_divergence<S: Real>(student: &[S], teacher: &[S]) -> (r: S)
    requires
        student@.len() == teacher@.len(),
    ensures
        r == divergence(student@, teacher@),
{
    let ghost want = Seq::new(
        student@.len(),
        |i: int| divergence_term(teacher@[i], student@[i]),
    );
    let mut sum = S::zero();
    for i in 0..student.len()
        invariant
            student@.len() == teacher@.len(),
            want == Seq::new(
                student@.len(),
                |k: int| divergence_term(teacher@[k], student@[k]),
            ),
            sum == number::sum_n(tensor::elements(want), i as int),
    {
        let (p, q) = (teacher[i], student[i]);
        let term = if p.at_most(S::zero()) {
            S::zero()
        } else {
            p.times(p.over(q.larger(fraction(1, 100_000_000))).ln())
        };
        assert(term == want[i as int]);
        sum = sum.plus(term);
    }
    sum
}

/// What a student and its teacher make of a batch inside.
#[derive(Debug, Clone)]
pub struct Features<S> {
    pub student: Tensor<S>,
    pub teacher: Tensor<S>,
}

/// Features as numbers.
pub open spec fn feature_values<S>(f: Option<Features<S>>) -> Option<(Value<S>, Value<S>)> {
    match f {
        Some(f) => Some((f.student@, f.teacher@)),
        None => None,
    }
}

/// Features of the same shape.
pub open spec fn features_match<S: Real>(f: Option<Features<S>>) -> bool {
    f matches Some(f) ==> f.student.wf() && f.teacher.wf() && f.student@.shape == f.teacher@.shape
}

/// What the layers before the last make of a tensor.
pub open spec fn hidden_value<S: Real>(layers: Seq<Layer<S>>, x: Value<S>) -> Value<S> {
    nn::applied(layers, x, layers.len() - 1)
}

fn hidden_output<S: Real>(model: &Sequential<Layer<S>>, input: &Tensor<S>) -> (r: Tensor<S>)
    requires
        model.wf(),
        input.wf(),
        model.accepts(input@),
        model.layers@.len() > 0,
    ensures
        r.wf(),
        r@ == hidden_value(model.layers@, input@),
{
    let n: usize = model.layers.len() - 1;
    let mut x = input.duplicate();
    for i in 0..n
        invariant
            n < model.layers@.len(),
            model.wf(),
            nn::applicable(model.layers@, input@),
            x.wf(),
            x@ == nn::applied(model.layers@, input@, i as int),
    {
        x = model.layers[i].forward(&x);
    }
    x
}

fn same_shape(a: &[usize], b: &[usize]) -> (r: bool)
    ensures
        r == (a@ == b@),
{
    if a.len() != b.len() {
        return false;
    }
    for i in 0..a.len()
        invariant
            a@.len() == b@.len(),
            forall|k: int| 0 <= k < i ==> a@[k] == b@[k],
    {
        if a[i] != b[i] {
            return false;
        }
    }
    assert(a@ =~= b@);
    true
}

/// The features of a batch: what the layers before the last make of it, where there are such
/// layers and student and teacher have the same shape there.
pub fn hidden_features<S: Real>(
    student: &Sequential<Layer<S>>,
    teacher: &Sequential<Layer<S>>,
    inputs: &Tensor<S>,
) -> (r: Option<Features<S>>)
    requires
        student.wf(),
        teacher.wf(),
        inputs.wf(),
        student.accepts(inputs@),
        teacher.accepts(inputs@),
    ensures
        features_match(r),
        ({
            let (a, b) = (
                hidden_value(student.layers@, inputs@),
                hidden_value(teacher.layers@, inputs@),
            );
            feature_values(r) == (if student.layers@.len() > 1 && teacher.layers@.len() > 1
                && a.shape == b.shape {
                Some((a, b))
            } else {
                None
            })
        }),
{
    if student.layers.len() <= 1 || teacher.layers.len() <= 1 {
        return None;
    }
    let a = hidden_output(student, inputs);
    let b = hidden_output(teacher, inputs);
    if same_shape(&a.shape, &b.shape) {
        Some(Features { student: a, teacher: b })
    } else {
        None
    }
}

/// The loss of the outputs of a student: the cross entropy with the labels, the divergence from
/// the teacher at a temperature, times its square, and the mean squared distance of the features,
/// weighted. Without features nothing is added for them.
pub open spec fn combined_loss<S: Real>(
    c: DistillConfig<S>,
    student: Value<S>,
    teacher: Value<S>,
    labels: Value<S>,
    features: Option<(Value<S>, Value<S>)>,
) -> S {
    let hard = CrossEntropyLoss.value(student, labels);
    let soft = divergence(
        soft_rows(student, c.temperature).data,
        soft_rows(teacher, c.temperature).data,
    );
    let both = hard.spec_times(c.alpha).spec_plus(
        soft.spec_times(c.beta.spec_times(c.temperature).spec_times(c.temperature)),
    );
    match features {
        Some((a, b)) => both.spec_plus(MSELoss.value(a, b).spec_times(c.gamma)),
        None => both,
    }
}

/// The loss of the outputs of a student.
pub fn distill_loss<S: Real>(
    config: &DistillConfig<S>,
    student: &Tensor<S>,
    teacher: &Tensor<S>,
    labels: &Tensor<S>,
    features: &Option<Features<S>>,
) -> (r: Tensor<S>)
    requires
        student.wf(),
        teacher.wf(),
        labels.wf(),
        student@.shape.len() == 2,
        labels@.shape == student@.shape,
        teacher@.shape == student@.shape,
        features_match(*features),
    ensures
        r.wf(),
        r@ == finetune::single(
            combined_loss(*config, student@, teacher@, labels@, feature_values(*features)),
        ),
{
    let t = config.temperature;
    let teacher_probs = softmax_temp(teacher, t);
    let student_probs = softmax_temp(student, t);
    let hard = CrossEntropyLoss.forward(student, labels);
    let soft = kl_divergence(&student_probs.data, &teacher_probs.data);
    let both = hard.data[0].times(config.alpha).plus(
        soft.times(config.beta.times(t).times(t)),
    );
    let total = match features {
        Some(f) => {
            proof {
                tensor::lemma_zip_same_shape(Op::Sub, f.student@, f.teacher@);
            }
            let apart = MSELoss.forward(&f.student, &f.teacher);
            both.plus(apart.data[0].times(config.gamma))
        },
        None => both,
    };
    let data: Vec<S> = vec![total];
    let shape: Vec<usize> = vec![1];
    proof {
        tensor::lemma_volume_two(1, 1);
        assert(data@ =~= seq![total]);
        assert(shape@ =~= seq![1usize]);
    }
    Tensor::new(data, shape, student.requires_grad)
}

// ---- Accuracy

/// The first of the greatest of the first numbers, and its place.
pub open spec fn top_of<S: Real>(row: Seq<S>, n: int) -> (int, S)
    decreases n,
{
    if n <= 0 {
        (0, S::spec_lowest())
    } else {
        let best = top_of(row, n - 1);
        if best.1.spec_below(row[n - 1]) {
            (n - 1, row[n - 1])
        } else {
            best
        }
    }
}

/// The place of the first number above one half, from a place on; zero where there is none.
pub open spec fn marked<S: Real>(row: Seq<S>, j: int) -> int
    decreases row.len() - j,
{
    if j >= row.len() {
        0
    } else if optim::ratio::<S>(1, 2).spec_below(row[j]) {
        j
    } else {
        marked(row, j + 1)
    }
}

/// A number as a class.
pub open spec fn class_of<S: Real>(x: S) -> int {
    if x.spec_whole() < 0 {
        0
    } else {
        x.spec_whole() as int
    }
}

/// The class of a row of the targets, of as many columns as classes or with the class in the
/// first.
pub open spec fn target_class<S: Real>(targets: Value<S>, i: int, classes: usize) -> int {
    let row = activations::row_at(targets.data, targets.shape[1] as int, i);
    if targets.shape[1] == classes {
        marked(row, 0)
    } else {
        class_of(row[0])
    }
}

/// How many of the first rows have their greatest number at their class.
pub open spec fn hits<S: Real>(logits: Value<S>, targets: Value<S>, n: int) -> int
    decreases n,
{
    if n <= 0 {
        0
    } else {
        let w = logits.shape[1] as int;
        let row = activations::row_at(logits.data, w, n - 1);
        hits(logits, targets, n - 1) + (if top_of(row, w).0 == target_class(
            targets,
            n - 1,
            logits.shape[1],
        ) {
            1int
        } else {
            0
        })
    }
}

/// There are no more hits than rows, so an accuracy is a fraction.
pub proof fn lemma_hits_bounded<S: Real>(logits: Value<S>, targets: Value<S>, n: int)
    ensures
        0 <= hits(logits, targets, n),
        0 <= n ==> hits(logits, targets, n) <= n,
    decreases n,
{
    if n > 0 {
        lemma_hits_bounded(logits, targets, n - 1);
    }
}

/// The share of rows whose greatest number stands at their class; zero without rows.
pub open spec fn accuracy<S: Real>(logits: Value<S>, targets: Value<S>) -> S {
    if logits.shape.len() < 2 {
        S::spec_zero()
    } else {
        let n = logits.shape[0] as int;
        S::spec_count(hits(logits, targets, n) as usize).spec_over(
            S::spec_count(at_least(n, 1) as usize),
        )
    }
}

/// The targets have a row for each row of the outputs.
pub open spec fn has_targets<S>(logits: Value<S>, targets: Value<S>) -> bool {
    logits.shape.len() >= 2 ==> {
        &&& logits.shape.len() == 2
        &&& targets.shape.len() == 2
        &&& logits.shape[0] <= targets.shape[0]
        &&& targets.shape[1] == logits.shape[1] || targets.shape[1] > 0
    }
}

fn top_class<S: Real>(row: &[S]) -> (r: usize)
    ensures
        r == top_of(row@, row@.len() as int).0,
{
    let mut best: usize = 0;
    let mut value = S::lowest();
    for j in 0..row.len()
        invariant
            best == top_of(row@, j as int).0,
            value == top_of(row@, j as int).1,
    {
        if value.below(row[j]) {
            value = row[j];
            best = j;
        }
    }
    best
}

fn marked_class<S: Real>(row: &[S]) -> (r: usize)
    ensures
        r == marked(row@, 0),
{
    let n: usize = row.len();
    let mut j: usize = 0;
    while j < n
        invariant
            n == row@.len(),
            j <= n,
            marked(row@, 0) == marked(row@, j as int),
        decreases n - j,
    {
        if fraction::<S>(1, 2).below(row[j]) {
            return j;
        }
        j += 1;
    }
    0
}

/// The share of rows that a model gets right.
pub fn compute_accuracy<S: Real, M: Module<S>>(
    model: &M,
    inputs: &Tensor<S>,
    targets: &Tensor<S>,
) -> (r: S)
    requires
        model.wf(),
        inputs.wf(),
        targets.wf(),
        model.accepts(inputs@),
        has_targets(model.output(inputs@), targets@),
    ensures
        r == accuracy(model.output(inputs@), targets@),
{
    let logits = model.forward(inputs);
    if logits.shape.len() < 2 {
        return S::zero();
    }
    let n: usize = logits.shape[0];
    let c: usize = logits.shape[1];
    let t: usize = targets.shape[1];
    let ghost rows = targets.shape@[0] as int;
    proof {
        assert(logits.shape@ =~= seq![n, c]);
        assert(targets.shape@ =~= seq![targets.shape@[0], t]);
        tensor::lemma_volume_two(n, c);
        tensor::lemma_volume_two(targets.shape@[0], t);
    }
    let len: usize = logits.data.len();
    let tlen: usize = targets.data.len();
    let mut correct: usize = 0;
    for i in 0..n
        invariant
            logits.shape@ == seq![n, c],
            targets.shape@[1] == t,
            len == logits.data@.len(),
            len == n * c,
            tlen == targets.data@.len(),
            tlen == rows * t,
            n <= rows,
            t == c || t > 0,
            correct <= i,
            correct == hits(logits@, targets@, i as int),
    {
        proof {
            nn::lemma_row_in(i as int, n as int, c as int, len as int);
            nn::lemma_row_in(i as int, rows, t as int, tlen as int);
        }
        let row = vstd::slice::slice_subrange(&logits.data, i * c, i * c + c);
        let goal = vstd::slice::slice_subrange(&targets.data, i * t, i * t + t);
        assert(row@ =~= activations::row_at(logits.data@, c as int, i as int));
        assert(goal@ =~= activations::row_at(targets.data@, t as int, i as int));
        let best: usize = top_class(row);
        let hit = if t == c {
            best == marked_class(goal)
        } else {
            let w: i64 = goal[0].whole();
            if w < 0 {
                best == 0
            } else {
                best as u128 == w as u128
            }
        };
        if hit {
            correct = correct + 1;
        }
    }
    let all: usize = if n < 1 {
        1
    } else {
        n
    };
    S::count(correct).over(S::count(all))
}

// ---- The run

/// How many numbers tensors hold.
pub open spec fn size_of_all<S>(v: Seq<Value<S>>, n: int) -> int
    decreases n,
{
    if n <= 0 {
        0
    } else {
        size_of_all(v, n - 1) + v[n - 1].data.len()
    }
}

proof fn lemma_sizes_grow<S>(v: Seq<Value<S>>, n: int, m: int)
    requires
        0 <= n <= m,
    ensures
        0 <= size_of_all(v, n) <= size_of_all(v, m),
    decreases m,
{
    if m > 0 {
        if n < m {
            lemma_sizes_grow(v, n, m - 1);
        } else {
            lemma_sizes_grow(v, n - 1, m - 1);
        }
    }
}

/// How many numbers the parameters of a model hold.
pub fn parameter_count<S: Real, M: Module<S>>(model: &M) -> (r: usize)
    requires
        model.wf(),
        size_of_all(model.values(), model.values().len() as int) <= usize::MAX,
    ensures
        r == size_of_all(model.values(), model.values().len() as int),
{
    let params = model.parameters();
    let ghost values = model.values();
    let mut total: usize = 0;
    let n: usize = params.len();
    for i in 0..n
        invariant
            n == params@.len(),
            nn::tensors_are(params@, values),
            size_of_all(values, n as int) <= usize::MAX,
            total == size_of_all(values, i as int),
    {
        proof {
            lemma_sizes_grow(values, i + 1, n as int);
            assert(params@[i as int].wf());
        }
        total = total + params[i].data.len();
    }
    total
}

/// The mean loss of an epoch; zero without batches.
pub open spec fn epoch_mean<S: Real>(losses: Seq<S>) -> S {
    if losses.len() > 0 {
        tensor::sum_of(losses).spec_over(S::spec_count(losses.len() as usize))
    } else {
        S::spec_zero()
    }
}

/// The mean loss of an epoch.
pub fn mean_of_epoch<S: Real>(losses: &[S]) -> (r: S)
    ensures
        r == epoch_mean(losses@),
{
    let n: usize = losses.len();
    let mut s = S::zero();
    for i in 0..n
        invariant
            n == losses@.len(),
            s == number::sum_n(tensor::elements(losses@), i as int),
    {
        s = s.plus(losses[i]);
    }
    if n > 0 {
        s.over(S::count(n))
    } else {
        S::zero()
    }
}

/// The mean losses of all epochs.
pub open spec fn epoch_means<S: Real>(epochs: Seq<Vec<S>>) -> Seq<S> {
    Seq::new(epochs.len(), |i: int| epoch_mean(epochs[i]@))
}

/// How many weights of a student in eight bits share a scale.
pub const STUDENT_GROUP: usize = 64;

/// The student in eight bits, where that is asked for.
pub open spec fn is_in_bits<S: Real + Word>(
    q: Option<QuantizedModel<S>>,
    student: Seq<Value<S>>,
    wanted: bool,
) -> bool {
    if wanted {
        &&& q matches Some(m)
        &&& m.format == QuantFormat::INT8
        &&& m.layers@.len() == (student.len() + 1) / 2
        &&& forall|k: int|
            0 <= k < m.layers@.len() ==> quantize::layer_holds(
                #[trigger] m.layers@[k],
                student,
                2 * k,
                QuantFormat::INT8,
                STUDENT_GROUP,
            )
    } else {
        q is None
    }
}

/// The result of a run: the student as it was trained, measured beside its teacher.
#[verifier::opaque]
pub open spec fn is_result<S: Real + Word, M: Module<S>>(
    r: DistillResult<S>,
    teacher: M,
    student: Sequential<Layer<S>>,
    inputs: Value<S>,
    targets: Value<S>,
    epochs: Seq<Vec<S>>,
    in_bits: bool,
) -> bool {
    let means = epoch_means(epochs);
    &&& r.student == student
    &&& is_in_bits(r.quantized, student.values(), in_bits)
    &&& r.teacher_accuracy == accuracy(teacher.output(inputs), targets)
    &&& r.student_accuracy == accuracy(student.output(inputs), targets)
    &&& r.compression_ratio == S::spec_count(
        size_of_all(teacher.values(), teacher.values().len() as int) as usize,
    ).spec_over(
        S::spec_count(
            at_least(size_of_all(student.values(), student.values().len() as int), 1) as usize,
        ),
    )
    &&& r.loss_history@ == means
    &&& r.final_loss == (if means.len() > 0 {
        means.last()
    } else {
        S::spec_zero()
    })
}

/// A model can be measured on the data.
#[verifier::opaque]
pub open spec fn measurable<S: Real, M: Module<S>>(
    model: M,
    inputs: Value<S>,
    targets: Value<S>,
) -> bool {
    &&& model.wf()
    &&& model.accepts(inputs)
    &&& has_targets(model.output(inputs), targets)
    &&& size_of_all(model.values(), model.values().len() as int) + STUDENT_GROUP <= usize::MAX
}

fn in_bits_of<S: Real + Word>(student: &Sequential<Layer<S>>, wanted: bool) -> (r: Option<
    QuantizedModel<S>,
>)
    requires
        student.wf(),
        size_of_all(student.values(), student.values().len() as int) + STUDENT_GROUP <= usize::MAX,
    ensures
        is_in_bits(r, student.values(), wanted),
{
    if !wanted {
        return None;
    }
    proof {
        let v = student.values();
        assert forall|i: int| 0 <= i < v.len() && i % 2 == 0 implies QuantizedTensor::can_hold(
            #[trigger] v[i],
            QuantFormat::INT8,
            STUDENT_GROUP,
        ) by {
            lemma_sizes_grow(v, i, i + 1);
            lemma_sizes_grow(v, i + 1, v.len() as int);
        }
    }
    Some(QuantizedModel::from_model(student, QuantFormat::INT8, STUDENT_GROUP))
}

/// Measures a trained student beside its teacher.
fn conclude<S: Real + Word, M: Module<S>>(
    teacher: &M,
    student: Sequential<Layer<S>>,
    inputs: &Tensor<S>,
    targets: &Tensor<S>,
    epochs: &[Vec<S>],
    in_bits: bool,
) -> (r: DistillResult<S>)
    requires
        inputs.wf(),
        targets.wf(),
        measurable(*teacher, inputs@, targets@),
        measurable(student, inputs@, targets@),
    ensures
        r.student == student,
        is_result(r, *teacher, student, inputs@, targets@, epochs@, in_bits),
{
    reveal(measurable);
    reveal(is_result);
    let teacher_params: usize = parameter_count(teacher);
    let student_params: usize = parameter_count(&student);
    let all: usize = if student_params < 1 {
        1
    } else {
        student_params
    };
    let ratio = S::count(teacher_params).over(S::count(all));
    let mut history: Vec<S> = Vec::new();
    for i in 0..epochs.len()
        invariant
            history@ =~= epoch_means(epochs@).take(i as int),
    {
        history.push(mean_of_epoch(&epochs[i]));
    }
    assert(history@ =~= epoch_means(epochs@));
    let teacher_accuracy = compute_accuracy(teacher, inputs, targets);
    let student_accuracy = compute_accuracy(&student, inputs, targets);
    let n: usize = history.len();
    let last = if n > 0 {
        history[n - 1]
    } else {
        S::zero()
    };
    let quantized = in_bits_of(&student, in_bits);
    DistillResult {
        student,
        quantized,
        teacher_accuracy,
        student_accuracy,
        compression_ratio: ratio,
        final_loss: last,
        loss_history: history,
    }
}

impl<S: Real + Word, M: Module<S>> Distiller<S, M> {
    /// The loss of a batch: what the student makes of it beside what the teacher makes of it, and
    /// the features of both, where they are given.
    pub fn batch_loss(
        &self,
        student: &Sequential<Layer<S>>,
        inputs: &Tensor<S>,
        labels: &Tensor<S>,
        features: &Option<Features<S>>,
    ) -> (r: Tensor<S>)
        requires
            self.teacher.wf(),
            student.wf(),
            inputs.wf(),
            labels.wf(),
            self.teacher.accepts(inputs@),
            student.accepts(inputs@),
            student.output(inputs@).shape.len() == 2,
            labels@.shape == student.output(inputs@).shape,
            self.teacher.output(inputs@).shape == student.output(inputs@).shape,
            features_match(*features),
        ensures
            r.wf(),
            r@ == finetune::single(
                combined_loss(
                    self.config,
                    student.output(inputs@),
                    self.teacher.output(inputs@),
                    labels@,
                    feature_values(*features),
                ),
            ),
    {
        let teacher_logits = self.teacher.forward(inputs);
        let student_logits = student.forward(inputs);
        distill_loss(&self.config, &student_logits, &teacher_logits, labels, features)
    }

    /// The batches of an epoch, each with its labels, from the first rows to the last.
    pub fn batches(&self, inputs: &Tensor<S>, targets: &Tensor<S>) -> (r: Vec<(Tensor<S>, Tensor<S>)>)
        requires
            inputs.wf(),
            targets.wf(),
            inputs@.is_matrix(),
            targets@.is_matrix(),
            inputs@.shape[0] == targets@.shape[0],
        ensures
            r@.len() == batch_count(inputs@.shape[0] as int, self.config.batch_size as int),
            forall|i: int|
                0 <= i < r@.len() ==> {
                    let (from, to) = batch_at(
                        inputs@.shape[0] as int,
                        self.config.batch_size as int,
                        i,
                    );
                    &&& (#[trigger] r@[i]).0.wf()
                    &&& r@[i].1.wf()
                    &&& r@[i].0@ == rows_of(inputs@, from, to)
                    &&& r@[i].1@ == rows_of(targets@, from, to)
                },
    {
        let bounds = batch_bounds(inputs.shape[0], self.config.batch_size);
        let mut r: Vec<(Tensor<S>, Tensor<S>)> = Vec::new();
        for i in 0..bounds.len()
            invariant
                inputs.wf(),
                targets.wf(),
                inputs@.is_matrix(),
                targets@.is_matrix(),
                inputs@.shape[0] == targets@.shape[0],
                are_bounds(bounds@, inputs@.shape[0] as int, self.config.batch_size as int),
                r@.len() == i,
                forall|k: int|
                    0 <= k < i ==> {
                        let (from, to) = batch_at(
                            inputs@.shape[0] as int,
                            self.config.batch_size as int,
                            k,
                        );
                        &&& (#[trigger] r@[k]).0.wf()
                        &&& r@[k].1.wf()
                        &&& r@[k].0@ == rows_of(inputs@, from, to)
                        &&& r@[k].1@ == rows_of(targets@, from, to)
                    },
        {
            let (from, to) = bounds[i];
            proof {
                assert(bounds@[i as int].0 == from);
                lemma_batch_at(inputs@.shape[0] as int, self.config.batch_size as int, i as int);
            }
            r.push((take_rows(inputs, from, to), take_rows(targets, from, to)));
        }
        r
    }

    /// Measures the student that came of the training, with the losses of its batches, epoch by
    /// epoch.
    pub fn distill(
        &self,
        student: Sequential<Layer<S>>,
        inputs: &Tensor<S>,
        targets: &Tensor<S>,
        epochs: &[Vec<S>],
    ) -> (r: DistillResult<S>)
        requires
            inputs.wf(),
            targets.wf(),
            measurable(self.teacher, inputs@, targets@),
            measurable(student, inputs@, targets@),
            epochs@.len() == self.config.epochs,
        ensures
            is_result(
                r,
                self.teacher,
                student,
                inputs@,
                targets@,
                epochs@,
                self.config.quantize_output,
            ),
            r.loss_history@.len() == self.config.epochs,
    {
        reveal(is_result);
        conclude(
            &self.teacher,
            student,
            inputs,
            targets,
            epochs,
            self.config.quantize_output,
        )
    }
}

/// Distills round by round: the student of a round is the teacher of the next.
#[derive(Debug, Clone)]
pub struct ProgressiveDistiller<S> {
    pub config: DistillConfig<S>,
    pub rounds: usize,
}

/// A trained student, with the losses of its batches, epoch by epoch.
#[derive(Debug, Clone)]
pub struct Round<S> {
    pub student: Sequential<Layer<S>>,
    pub epochs: Vec<Vec<S>>,
}

impl<S: Real + Word> ProgressiveDistiller<S> {
    pub fn new(config: DistillConfig<S>, rounds: usize) -> (r: Self)
        ensures
            r.config == config,
            r.rounds == rounds,
    {
        ProgressiveDistiller { config, rounds }
    }

    /// What distills in a round: the student of the round before is the teacher.
    pub fn next_round(&self, before: Sequential<Layer<S>>) -> (r: Distiller<
        S,
        Sequential<Layer<S>>,
    >)
        ensures
            r.teacher == before,
            r.config == self.config,
    {
        Distiller { teacher: before, config: self.config }
    }

    /// The student with which a round starts, of the sizes that go with the student of the round
    /// before, and what distills the one into the other.
    pub fn next_student(
        &self,
        before: Sequential<Layer<S>>,
        input_dim: usize,
        output_dim: usize,
        draws: &mut Draws<S>,
    ) -> (r: (Distiller<S, Sequential<Layer<S>>>, Sequential<Layer<S>>))
        requires
            before.wf(),
            old(draws).wf(),
            (Distiller { teacher: before, config: self.config }).student_size(input_dim, output_dim)
                <= old(draws).left(),
        ensures
            r.0.teacher == before,
            r.0.config == self.config,
            r.1.wf(),
            is_student(
                r.1.layers@,
                r.0.depth(),
                r.0.depth(),
                r.0.width(),
                input_dim as int,
                output_dim as int,
                old(draws).values@,
                old(draws).next as int,
            ),
            old(draws).taken(final(draws), r.0.student_size(input_dim, output_dim)),
    {
        let distiller = self.next_round(before);
        let student = distiller.generate_student(input_dim, output_dim, draws);
        (distiller, student)
    }

    /// Measures the student of each round beside the one before it, the first beside the initial
    /// teacher.
    pub fn distill<M: Module<S>>(
        &self,
        initial_teacher: &M,
        inputs: &Tensor<S>,
        targets: &Tensor<S>,
        rounds: Vec<Round<S>>,
    ) -> (r: Vec<DistillResult<S>>)
        requires
            inputs.wf(),
            targets.wf(),
            rounds@.len() == self.rounds,
            measurable(*initial_teacher, inputs@, targets@),
            forall|i: int|
                0 <= i < rounds@.len() ==> measurable(
                    (#[trigger] rounds@[i]).student,
                    inputs@,
                    targets@,
                ),
        ensures
            r@.len() == self.rounds,
            r@.len() > 0 ==> is_result(
                r@[0],
                *initial_teacher,
                rounds@[0].student,
                inputs@,
                targets@,
                rounds@[0].epochs@,
                self.config.quantize_output,
            ),
            forall|i: int|
                1 <= i < r@.len() ==> is_result(
                    #[trigger] r@[i],
                    rounds@[i - 1].student,
                    rounds@[i].student,
                    inputs@,
                    targets@,
                    rounds@[i].epochs@,
                    self.config.quantize_output,
                ),
    {
        let ghost all = rounds@;
        let mut rest = rounds;
        let mut results: Vec<DistillResult<S>> = Vec::new();
        let n: usize = rest.len();
        for i in 0..n
            invariant
                n == all.len(),
                inputs.wf(),
                targets.wf(),
                measurable(*initial_teacher, inputs@, targets@),
                forall|k: int|
                    0 <= k < n ==> measurable((#[trigger] all[k]).student, inputs@, targets@),
                rest@ == all.skip(i as int),
                results@.len() == i,
                i > 0 ==> results@[i - 1].student == all[i - 1].student,
                i > 0 ==> is_result(
                    results@[0],
                    *initial_teacher,
                    all[0].student,
                    inputs@,
                    targets@,
                    all[0].epochs@,
                    self.config.quantize_output,
                ),
                forall|k: int|
                    1 <= k < i ==> is_result(
                        #[trigger] results@[k],
                        all[k - 1].student,
                        all[k].student,
                        inputs@,
                        targets@,
                        all[k].epochs@,
                        self.config.quantize_output,
                    ),
        {
            assert(rest@[0] == all[i as int]);
            let round = rest.remove(0);
            assert(rest@ =~= all.skip(i + 1));
            let result = if i == 0 {
                conclude(
                    initial_teacher,
                    round.student,
                    inputs,
                    targets,
                    &round.epochs,
                    self.config.quantize_output,
                )
            } else {
                conclude(
                    &results[i - 1].student,
                    round.student,
                    inputs,
                    targets,
                    &round.epochs,
                    self.config.quantize_output,
                )
            };
            results.push(result);
        }
        results
    }
}

// ---- Rows

/// How many batches rows make; a size of zero counts as one.
pub open spec fn batch_count(rows: int, size: int) -> int {
    let k = at_least(size, 1);
    (rows + k - 1) / k
}

/// From which row on a batch goes, and up to which.
pub open spec fn batch_at(rows: int, size: int, i: int) -> (int, int) {
    let k = at_least(size, 1);
    let to = i * k + k;
    (
        i * k,
        if to < rows {
            to
        } else {
            rows
        },
    )
}

pub open spec fn are_bounds(v: Seq<(usize, usize)>, rows: int, size: int) -> bool {
    &&& v.len() == batch_count(rows, size)
    &&& forall|i: int|
        0 <= i < v.len() ==> (#[trigger] v[i]).0 == batch_at(rows, size, i).0 && v[i].1 == batch_at(
            rows,
            size,
            i,
        ).1
}

/// A batch is not empty, no longer than its size, and lies within the rows.
pub proof fn lemma_batch_at(rows: int, size: int, i: int)
    requires
        0 <= rows,
        0 <= i < batch_count(rows, size),
    ensures
        ({
            let (from, to) = batch_at(rows, size, i);
            0 <= from < to <= rows && to - from <= at_least(size, 1)
        }),
{
    let k = at_least(size, 1);
    let n = rows + k - 1;
    assert(0 <= i * k && i * k < rows) by (nonlinear_arith)
        requires
            0 <= i < n / k,
            k >= 1,
            n == rows + k - 1,
    ;
}

/// Each row is in exactly one batch.
pub proof fn lemma_row_in_one_batch(rows: int, size: int, row: int, i: int)
    requires
        0 <= row < rows,
        0 <= i < batch_count(rows, size),
    ensures
        0 <= row / at_least(size, 1) < batch_count(rows, size),
        ({
            let (from, to) = batch_at(rows, size, i);
            (from <= row < to) <==> i == row / at_least(size, 1)
        }),
{
    let k = at_least(size, 1);
    let n = rows + k - 1;
    let b = row / k;
    vstd::arithmetic::div_mod::lemma_fundamental_div_mod(row, k);
    assert(b * k <= row < b * k + k) by (nonlinear_arith)
        requires
            row == k * b + row % k,
            0 <= row % k < k,
    ;
    assert(0 <= b) by (nonlinear_arith)
        requires
            0 <= row,
            b == row / k,
            k >= 1,
    ;
    assert(b < n / k) by (nonlinear_arith)
        requires
            b * k <= row,
            row < rows,
            n == rows + k - 1,
            k >= 1,
    ;
    if i < b {
        assert(i * k + k <= b * k) by (nonlinear_arith)
            requires
                i < b,
                k >= 1,
        ;
    } else if i > b {
        assert(b * k + k <= i * k) by (nonlinear_arith)
            requires
                i > b,
                k >= 1,
        ;
    }
}

/// The bounds of the batches of so many rows.
pub fn batch_bounds(rows: usize, size: usize) -> (r: Vec<(usize, usize)>)
    ensures
        are_bounds(r@, rows as int, size as int),
{
    let k: usize = if size < 1 {
        1
    } else {
        size
    };
    let mut r: Vec<(usize, usize)> = Vec::new();
    let mut from: usize = 0;
    let ghost n = batch_count(rows as int, size as int);
    let ghost ki = k as int;
    assert(0 * ki == 0) by (nonlinear_arith);
    while from < rows
        invariant
            ki == k,
            k == at_least(size as int, 1),
            n == batch_count(rows as int, size as int),
            from == (if r@.len() * ki < rows {
                r@.len() * ki
            } else {
                rows as int
            }),
            r@.len() <= n,
            forall|i: int|
                0 <= i < r@.len() ==> (#[trigger] r@[i]).0 == batch_at(rows as int, size as int, i).0
                    && r@[i].1 == batch_at(rows as int, size as int, i).1,
        decreases rows - from,
    {
        let to: usize = if rows - from <= k {
            rows
        } else {
            from + k
        };
        proof {
            let m = r@.len() as int;
            assert(m < (rows + ki - 1) / ki) by (nonlinear_arith)
                requires
                    m * ki < rows,
                    ki >= 1,
            ;
            assert((m + 1) * ki == m * ki + ki) by (nonlinear_arith);
        }
        r.push((from, to));
        from = to;
    }
    proof {
        let m = r@.len() as int;
        assert((rows + ki - 1) / ki <= m) by (nonlinear_arith)
            requires
                m * ki >= rows,
                ki >= 1,
        ;
    }
    r
}

/// Some rows of a matrix.
pub open spec fn rows_of<S>(v: Value<S>, from: int, to: int) -> Value<S> {
    let w = v.shape[1] as int;
    let height = (to - from) as usize;
    Value { data: v.data.subrange(from * w, to * w), shape: seq![height, v.shape[1]] }
}

/// Some rows of a matrix.
pub fn take_rows<S: Real>(t: &Tensor<S>, from: usize, to: usize) -> (r: Tensor<S>)
    requires
        t.wf(),
        t@.is_matrix(),
        from <= to <= t@.shape[0],
    ensures
        r.wf(),
        r@ == rows_of(t@, from as int, to as int),
{
    let w: usize = t.shape[1];
    let ghost (h, wi) = (t@.shape[0] as int, w as int);
    proof {
        assert(t@.shape =~= seq![t@.shape[0], w]);
        tensor::lemma_volume_two(t@.shape[0], w);
        assert(0 <= from * wi <= to * wi <= h * wi && (to - from) * wi == to * wi - from * wi)
            by (nonlinear_arith)
            requires
                0 <= from <= to <= h,
                0 <= wi,
        ;
        tensor::lemma_volume_two((to - from) as usize, w);
    }
    let len: usize = t.data.len();
    let data: Vec<S> = copy_slice(vstd::slice::slice_subrange(&t.data, from * w, to * w));
    let height: usize = to - from;
    let shape: Vec<usize> = vec![height, w];
    assert(shape@ =~= seq![height, w]);
    Tensor::from_vec(data, shape)
}

/// The numbers of a tensor again and again, as rows.
pub open spec fn repeated_rows<S>(v: Value<S>, n: usize) -> Value<S> {
    let cols = v.shape.last();
    Value {
        data: Seq::new(
            (n * cols) as nat,
            |x: int| v.data[blas::col_of(x, cols as int)],
        ),
        shape: seq![n, cols],
    }
}

/// A single row again and again.
#[verifier::loop_isolation(false)]
pub fn repeat_rows<S: Real>(t: &Tensor<S>, n: usize) -> (r: Tensor<S>)
    requires
        t.wf(),
        t@.shape.len() > 0,
        t@.data.len() == t@.shape.last(),
        n * t@.shape.last() <= usize::MAX,
    ensures
        r.wf(),
        r@ == repeated_rows(t@, n),
{
    let axes: usize = t.shape.len();
    let cols: usize = t.shape[axes - 1];
    let ghost (ni, ci) = (n as int, cols as int);
    let ghost want = repeated_rows(t@, n).data;
    let mut out: Vec<S> = Vec::new();
    assert(0 * ci == 0) by (nonlinear_arith);
    for i in 0..n
        invariant
            out@.len() == i * ci,
            forall|x: int| 0 <= x < i * ci ==> #[trigger] out@[x] == want[x],
    {
        proof {
            nn::lemma_row_in(i as int, ni, ci, ni * ci);
        }
        for j in 0..cols
            invariant
                out@.len() == i * ci + j,
                forall|x: int| 0 <= x < i * ci + j ==> #[trigger] out@[x] == want[x],
        {
            proof {
                blas::lemma_cell(i as int, j as int, ci);
            }
            out.push(t.data[j]);
        }
        assert(i * ci + ci == (i + 1) * ci) by (nonlinear_arith);
    }
    assert(out@ =~= want);
    let shape: Vec<usize> = vec![n, cols];
    proof {
        assert(shape@ =~= seq![n, cols]);
        tensor::lemma_volume_two(n, cols);
    }
    Tensor::from_vec(out, shape)
}

} // verus!
