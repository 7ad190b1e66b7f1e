//! Fused kernels: a product, a bias and an activation in one pass, and the routing to experts.
use vstd::prelude::*;
use crate::activations;
use crate::blas;
use crate::fixed::Fixed;
use crate::grpo;
use crate::nn;
use crate::number;
use crate::number::Real;
use crate::optim::fraction;
use crate::tensor;
use crate::tensor::{Tensor, Value};

verus! {

/// What is applied to each output.
#[derive(Debug, Clone, Copy, PartialEq, Eq, Structural)]
pub enum FusedActivation {
    Identity,
    ReLU,
    GELU,
    Sigmoid,
}

/// The sigmoid in a form that never takes the exponential of a positive number.
pub open spec fn stable_sigmoid<S: Real>(v: S) -> S {
    if S::spec_zero().spec_at_most(v) {
        S::spec_one().spec_over(S::spec_one().spec_plus(v.spec_neg().spec_exp()))
    } else {
        v.spec_exp().spec_over(S::spec_one().spec_plus(v.spec_exp()))
    }
}

pub open spec fn fused_at<S: Real>(act: FusedActivation, v: S) -> S {
    match act {
        FusedActivation::Identity => v,
        FusedActivation::ReLU => v.spec_larger(S::spec_zero()),
        FusedActivation::GELU => activations::gelu_of(v),
        FusedActivation::Sigmoid => stable_sigmoid(v),
    }
}

fn activate<S: Real>(act: FusedActivation, v: S) -> (r: S)
    ensures
        r == fused_at(act, v),
{
    match act {
        FusedActivation::Identity => v,
        FusedActivation::ReLU => v.larger(S::zero()),
        FusedActivation::GELU => {
            let c = S::count(2).over(fraction(13176795, 4194304)).sqrt();
            let cube = fraction::<S>(44715, 1000000).times(v).times(v).times(v);
            let inner = c.times(v.plus(cube));
            fraction::<S>(1, 2).times(v).times(S::one().plus(inner.tanh()))
        },
        FusedActivation::Sigmoid => if S::zero().at_most(v) {
            S::one().over(S::one().plus(v.neg().exp()))
        } else {
            let e = v.exp();
            e.over(S::one().plus(e))
        },
    }
}

/// An output: the product of a row of the input and a row of the weights, plus the bias.
pub open spec fn fused_entry<S: Real>(
    x: Value<S>,
    w: Value<S>,
    bias: Option<Seq<S>>,
    i: int,
    o: int,
) -> S {
    let d = x.shape[1] as int;
    let p = nn::inner(activations::row_at(x.data, d, i), activations::row_at(w.data, d, o));
    match bias {
        Some(b) => p.spec_plus(b[o]),
        None => p,
    }
}

/// The activation of each output.
pub open spec fn fused_value<S: Real>(
    x: Value<S>,
    w: Value<S>,
    bias: Option<Seq<S>>,
    act: FusedActivation,
) -> Value<S> {
    let n = w.shape[0] as int;
    Value {
        data: Seq::new(
            (x.shape[0] * w.shape[0]) as nat,
            |k: int|
                fused_at(
                    act,
                    fused_entry(x, w, bias, blas::row_of(k, n), blas::col_of(k, n)),
                ),
        ),
        shape: seq![x.shape[0], w.shape[0]],
    }
}

/// The activation of the product with the transposed weights plus the bias.
#[verifier::loop_isolation(false)]
pub fn fused_linear<S: Real>(
    x: &Tensor<S>,
    weight: &Tensor<S>,
    bias: Option<&Tensor<S>>,
    activation: FusedActivation,
) -> (r: Tensor<S>)
    requires
        x.wf(),
        weight.wf(),
        x@.shape.len() == 2,
        weight@.shape.len() == 2,
        x@.shape[1] == weight@.shape[1],
        x@.shape[0] * weight@.shape[0] <= usize::MAX,
        bias matches Some(b) ==> b@.data.len() >= weight@.shape[0],
    ensures
        r.wf(),
        r@ == fused_value(
            x@,
            weight@,
            match bias {
                Some(b) => Some(b@.data),
                None => None,
            },
            activation,
        ),
        !r.requires_grad,
{
    let batch: usize = x.shape[0];
    let in_f: usize = x.shape[1];
    let out_f: usize = weight.shape[0];
    let ghost (bi, di, oi) = (batch as int, in_f as int, out_f as int);
    let ghost added: Option<Seq<S>> = match bias {
        Some(b) => Some(b@.data),
        None => None,
    };
    let ghost want = fused_value(x@, weight@, added, activation).data;
    proof {
        assert(x.shape@ =~= seq![batch, in_f]);
        assert(weight.shape@ =~= seq![out_f, in_f]);
        tensor::lemma_volume_two(batch, in_f);
        tensor::lemma_volume_two(out_f, in_f);
        tensor::lemma_volume_two(batch, out_f);
        assert(0 * oi == 0) by (nonlinear_arith);
    }
    let xlen: usize = x.data.len();
    let wlen: usize = weight.data.len();
    let mut c: Vec<S> = Vec::new();
    for i in 0..batch
        invariant
            c@.len() == i * oi,
            forall|k: int| 0 <= k < i * oi ==> #[trigger] c@[k] == want[k],
    {
        proof {
            nn::lemma_row_in(i as int, bi, di, bi * di);
            nn::lemma_row_in(i as int, bi, oi, bi * oi);
        }
        let x_row = vstd::slice::slice_subrange(&x.data, i * in_f, i * in_f + in_f);
        assert(x_row@ =~= activations::row_at(x.data@, di, i as int));
        for o in 0..out_f
            invariant
                c@.len() == i * oi + o,
                forall|k: int| 0 <= k < i * oi + o ==> #[trigger] c@[k] == want[k],
        {
            proof {
                nn::lemma_row_in(o as int, oi, di, oi * di);
                blas::lemma_cell(i as int, o as int, oi);
            }
            let w_row = vstd::slice::slice_subrange(&weight.data, o * in_f, o * in_f + in_f);
            assert(w_row@ =~= activations::row_at(weight.data@, di, o as int));
            let p = nn::inner_of(x_row, w_row);
            let v = match bias {
                Some(b) => p.plus(b.data[o]),
                None => p,
            };
            c.push(activate(activation, v));
        }
        assert(i * oi + oi == (i + 1) * oi) by (nonlinear_arith);
    }
    assert(c@ =~= want);
    let shape: Vec<usize> = vec![batch, out_f];
    assert(shape@ =~= seq![batch, out_f]);
    Tensor::new(c, shape, false)
}

// ---- Routing

/// Where a number goes in a descending order: before the first that is below it.
pub open spec fn slot<S: Real>(order: Seq<usize>, logits: Seq<S>, v: S, p: int) -> int
    decreases order.len() - p,
{
    if p >= order.len() || logits[order[p] as int].spec_below(v) {
        p
    } else {
        slot(order, logits, v, p + 1)
    }
}

/// The places of the first numbers, from the greatest on; of equal ones the first goes first.
pub open spec fn ranked<S: Real>(logits: Seq<S>, n: int) -> Seq<usize>
    decreases n,
{
    if n <= 0 {
        Seq::empty()
    } else {
        let before = ranked(logits, n - 1);
        before.insert(slot(before, logits, logits[n - 1], 0), (n - 1) as usize)
    }
}

proof fn lemma_slot<S: Real>(order: Seq<usize>, logits: Seq<S>, v: S, p: int)
    requires
        0 <= p <= order.len(),
    ensures
        p <= slot(order, logits, v, p) <= order.len(),
        forall|i: int|
            p <= i < slot(order, logits, v, p) ==> !logits[#[trigger] order[i] as int].spec_below(
                v,
            ),
        slot(order, logits, v, p) < order.len() ==> logits[order[slot(
            order,
            logits,
            v,
            p,
        )] as int].spec_below(v),
    decreases order.len() - p,
{
    if p < order.len() && !logits[order[p] as int].spec_below(v) {
        lemma_slot(order, logits, v, p + 1);
    }
}

/// The order holds each place once.
pub proof fn lemma_ranked_is_permutation<S: Real>(logits: Seq<S>, n: int)
    requires
        0 <= n <= usize::MAX + 1,
    ensures
        ranked(logits, n).len() == n,
        ranked(logits, n).no_duplicates(),
        forall|i: int| 0 <= i < n ==> 0 <= #[trigger] ranked(logits, n)[i] < n,
        forall|v: usize| 0 <= v < n ==> #[trigger] ranked(logits, n).contains(v),
    decreases n,
{
    if n > 0 {
        lemma_ranked_is_permutation(logits, n - 1);
        let before = ranked(logits, n - 1);
        let at = slot(before, logits, logits[n - 1], 0);
        let new = (n - 1) as usize;
        lemma_slot(before, logits, logits[n - 1], 0);
        let after = ranked(logits, n);
        assert(after == before.insert(at, new));
        assert forall|i: int, j: int| 0 <= i < j < n implies after[i] != after[j] by {
            let a = if i < at {
                i
            } else {
                i - 1
            };
            let b = if j < at {
                j
            } else {
                j - 1
            };
            if i != at && j != at {
                assert(before[a] != before[b]);
            }
        }
        assert forall|v: usize| 0 <= v < n implies #[trigger] after.contains(v) by {
            if v == new {
                assert(after[at] == v);
            } else {
                assert(before.contains(v));
                let i = choose|i: int| 0 <= i < before.len() && before[i] == v;
                if i < at {
                    assert(after[i] == v);
                } else {
                    assert(after[i + 1] == v);
                }
            }
        }
    }
}

/// With numbers of fixed point, the order descends, and of equal numbers the first goes first.
pub proof fn lemma_ranked_descends(logits: Seq<Fixed>, n: int, i: int, j: int)
    requires
        0 <= n <= logits.len(),
        n <= usize::MAX,
        0 <= i < j < n,
    ensures
        ({
            let r = ranked(logits, n);
            let (a, b) = (logits[r[i] as int], logits[r[j] as int]);
            b.spec_at_most(a) && (a == b ==> r[i] < r[j])
        }),
    decreases n,
{
    let before = ranked(logits, n - 1);
    let v = logits[n - 1];
    let at = slot(before, logits, v, 0);
    lemma_ranked_is_permutation(logits, n - 1);
    lemma_slot(before, logits, v, 0);
    let a = if i < at {
        i
    } else {
        i - 1
    };
    let b = if j < at {
        j
    } else {
        j - 1
    };
    if i != at && j != at {
        lemma_ranked_descends(logits, n - 1, a, b);
    } else if i == at && at < b {
        lemma_ranked_descends(logits, n - 1, at, b);
    }
}

/// The places of the experts of a sample, and their weights.
pub open spec fn routes<S: Real>(logits: Seq<S>, k: int) -> Seq<usize> {
    ranked(logits, logits.len() as int).take(k)
}

/// The numbers of the chosen experts.
pub open spec fn chosen<S: Real>(logits: Seq<S>, order: Seq<usize>) -> Seq<S> {
    Seq::new(order.len(), |j: int| logits[order[j] as int])
}

/// The softmax of the numbers of the chosen experts.
pub open spec fn route_weights<S: Real>(vals: Seq<S>) -> Seq<S> {
    let e = activations::exponentials(vals, grpo::greatest(vals, vals.len() as int));
    let s = tensor::sum_of(e);
    Seq::new(
        vals.len(),
        |j: int|
            if S::spec_zero().spec_below(s) {
                e[j].spec_over(s)
            } else {
                S::spec_zero()
            },
    )
}

fn rank<S: Real>(logits: &[S]) -> (r: Vec<usize>)
    ensures
        r@ == ranked(logits@, logits@.len() as int),
{
    let n: usize = logits.len();
    let mut order: Vec<usize> = Vec::new();
    for i in 0..n
        invariant
            n == logits@.len(),
            order@ == ranked(logits@, i as int),
            order@.len() == i,
            forall|k: int| 0 <= k < i ==> 0 <= #[trigger] order@[k] < i,
    {
        let v = logits[i];
        let mut p: usize = 0;
        while p < i && !logits[order[p]].below(v)
            invariant
                n == logits@.len(),
                i < n,
                p <= i,
                order@.len() == i,
                forall|k: int| 0 <= k < i ==> 0 <= #[trigger] order@[k] < i,
                slot(order@, logits@, v, 0) == slot(order@, logits@, v, p as int),
            decreases i - p,
        {
            p += 1;
        }
        proof {
            lemma_ranked_is_permutation(logits@, i + 1);
        }
        order.insert(p, i);
    }
    order
}

/// The weights of the chosen experts.
fn weigh<S: Real>(vals: &[S]) -> (r: Vec<S>)
    ensures
        r@ == route_weights(vals@),
{
    let k: usize = vals.len();
    let mut max = S::lowest();
    for j in 0..k
        invariant
            k == vals@.len(),
            max == grpo::greatest(vals@, j as int),
    {
        max = max.larger(vals[j]);
    }
    let ghost e = activations::exponentials(vals@, max);
    let mut exps: Vec<S> = Vec::new();
    let mut s = S::zero();
    for j in 0..k
        invariant
            k == vals@.len(),
            e == activations::exponentials(vals@, max),
            exps@ =~= e.take(j as int),
            s == number::sum_n(tensor::elements(e), j as int),
    {
        let x = vals[j].minus(max).exp();
        exps.push(x);
        s = s.plus(x);
    }
    assert(exps@ =~= e);
    let ghost want = route_weights(vals@);
    let mut out: Vec<S> = Vec::new();
    for j in 0..k
        invariant
            k == e.len(),
            exps@ == e,
            want.len() == k,
            forall|i: int|
                0 <= i < k ==> #[trigger] want[i] == (if S::spec_zero().spec_below(s) {
                    e[i].spec_over(s)
                } else {
                    S::spec_zero()
                }),
            out@ =~= want.take(j as int),
    {
        let w = if S::zero().below(s) {
            exps[j].over(s)
        } else {
            S::zero()
        };
        assert(w == want[j as int]);
        out.push(w);
    }
    assert(out@ =~= want);
    out
}

/// The `k` experts with the greatest numbers for each sample, and their weights.
#[verifier::loop_isolation(false)]
pub fn sparse_topk_route<S: Real>(
    gating_logits: &[S],
    batch: usize,
    num_experts: usize,
    k: usize,
) -> (r: (Vec<usize>, Vec<S>))
    requires
        k <= num_experts,
        batch * num_experts <= gating_logits@.len(),
    ensures
        r.0@.len() == batch * k,
        r.1@.len() == batch * k,
        forall|b: int|
            0 <= b < batch ==> {
                let row = #[trigger] activations::row_at(gating_logits@, num_experts as int, b);
                let order = routes(row, k as int);
                &&& activations::row_at(r.0@, k as int, b) == order
                &&& activations::row_at(r.1@, k as int, b) == route_weights(chosen(row, order))
            },
{
    let ghost (bi, ei, ki) = (batch as int, num_experts as int, k as int);
    let len: usize = gating_logits.len();
    let mut indices: Vec<usize> = Vec::new();
    let mut weights: Vec<S> = Vec::new();
    assert(0 * ki == 0) by (nonlinear_arith);
    for b in 0..batch
        invariant
            indices@.len() == b * ki,
            weights@.len() == b * ki,
            forall|g: int|
                0 <= g < b ==> {
                    let row = #[trigger] activations::row_at(gating_logits@, ei, g);
                    let order = routes(row, ki);
                    &&& activations::row_at(indices@, ki, g) == order
                    &&& activations::row_at(weights@, ki, g) == route_weights(chosen(row, order))
                },
    {
        proof {
            nn::lemma_row_in(b as int, bi, ei, bi * ei);
        }
        let ghost before_i = indices@;
        let ghost before_w = weights@;
        let logits = vstd::slice::slice_subrange(
            gating_logits,
            b * num_experts,
            b * num_experts + num_experts,
        );
        assert(logits@ =~= activations::row_at(gating_logits@, ei, b as int));
        let order = rank(logits);
        proof {
            lemma_ranked_is_permutation(logits@, ei);
        }
        let ghost top = routes(logits@, ki);
        let mut vals: Vec<S> = Vec::new();
        for j in 0..k
            invariant
                vals@ =~= chosen(logits@, top).take(j as int),
        {
            vals.push(logits[order[j]]);
        }
        assert(vals@ =~= chosen(logits@, top));
        let w = weigh(&vals);
        for j in 0..k
            invariant
                indices@ =~= before_i + top.take(j as int),
                weights@ =~= before_w + w@.take(j as int),
        {
            indices.push(order[j]);
            weights.push(w[j]);
        }
        proof {
            assert(top.take(ki) =~= top);
            assert(w@.take(ki) =~= w@);
            assert(b * ki + ki == (b + 1) * ki) by (nonlinear_arith);
            assert forall|g: int| 0 <= g < b + 1 implies {
                let row = #[trigger] activations::row_at(gating_logits@, ei, g);
                let order = routes(row, ki);
                &&& activations::row_at(indices@, ki, g) == order
                &&& activations::row_at(weights@, ki, g) == route_weights(chosen(row, order))
            } by {
                if g < b {
                    nn::lemma_row_in(g, b as int, ki, b * ki);
                    assert(activations::row_at(indices@, ki, g) =~= activations::row_at(
                        before_i,
                        ki,
                        g,
                    ));
                    assert(activations::row_at(weights@, ki, g) =~= activations::row_at(
                        before_w,
                        ki,
                        g,
                    ));
                } else {
                    assert(activations::row_at(indices@, ki, g) =~= top);
                    assert(activations::row_at(weights@, ki, g) =~= w@);
                }
            }
        }
    }
    (indices, weights)
}

} // verus!
