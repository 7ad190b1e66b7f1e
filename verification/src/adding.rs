//! What blocks add to what they are given, for numbers without rounding.
use vstd::prelude::*;
use crate::activations;
use crate::activations::Pointwise;
use crate::diffusion;
use crate::ideal;
use crate::ideal::{circles, faithful, product, rsum, Reading};
use crate::looped_transformer::TransformerBlock;
use crate::mamba;
use crate::mamba::MambaBlock;
use crate::multiplying;
use crate::nn;
use crate::nn::Module;
use crate::number::{Number, Real};
use crate::tensor;
use crate::tensor::{Op, Value};

verus! {

/// A stack of blocks adds to each element what each of its blocks makes of what came to it.
pub proof fn lemma_carried<S: Real, M: Module<S>>(
    r: Reading<S>,
    blocks: Seq<M>,
    x: Value<S>,
    n: int,
    i: int,
)
    requires
        faithful(r),
        0 <= n <= blocks.len(),
        0 <= i < tensor::volume(x.shape),
        forall|k: int|
            0 <= k < n ==> (#[trigger] blocks[k]).output(mamba::carried(blocks, x, k)).shape
                == x.shape,
    ensures
        mamba::carried(blocks, x, n).shape == x.shape,
        (r.of)(mamba::carried(blocks, x, n).data[i]) == (r.of)(x.data[i]) + rsum(
            |k: int| (r.of)(blocks[k].output(mamba::carried(blocks, x, k)).data[i]),
            n,
        ),
    decreases n,
{
    if n > 0 {
        lemma_carried(r, blocks, x, n - 1, i);
        let before = mamba::carried(blocks, x, n - 1);
        let more = blocks[n - 1].output(before);
        multiplying::lemma_pointwise(Op::Add, before, more, i);
        ideal::lemma_reads(r, before.data[i], more.data[i]);
    }
}

/// A transformer block adds to each element what the heads attend to, and then what the layers
/// after them make of that.
pub proof fn lemma_transformer_block<S: Real>(
    r: Reading<S>,
    b: TransformerBlock<S>,
    x: Value<S>,
    i: int,
)
    requires
        faithful(r),
        0 <= i < tensor::volume(x.shape),
        b.attn.output(b.ln1.output(x)).shape == x.shape,
        b.ff.output(b.ln2.output(b.attentive(x))).shape == x.shape,
    ensures
        (r.of)(b.attentive(x).data[i]) == (r.of)(x.data[i]) + (r.of)(
            b.attn.output(b.ln1.output(x)).data[i],
        ),
        (r.of)(b.output(x).data[i]) == (r.of)(x.data[i]) + (r.of)(
            b.attn.output(b.ln1.output(x)).data[i],
        ) + (r.of)(b.ff.output(b.ln2.output(b.attentive(x))).data[i]),
{
    let seen = b.attn.output(b.ln1.output(x));
    let h = b.attentive(x);
    let more = b.ff.output(b.ln2.output(h));
    multiplying::lemma_pointwise(Op::Add, x, seen, i);
    ideal::lemma_reads(r, x.data[i], seen.data[i]);
    multiplying::lemma_pointwise(Op::Add, h, more, i);
    ideal::lemma_reads(r, h.data[i], more.data[i]);
}

/// Experts together give the sum of what each gives.
pub proof fn lemma_combined<S: Real>(
    r: Reading<S>,
    first: Value<S>,
    rest: Seq<Value<S>>,
    n: int,
    i: int,
)
    requires
        faithful(r),
        0 <= n <= rest.len(),
        0 <= i < tensor::volume(first.shape),
        forall|k: int| 0 <= k < n ==> (#[trigger] rest[k]).shape == first.shape,
    ensures
        nn::combined(first, rest, n).shape == first.shape,
        (r.of)(nn::combined(first, rest, n).data[i]) == (r.of)(first.data[i]) + rsum(
            |k: int| (r.of)(rest[k].data[i]),
            n,
        ),
    decreases n,
{
    if n > 0 {
        lemma_combined(r, first, rest, n - 1, i);
        let before = nn::combined(first, rest, n - 1);
        multiplying::lemma_pointwise(Op::Add, before, rest[n - 1], i);
        ideal::lemma_reads(r, before.data[i], rest[n - 1].data[i]);
    }
}

/// What comes out of a state space counts as much as its gate is open.
pub proof fn lemma_gated<S: Real>(r: Reading<S>, b: MambaBlock<S>, x: Value<S>, i: int)
    requires
        faithful(r),
        b.scan(x).shape == b.in_proj_z.output(x).shape,
        0 <= i < tensor::volume(b.scan(x).shape),
        i < b.in_proj_z.output(x).data.len(),
    ensures
        (r.of)(b.gated(x).data[i]) == product(
            (r.of)(b.scan(x).data[i]),
            (r.of)(activations::point_of(Pointwise::Silu, b.in_proj_z.output(x).data[i])),
        ),
{
    let gate = activations::pointwise(Pointwise::Silu, b.in_proj_z.output(x));
    multiplying::lemma_pointwise(Op::Mul, b.scan(x), gate, i);
    ideal::lemma_reads(r, b.scan(x).data[i], gate.data[i]);
}

/// The embeddings of two steps match by the cosine of how far they lie apart, in units of each
/// frequency; the first of each pair is zero at the start.
pub proof fn lemma_embeddings_match<S: Real>(r: Reading<S>, a: S, b: S, dim: usize, c: int)
    requires
        faithful(r),
        circles(r),
        0 <= c < dim / 2,
    ensures
        product(
            (r.of)(diffusion::embedding(a, dim).data[2 * c]),
            (r.of)(diffusion::embedding(b, dim).data[2 * c]),
        ) + product(
            (r.of)(diffusion::embedding(a, dim).data[2 * c + 1]),
            (r.of)(diffusion::embedding(b, dim).data[2 * c + 1]),
        ) == (r.cos)(
            product(
                (r.of)(a) - (r.of)(b),
                (r.of)(diffusion::step_frequency::<S>(c, (dim / 2) as int)),
            ),
        ),
        (r.of)(a) == 0real ==> (r.of)(diffusion::embedding(a, dim).data[2 * c]) == 0real,
{
    let f = diffusion::step_frequency::<S>(c, (dim / 2) as int);
    let (u, v) = (a.spec_times(f), b.spec_times(f));
    ideal::lemma_reads(r, a, f);
    ideal::lemma_reads(r, b, f);
    let (x, y) = ((r.of)(u), (r.of)(v));
    ideal::lemma_reads_angle(r, u, x, y);
    ideal::lemma_reads_angle(r, v, x, y);
    ideal::lemma_spread((r.of)(f), (r.of)(a), (r.of)(b));
    ideal::lemma_neutral((r.of)(f));
    assert(diffusion::embedding(a, dim).data[2 * c] == u.spec_sin());
    assert(diffusion::embedding(a, dim).data[2 * c + 1] == u.spec_cos());
    assert(diffusion::embedding(b, dim).data[2 * c] == v.spec_sin());
    assert(diffusion::embedding(b, dim).data[2 * c + 1] == v.spec_cos());
}

} // verus!
