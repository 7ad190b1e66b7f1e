//! Training of a multilayer perceptron without a graph: flat buffers and matrix products.
use vstd::prelude::*;
use vstd::wrapping::u32_specs;
use crate::blas;
use crate::blas::{fresh_product, Mat, Transpose};
use crate::linear_attention;
use crate::linear_attention::column_sums;
use crate::number;
use crate::number::{filled, Real};
use crate::optim;
use crate::optim::{adam_update_scalar, fraction, rates_at};

verus! {

/// A multilayer perceptron with rectified hidden layers, its Adam state and its buffers.
pub struct CompiledMLP<S> {
    /// Inputs and outputs of each layer.
    pub dims: Vec<(usize, usize)>,
    /// How many samples a step takes.
    pub batch: usize,
    pub lr: S,
    /// The weights of each layer, one row per output.
    pub weights: Vec<Vec<S>>,
    pub biases: Vec<Vec<S>>,
    /// First and second moments of the weights.
    pub mw: Vec<Vec<S>>,
    pub vw: Vec<Vec<S>>,
    /// First and second moments of the biases.
    pub mb: Vec<Vec<S>>,
    pub vb: Vec<Vec<S>>,
    /// How many steps were taken.
    pub t: u32,
    pub beta1: S,
    pub beta2: S,
    pub eps: S,
    /// What each layer computed before its activation.
    pub z: Vec<Vec<S>>,
    /// What each layer put out.
    pub a: Vec<Vec<S>>,
    /// The gradients of the weights.
    pub dweight: Vec<Vec<S>>,
    /// The gradients of the biases.
    pub dbias: Vec<Vec<S>>,
}

/// The products of the sizes of a layer can be counted.
pub open spec fn layer_fits(d: (usize, usize), batch: usize) -> bool {
    &&& d.1 * d.0 <= usize::MAX
    &&& batch * d.0 <= usize::MAX
    &&& batch * d.1 <= usize::MAX
    &&& batch * d.1 * d.0 <= usize::MAX
}

/// Each layer takes what the one before it puts out, and all sizes can be counted.
pub open spec fn chained(dims: Seq<(usize, usize)>, batch: usize) -> bool {
    &&& forall|l: int| 0 <= l < dims.len() ==> layer_fits(#[trigger] dims[l], batch)
    &&& forall|l: int| 0 < l < dims.len() ==> (#[trigger] dims[l]).0 == dims[l - 1].1
}

/// The generator's state after `k` steps.
pub open spec fn lcg(seed: u32, k: int) -> u32
    decreases k,
{
    if k <= 0 {
        seed
    } else {
        u32_specs::wrapping_add(u32_specs::wrapping_mul(lcg(seed, k - 1), 1664525), 1013904223)
    }
}

/// The generator's state that a layer starts from.
pub open spec fn layer_seed(lin: usize, lout: usize) -> u32 {
    vstd::wrapping::usize_specs::wrapping_add(
        vstd::wrapping::usize_specs::wrapping_mul(lin, 31),
        lout,
    ) as u32
}

pub open spec fn two<S: Real>() -> S {
    S::spec_one().spec_plus(S::spec_one())
}

/// The initial weight that a generator state stands for: uniform between minus and plus the
/// root of two over the number of inputs.
pub open spec fn init_weight<S: Real>(state: u32, lin: usize) -> S {
    let std = two::<S>().spec_over(S::spec_count(lin)).spec_sqrt();
    let half = S::spec_one().spec_over(two::<S>());
    S::spec_count((state >> 8u32) as usize).spec_over(S::spec_count(16777216)).spec_minus(
        half,
    ).spec_times(two::<S>()).spec_times(std)
}

impl<S: Real> CompiledMLP<S> {
    /// All buffers have the sizes of their layers.
    pub open spec fn wf(&self) -> bool {
        let n = self.dims@.len();
        &&& chained(self.dims@, self.batch)
        &&& self.weights@.len() == n && self.biases@.len() == n
        &&& self.mw@.len() == n && self.vw@.len() == n
        &&& self.mb@.len() == n && self.vb@.len() == n
        &&& self.z@.len() == n && self.a@.len() == n
        &&& self.dweight@.len() == n && self.dbias@.len() == n
        &&& forall|l: int| 0 <= l < n ==> self.layer_wf(l, #[trigger] self.dims@[l])
    }

    pub open spec fn layer_wf(&self, l: int, d: (usize, usize)) -> bool {
        &&& self.weights@[l]@.len() == d.1 * d.0
        &&& self.mw@[l]@.len() == d.1 * d.0
        &&& self.vw@[l]@.len() == d.1 * d.0
        &&& self.biases@[l]@.len() == d.1
        &&& self.mb@[l]@.len() == d.1
        &&& self.vb@[l]@.len() == d.1
    }

    /// Weights from a generator that is seeded by the layer's sizes, biases and moments of
    /// zero, decays of 0.9 and 0.999.
    #[verifier::loop_isolation(false)]
    pub fn new(dims: &[(usize, usize)], batch: usize, lr: S) -> (r: Self)
        requires
            chained(dims@, batch),
        ensures
            r.wf(),
            r.dims@ == dims@,
            r.batch == batch,
            r.lr == lr,
            r.t == 0,
            r.beta1 == optim::ratio::<S>(9, 10),
            r.beta2 == optim::ratio::<S>(999, 1000),
            r.eps == optim::ratio::<S>(1, 100_000_000),
            forall|l: int|
                #![trigger r.weights@[l]]
                #![trigger r.biases@[l]]
                0 <= l < dims@.len() ==> {
                    let d = dims@[l];
                    let w = (d.1 * d.0) as nat;
                    let zeros = Seq::new(w, |i: int| S::spec_zero());
                    let zero_row = Seq::new(d.1 as nat, |i: int| S::spec_zero());
                    &&& r.weights@[l]@ == Seq::new(
                        w,
                        |k: int| init_weight::<S>(lcg(layer_seed(d.0, d.1), k + 1), d.0),
                    )
                    &&& r.biases@[l]@ == zero_row
                    &&& r.mw@[l]@ == zeros && r.vw@[l]@ == zeros
                    &&& r.mb@[l]@ == zero_row && r.vb@[l]@ == zero_row
                },
    {
        let n: usize = dims.len();
        let mut own: Vec<(usize, usize)> = Vec::new();
        let mut weights: Vec<Vec<S>> = Vec::new();
        let mut biases: Vec<Vec<S>> = Vec::new();
        let mut mw: Vec<Vec<S>> = Vec::new();
        let mut vw: Vec<Vec<S>> = Vec::new();
        let mut mb: Vec<Vec<S>> = Vec::new();
        let mut vb: Vec<Vec<S>> = Vec::new();
        let mut z: Vec<Vec<S>> = Vec::new();
        let mut a: Vec<Vec<S>> = Vec::new();
        let mut dweight: Vec<Vec<S>> = Vec::new();
        let mut dbias: Vec<Vec<S>> = Vec::new();
        for l in 0..n
            invariant
                own@ =~= dims@.take(l as int),
                weights@.len() == l,
                biases@.len() == l,
                mw@.len() == l,
                vw@.len() == l,
                mb@.len() == l,
                vb@.len() == l,
                z@.len() == l,
                a@.len() == l,
                dweight@.len() == l,
                dbias@.len() == l,
                forall|j: int|
                    #![trigger weights@[j]]
                    #![trigger biases@[j]]
                    #![trigger dims@[j]]
                    0 <= j < l ==> {
                        let d = dims@[j];
                        let w = (d.1 * d.0) as nat;
                        let zeros = Seq::new(w, |i: int| S::spec_zero());
                        let zero_row = Seq::new(d.1 as nat, |i: int| S::spec_zero());
                        &&& weights@[j]@ == Seq::new(
                            w,
                            |k: int| init_weight::<S>(lcg(layer_seed(d.0, d.1), k + 1), d.0),
                        )
                        &&& biases@[j]@ == zero_row
                        &&& mw@[j]@ == zeros && vw@[j]@ == zeros
                        &&& mb@[j]@ == zero_row && vb@[j]@ == zero_row
                    },
        {
            let d = dims[l];
            let (lin, lout) = d;
            assert(layer_fits(dims@[l as int], batch));
            assert(0 <= lout * lin) by (nonlinear_arith)
                requires
                    0 <= lout,
                    0 <= lin,
            ;
            let wlen: usize = lout * lin;
            let two_s = S::one().plus(S::one());
            let std = two_s.over(S::count(lin)).sqrt();
            let half = S::one().over(two_s);
            let ghost seed0 = layer_seed(lin, lout);
            let mut seed: u32 = lin.wrapping_mul(31).wrapping_add(lout) as u32;
            let mut w: Vec<S> = Vec::new();
            for k in 0..wlen
                invariant
                    seed == lcg(seed0, k as int),
                    w@ =~= Seq::new(k as nat, |k: int| init_weight::<S>(lcg(seed0, k + 1), lin)),
            {
                seed = seed.wrapping_mul(1664525).wrapping_add(1013904223);
                assert(seed == lcg(seed0, k + 1));
                w.push(
                    S::count((seed >> 8u32) as usize).over(S::count(16777216)).minus(half).times(
                        two_s,
                    ).times(std),
                );
            }
            own.push(d);
            weights.push(w);
            biases.push(filled(S::zero(), lout));
            mw.push(filled(S::zero(), wlen));
            vw.push(filled(S::zero(), wlen));
            mb.push(filled(S::zero(), lout));
            vb.push(filled(S::zero(), lout));
            z.push(filled(S::zero(), batch * lout));
            a.push(filled(S::zero(), batch * lout));
            dweight.push(filled(S::zero(), wlen));
            dbias.push(filled(S::zero(), lout));
        }
        assert(own@ =~= dims@);
        CompiledMLP {
            dims: own,
            batch,
            lr,
            weights,
            biases,
            mw,
            vw,
            mb,
            vb,
            t: 0,
            beta1: fraction(9, 10),
            beta2: fraction(999, 1000),
            eps: fraction(1, 100_000_000),
            z,
            a,
            dweight,
            dbias,
        }
    }

    /// The input of layer `l`.
    pub open spec fn input_of(&self, x: Seq<S>, l: int) -> Mat<S>
        decreases l, 0int,
    {
        if l <= 0 {
            linear_attention::rows(x, self.dims@[0].0 as int)
        } else {
            self.output_of(x, l - 1)
        }
    }

    /// What layer `l` computes before its activation.
    pub open spec fn sum_of(&self, x: Seq<S>, l: int) -> Mat<S>
        decreases l, 1int,
    {
        let (lin, lout) = self.dims@[l];
        let p = blas::mat_product(
            Transpose::Trans,
            self.batch as int,
            lout as int,
            lin as int,
            self.input_of(x, l),
            blas::transposed(linear_attention::rows(self.weights@[l]@, lin as int)),
        );
        |i: int, o: int| p(i, o).spec_plus(self.biases@[l]@[o])
    }

    /// What layer `l` puts out: the positive part of the sum, and the sum itself in the last
    /// layer.
    pub open spec fn output_of(&self, x: Seq<S>, l: int) -> Mat<S>
        decreases l, 2int,
    {
        let s = self.sum_of(x, l);
        if l + 1 < self.dims@.len() {
            |i: int, o: int| s(i, o).spec_larger(S::spec_zero())
        } else {
            s
        }
    }

    /// How many numbers the network puts out.
    pub open spec fn out_len(&self) -> int {
        self.batch * self.dims@.last().1
    }

    /// The deviation of each output from its target.
    pub open spec fn deviation(&self, x: Seq<S>, target: Seq<S>) -> spec_fn(int) -> S {
        let w = self.dims@.last().1 as int;
        let out = self.output_of(x, self.dims@.len() - 1);
        |i: int| out(blas::row_of(i, w), blas::col_of(i, w)).spec_minus(target[i])
    }

    /// The mean squared deviation.
    pub open spec fn loss_of(&self, x: Seq<S>, target: Seq<S>) -> S {
        let d = self.deviation(x, target);
        number::sum_n(squared(d), self.out_len()).spec_over(S::spec_count(self.out_len() as usize))
    }

    /// The gradient of the loss by what layer `l` puts out.
    pub open spec fn out_grad(&self, x: Seq<S>, target: Seq<S>, l: int) -> Mat<S>
        decreases self.dims@.len() - l, 0int,
    {
        if l + 1 >= self.dims@.len() {
            let w = self.dims@.last().1 as int;
            let scale = two::<S>().spec_over(S::spec_count(self.out_len() as usize));
            let d = self.deviation(x, target);
            |i: int, o: int| d(i * w + o).spec_times(scale)
        } else {
            let (lin, lout) = self.dims@[l + 1];
            blas::mat_product(
                Transpose::NoTrans,
                self.batch as int,
                lin as int,
                lout as int,
                self.sum_grad(x, target, l + 1),
                linear_attention::rows(self.weights@[l + 1]@, lin as int),
            )
        }
    }

    /// The gradient of the loss by what layer `l` computes before its activation.
    pub open spec fn sum_grad(&self, x: Seq<S>, target: Seq<S>, l: int) -> Mat<S>
        decreases self.dims@.len() - l, 1int,
    {
        let g = self.out_grad(x, target, l);
        let s = self.sum_of(x, l);
        if l + 1 < self.dims@.len() {
            |i: int, o: int|
                if s(i, o).spec_at_most(S::spec_zero()) {
                    S::spec_zero()
                } else {
                    g(i, o)
                }
        } else {
            g
        }
    }

    /// The gradient of the loss by the weights of layer `l`.
    pub open spec fn weight_grad(&self, x: Seq<S>, target: Seq<S>, l: int) -> Mat<S> {
        let (lin, lout) = self.dims@[l];
        blas::mat_product(
            Transpose::NoTrans,
            lout as int,
            lin as int,
            self.batch as int,
            blas::transposed(self.sum_grad(x, target, l)),
            self.input_of(x, l),
        )
    }

    /// The gradient of the loss by the biases of layer `l`.
    pub open spec fn bias_grad(&self, x: Seq<S>, target: Seq<S>, l: int) -> spec_fn(int) -> S {
        linear_attention::key_sum(self.sum_grad(x, target, l), self.batch as int)
    }
}

pub open spec fn squared<S: Real>(d: spec_fn(int) -> S) -> spec_fn(int) -> S {
    |i: int| d(i).spec_times(d(i))
}

impl<S: Real> CompiledMLP<S> {
    /// The buffers hold what the layers compute.
    pub open spec fn computed(&self, x: Seq<S>, z: Seq<Vec<S>>, a: Seq<Vec<S>>, upto: int) -> bool {
        forall|l: int|
            #![trigger z[l]]
            #![trigger a[l]]
            0 <= l < upto ==> {
                let (b, w) = (self.batch as int, self.dims@[l].1 as int);
                blas::holds(z[l]@, self.sum_of(x, l), b, w) && blas::holds(
                    a[l]@,
                    self.output_of(x, l),
                    b,
                    w,
                )
            }
    }

    /// The storage of the input of layer `l`.
    fn input_slice<'a>(&self, x: &'a [S], a: &'a Vec<Vec<S>>, l: usize) -> (r: &'a [S])
        requires
            self.wf(),
            l < self.dims@.len(),
            self.batch * self.dims@[0].0 <= x@.len(),
            l <= a@.len(),
            forall|j: int|
                0 <= j < l ==> blas::holds(
                    (#[trigger] a@[j])@,
                    self.output_of(x@, j),
                    self.batch as int,
                    self.dims@[j].1 as int,
                ),
        ensures
            self.batch * self.dims@[l as int].0 <= r@.len(),
            blas::agree(
                linear_attention::rows(r@, self.dims@[l as int].0 as int),
                self.input_of(x@, l as int),
                self.batch as int,
                self.dims@[l as int].0 as int,
            ),
    {
        if l == 0 {
            x
        } else {
            assert(self.dims@[l as int].0 == self.dims@[l - 1].1);
            assert(blas::holds(
                a@[l - 1]@,
                self.output_of(x@, l - 1),
                self.batch as int,
                self.dims@[l - 1].1 as int,
            ));
            &a[l - 1]
        }
    }

    /// Runs the layers.
    #[verifier::loop_isolation(false)]
    fn forward_pass(&self, x: &[S]) -> (r: (Vec<Vec<S>>, Vec<Vec<S>>))
        requires
            self.wf(),
            self.dims@.len() > 0,
            self.batch * self.dims@[0].0 <= x@.len(),
        ensures
            r.0@.len() == self.dims@.len(),
            r.1@.len() == self.dims@.len(),
            self.computed(x@, r.0@, r.1@, self.dims@.len() as int),
    {
        let b: usize = self.batch;
        let n: usize = self.dims.len();
        let mut zs: Vec<Vec<S>> = Vec::new();
        let mut acts: Vec<Vec<S>> = Vec::new();
        for l in 0..n
            invariant
                zs@.len() == l,
                acts@.len() == l,
                self.computed(x@, zs@, acts@, l as int),
        {
            let (lin, lout) = self.dims[l];
            assert(layer_fits(self.dims@[l as int], b));
            assert(self.layer_wf(l as int, self.dims@[l as int]));
            let ghost (bi, w) = (b as int, lout as int);
            let input = self.input_slice(x, &acts, l);
            let ghost wm = linear_attention::rows(self.weights@[l as int]@, lin as int);
            proof {
                blas::lemma_contiguous(b as int, lin as int);
                blas::lemma_contiguous(lout as int, lin as int);
            }
            let p = fresh_product(
                Transpose::NoTrans,
                Transpose::Trans,
                b,
                lout,
                lin,
                input,
                lin,
                &self.weights[l],
                lin,
                Ghost(self.input_of(x@, l as int)),
                Ghost(blas::transposed(wm)),
            );
            let ghost pm = blas::mat_product(
                Transpose::Trans,
                bi,
                w,
                lin as int,
                self.input_of(x@, l as int),
                blas::transposed(wm),
            );
            let ghost sm = self.sum_of(x@, l as int);
            let ghost om = self.output_of(x@, l as int);
            let hidden = l + 1 < n;
            let mut z: Vec<S> = Vec::new();
            let mut a: Vec<S> = Vec::new();
            proof {
                blas::lemma_holds_at(p@, pm, bi, w);
                assert(0 * lout == 0) by (nonlinear_arith);
            }
            for i in 0..b
                invariant
                    z@.len() == i * lout,
                    a@.len() == i * lout,
                    forall|y: int|
                        0 <= y < i * lout ==> #[trigger] z@[y] == sm(
                            blas::row_of(y, w),
                            blas::col_of(y, w),
                        ),
                    forall|y: int|
                        0 <= y < i * lout ==> #[trigger] a@[y] == om(
                            blas::row_of(y, w),
                            blas::col_of(y, w),
                        ),
            {
                for o in 0..lout
                    invariant
                        z@.len() == i * lout + o,
                        a@.len() == i * lout + o,
                        forall|y: int|
                            0 <= y < i * lout + o ==> #[trigger] z@[y] == sm(
                                blas::row_of(y, w),
                                blas::col_of(y, w),
                            ),
                        forall|y: int|
                            0 <= y < i * lout + o ==> #[trigger] a@[y] == om(
                                blas::row_of(y, w),
                                blas::col_of(y, w),
                            ),
                {
                    proof {
                        blas::lemma_in_storage(i as int, o as int, bi, w);
                        blas::lemma_row_fits(i as int, bi, w);
                        blas::lemma_cell(i as int, o as int, w);
                    }
                    let v = p[i * lout + o].plus(self.biases[l][o]);
                    z.push(v);
                    a.push(
                        if hidden {
                            v.larger(S::zero())
                        } else {
                            v
                        },
                    );
                }
                assert(i * lout + lout == (i + 1) * lout) by (nonlinear_arith);
            }
            proof {
                blas::lemma_holds_from(z@, sm, bi, w);
                blas::lemma_holds_from(a@, om, bi, w);
            }
            zs.push(z);
            acts.push(a);
        }
        (zs, acts)
    }

    /// The loss, and the gradient of the loss by the output.
    #[verifier::loop_isolation(false)]
    fn loss_pass(&self, out: &Vec<S>, target: &[S], Ghost(x): Ghost<Seq<S>>) -> (r: (S, Vec<S>))
        requires
            self.wf(),
            self.dims@.len() > 0,
            self.out_len() <= target@.len(),
            blas::holds(
                out@,
                self.output_of(x, self.dims@.len() - 1),
                self.batch as int,
                self.dims@.last().1 as int,
            ),
        ensures
            r.0 == self.loss_of(x, target@),
            blas::holds(
                r.1@,
                self.out_grad(x, target@, self.dims@.len() - 1),
                self.batch as int,
                self.dims@.last().1 as int,
            ),
    {
        let n: usize = self.dims.len();
        let (lin, lout) = self.dims[n - 1];
        assert(layer_fits(self.dims@[n - 1], self.batch));
        let ghost (bi, w) = (self.batch as int, lout as int);
        let out_len: usize = self.batch * lout;
        let ghost om = self.output_of(x, n - 1);
        let ghost dev = self.deviation(x, target@);
        let ghost gm = self.out_grad(x, target@, n - 1);
        let count = S::count(out_len);
        let scale = S::one().plus(S::one()).over(count);
        let mut loss = S::zero();
        let mut g: Vec<S> = Vec::new();
        proof {
            blas::lemma_holds_at(out@, om, bi, w);
            blas::lemma_contiguous(bi, w);
        }
        for i in 0..out_len
            invariant
                loss == number::sum_n(squared(dev), i as int),
                g@.len() == i,
                forall|y: int|
                    0 <= y < i ==> #[trigger] g@[y] == gm(blas::row_of(y, w), blas::col_of(y, w)),
        {
            let d = out[i].minus(target[i]);
            assert(d == dev(i as int));
            loss = loss.plus(d.times(d));
            proof {
                assert(blas::in_block(i as int, w, 0, bi, 0, w));
                blas::lemma_cell(blas::row_of(i as int, w), blas::col_of(i as int, w), w);
            }
            g.push(d.times(scale));
        }
        proof {
            blas::lemma_holds_from(g@, gm, bi, w);
        }
        (loss.over(count), g)
    }

    /// The gradients of all weights and biases, from the last layer to the first.
    #[verifier::loop_isolation(false)]
    #[verifier::rlimit(60)]
    fn backward_pass(
        &self,
        x: &[S],
        z: &Vec<Vec<S>>,
        a: &Vec<Vec<S>>,
        seed: Vec<S>,
        Ghost(target): Ghost<Seq<S>>,
    ) -> (r: (Vec<Vec<S>>, Vec<Vec<S>>))
        requires
            self.wf(),
            self.dims@.len() > 0,
            self.batch * self.dims@[0].0 <= x@.len(),
            z@.len() == self.dims@.len(),
            a@.len() == self.dims@.len(),
            self.computed(x@, z@, a@, self.dims@.len() as int),
            blas::holds(
                seed@,
                self.out_grad(x@, target, self.dims@.len() - 1),
                self.batch as int,
                self.dims@.last().1 as int,
            ),
        ensures
            self.differentiated(x@, target, r.0@, r.1@),
    {
        let b: usize = self.batch;
        let n: usize = self.dims.len();
        let ghost bi = b as int;
        let mut dws: Vec<Vec<S>> = Vec::new();
        let mut dbs: Vec<Vec<S>> = Vec::new();
        for l in 0..n
            invariant
                dws@.len() == l,
                dbs@.len() == l,
        {
            dws.push(Vec::new());
            dbs.push(Vec::new());
        }
        let mut g = seed;
        let mut l: usize = n;
        while l > 0
            invariant
                l <= n,
                dws@.len() == n,
                dbs@.len() == n,
                l > 0 ==> blas::holds(
                    g@,
                    self.out_grad(x@, target, l - 1),
                    bi,
                    self.dims@[l - 1].1 as int,
                ),
                forall|j: int|
                    #![trigger dws@[j]]
                    #![trigger dbs@[j]]
                    l <= j < n ==> self.layer_differentiated(x@, target, j, dws@[j]@, dbs@[j]@),
            decreases l,
        {
            l -= 1;
            let (lin, lout) = self.dims[l];
            assert(layer_fits(self.dims@[l as int], b));
            assert(self.layer_wf(l as int, self.dims@[l as int]));
            let ghost w = lout as int;
            let ghost om = self.out_grad(x@, target, l as int);
            let ghost sm = self.sum_of(x@, l as int);
            let ghost gm = self.sum_grad(x@, target, l as int);
            assert(blas::holds(z@[l as int]@, sm, bi, w));
            let hidden = l + 1 < n;
            let zl = &z[l];
            proof {
                blas::lemma_holds_at(g@, om, bi, w);
                blas::lemma_holds_at(zl@, sm, bi, w);
            }
            let ghost before = g@;
            if hidden {
                let glen: usize = b * lout;
                for i in 0..glen
                    invariant
                        g@.len() == glen,
                        forall|y: int|
                            0 <= y < glen ==> #[trigger] g@[y] == if y < i {
                                gm(blas::row_of(y, w), blas::col_of(y, w))
                            } else {
                                before[y]
                            },
                {
                    if zl[i].at_most(S::zero()) {
                        g[i] = S::zero();
                    }
                }
            }
            proof {
                blas::lemma_holds_from(g@, gm, bi, w);
                linear_attention::lemma_transposed_operand(g@, gm, bi, w);
                blas::lemma_contiguous(bi, lin as int);
                blas::lemma_contiguous(bi, w);
                blas::lemma_contiguous(w, lin as int);
                assert(lout * lin * b == b * lout * lin) by (nonlinear_arith);
                assert(b * lin * lout == b * lout * lin) by (nonlinear_arith);
            }
            let input = self.input_slice(x, a, l);
            let dw = fresh_product(
                Transpose::Trans,
                Transpose::NoTrans,
                lout,
                lin,
                b,
                &g,
                lout,
                input,
                lin,
                Ghost(blas::transposed(gm)),
                Ghost(self.input_of(x@, l as int)),
            );
            let db = column_sums(&g, b, lout, Ghost(gm));
            assert(self.layer_differentiated(x@, target, l as int, dw@, db@)) by {
                let bg = self.bias_grad(x@, target, l as int);
                assert(db@ =~= Seq::new(lout as nat, |o: int| bg(o)));
            }
            dws[l] = dw;
            dbs[l] = db;
            if l > 0 {
                assert(self.dims@[l as int].0 == self.dims@[l - 1].1);
                g = fresh_product(
                    Transpose::NoTrans,
                    Transpose::NoTrans,
                    b,
                    lin,
                    lout,
                    &g,
                    lout,
                    &self.weights[l],
                    lin,
                    Ghost(gm),
                    Ghost(linear_attention::rows(self.weights@[l as int]@, lin as int)),
                );
            }
        }
        (dws, dbs)
    }

    /// The two vectors hold the gradients of the weights and biases of layer `l`.
    pub open spec fn layer_differentiated(
        &self,
        x: Seq<S>,
        target: Seq<S>,
        l: int,
        dw: Seq<S>,
        db: Seq<S>,
    ) -> bool {
        let d = self.dims@[l];
        &&& blas::holds(dw, self.weight_grad(x, target, l), d.1 as int, d.0 as int)
        &&& db == Seq::new(d.1 as nat, |o: int| self.bias_grad(x, target, l)(o))
    }

    /// The vectors hold the gradients of all weights and biases.
    pub open spec fn differentiated(
        &self,
        x: Seq<S>,
        target: Seq<S>,
        dws: Seq<Vec<S>>,
        dbs: Seq<Vec<S>>,
    ) -> bool {
        &&& dws.len() == self.dims@.len()
        &&& dbs.len() == self.dims@.len()
        &&& forall|j: int|
            #![trigger dws[j]]
            #![trigger dbs[j]]
            0 <= j < dws.len() ==> self.layer_differentiated(x, target, j, dws[j]@, dbs[j]@)
    }

    /// Sizes, rates and batch are the same.
    pub open spec fn same_rule(&self, new: &Self) -> bool {
        &&& new.dims == self.dims
        &&& new.batch == self.batch
        &&& new.lr == self.lr
        &&& new.beta1 == self.beta1
        &&& new.beta2 == self.beta2
        &&& new.eps == self.eps
    }

    /// The parameters and moments of the first `upto` layers have made a step, the others
    /// none.
    pub open spec fn stepped(&self, new: &Self, upto: int) -> bool {
        let k = optim::adam_rates(self.lr, self.beta1, self.beta2, self.eps, (self.t + 1) as u32);
        forall|l: int|
            #![trigger new.weights@[l]]
            #![trigger new.biases@[l]]
            #![trigger self.dims@[l]]
            0 <= l < self.dims@.len() ==> if l < upto {
                &&& (new.mw@[l]@, new.vw@[l]@, new.weights@[l]@) == optim::adam_stepped(
                    new.dweight@[l]@,
                    self.mw@[l]@,
                    self.vw@[l]@,
                    self.weights@[l]@,
                    k,
                )
                &&& (new.mb@[l]@, new.vb@[l]@, new.biases@[l]@) == optim::adam_stepped(
                    new.dbias@[l]@,
                    self.mb@[l]@,
                    self.vb@[l]@,
                    self.biases@[l]@,
                    k,
                )
            } else {
                &&& new.mw@[l] == self.mw@[l] && new.vw@[l] == self.vw@[l] && new.weights@[l]
                    == self.weights@[l]
                &&& new.mb@[l] == self.mb@[l] && new.vb@[l] == self.vb@[l] && new.biases@[l]
                    == self.biases@[l]
            }
    }

    /// One training step on a batch: layers, loss, gradients, Adam. Returns the loss before
    /// the step.
    #[verifier::loop_isolation(false)]
    #[verifier::rlimit(100)]
    #[verifier::spinoff_prover]
    pub fn step(&mut self, x: &[S], target: &[S]) -> (loss: S)
        requires
            old(self).wf(),
            old(self).dims@.len() > 0,
            old(self).batch * old(self).dims@[0].0 <= x@.len(),
            old(self).out_len() <= target@.len(),
            old(self).t < u32::MAX,
        ensures
            final(self).wf(),
            loss == old(self).loss_of(x@, target@),
            old(self).same_rule(final(self)),
            final(self).t == old(self).t + 1,
            old(self).computed(
                x@,
                final(self).z@,
                final(self).a@,
                old(self).dims@.len() as int,
            ),
            old(self).differentiated(x@, target@, final(self).dweight@, final(self).dbias@),
            old(self).stepped(final(self), old(self).dims@.len() as int),
    {
        let n: usize = self.dims.len();
        let (z, a) = self.forward_pass(x);
        let (loss, seed) = self.loss_pass(&a[n - 1], target, Ghost(x@));
        let (dws, dbs) = self.backward_pass(x, &z, &a, seed, Ghost(target@));
        self.z = z;
        self.a = a;
        self.dweight = dws;
        self.dbias = dbs;
        self.t += 1;
        let k = rates_at(self.lr, self.beta1, self.beta2, self.eps, self.t);
        for l in 0..n
            invariant
                self.wf(),
                old(self).same_rule(self),
                self.t == old(self).t + 1,
                self.z == z,
                self.a == a,
                self.dweight == dws,
                self.dbias == dbs,
                old(self).stepped(self, l as int),
        {
            proof {
                let d = self.dims@[l as int];
                assert(old(self).layer_wf(l as int, old(self).dims@[l as int]));
                assert(self.layer_wf(l as int, d));
                assert(old(self).layer_differentiated(
                    x@,
                    target@,
                    l as int,
                    dws@[l as int]@,
                    dbs@[l as int]@,
                ));
            }
            adam_update_scalar(
                &self.dweight[l],
                &mut self.mw[l],
                &mut self.vw[l],
                &mut self.weights[l],
                &k,
            );
            adam_update_scalar(
                &self.dbias[l],
                &mut self.mb[l],
                &mut self.vb[l],
                &mut self.biases[l],
                &k,
            );
            proof {
                assert forall|j: int| 0 <= j < n implies self.layer_wf(
                    j,
                    #[trigger] self.dims@[j],
                ) by {
                    assert(old(self).layer_wf(j, old(self).dims@[j]));
                }
            }
        }
        loss
    }
}

} // verus!
