//! Weights as bytes with a scale for each row, and products of matrices of bytes.
use vstd::prelude::*;
use crate::activations;
use crate::blas;
use crate::nn;
use crate::nn::Linear;
use crate::nn::Module;
use crate::number;
use crate::number::{bound, Real};
use crate::position;
use crate::tensor;
use crate::tensor::{copy_slice, Tensor, Value};

verus! {

// ---- Numbers and bytes

/// A whole number as a number.
pub open spec fn int_value<S: Real>(v: int) -> S {
    if v < 0 {
        S::spec_count((-v) as usize).spec_neg()
    } else {
        S::spec_count(v as usize)
    }
}

/// A machine integer as a number.
pub fn from_int<S: Real>(v: i32) -> (r: S)
    ensures
        r == int_value::<S>(v as int),
{
    if v < 0 {
        let w: i64 = -(v as i64);
        S::count(w as usize).neg()
    } else {
        S::count(v as usize)
    }
}

/// The nearest byte.
pub open spec fn byte_of<S: Real>(q: S) -> i8 {
    let w = number::bounded(
        q.spec_round(),
        S::spec_count(128).spec_neg(),
        S::spec_count(127),
    ).spec_whole();
    if w < -128 {
        -128i8
    } else if w > 127 {
        127i8
    } else {
        w as i8
    }
}

/// The nearest byte.
pub fn to_byte<S: Real>(q: S) -> (r: i8)
    ensures
        r == byte_of(q),
{
    let w: i64 = bound(q.round(), S::count(128).neg(), S::count(127)).whole();
    if w < -128 {
        -128
    } else if w > 127 {
        127
    } else {
        w as i8
    }
}

/// The greatest distance from zero of the first numbers.
pub open spec fn widest<S: Real>(row: Seq<S>, n: int) -> S
    decreases n,
{
    if n <= 0 {
        S::spec_zero()
    } else {
        widest(row, n - 1).spec_larger(row[n - 1].spec_abs())
    }
}

/// The scale of a row: its greatest distance from zero is 127.
pub open spec fn row_scale<S: Real>(row: Seq<S>) -> S {
    let max = widest(row, row.len() as int);
    if S::spec_zero().spec_below(max) {
        max.spec_over(S::spec_count(127))
    } else {
        S::spec_one()
    }
}

fn scale_of<S: Real>(row: &[S]) -> (r: S)
    ensures
        r == row_scale(row@),
{
    let mut max = S::zero();
    for j in 0..row.len()
        invariant
            max == widest(row@, j as int),
    {
        max = max.larger(row[j].abs());
    }
    if S::zero().below(max) {
        max.over(S::count(127))
    } else {
        S::one()
    }
}

// ---- Weights

/// A matrix as bytes: each row times its scale.
#[derive(Debug, Clone)]
pub struct Int8Weights<S> {
    pub data: Vec<i8>,
    pub scales: Vec<S>,
    pub shape: Vec<usize>,
}

/// The scales of all rows.
pub open spec fn scales_of<S: Real>(w: Value<S>) -> Seq<S> {
    Seq::new(
        w.shape[0] as nat,
        |i: int| row_scale(activations::row_at(w.data, w.shape[1] as int, i)),
    )
}

/// The bytes of all rows.
pub open spec fn bytes_of<S: Real>(w: Value<S>) -> Seq<i8> {
    let d = w.shape[1] as int;
    Seq::new(
        w.data.len(),
        |x: int| byte_of(w.data[x].spec_over(scales_of(w)[blas::row_of(x, d)])),
    )
}

/// The first partial sums of products of bytes.
pub open spec fn partial(a: spec_fn(int) -> int, b: spec_fn(int) -> int, n: int) -> int
    decreases n,
{
    if n <= 0 {
        0
    } else {
        partial(a, b, n - 1) + a(n - 1) * b(n - 1)
    }
}

/// All partial sums fit.
pub open spec fn sums_fit(a: spec_fn(int) -> int, b: spec_fn(int) -> int, n: int) -> bool {
    forall|p: int| 0 <= p <= n ==> i32::MIN <= #[trigger] partial(a, b, p) <= i32::MAX
}

/// Sums of few products of small numbers fit.
pub proof fn lemma_short_sums_fit(
    a: spec_fn(int) -> int,
    b: spec_fn(int) -> int,
    n: int,
    bound: int,
)
    requires
        0 <= n,
        0 <= bound,
        n * bound <= i32::MAX,
        forall|p: int| 0 <= p < n ==> -bound <= (#[trigger] a(p)) * b(p) <= bound,
    ensures
        sums_fit(a, b, n),
        -(n * bound) <= partial(a, b, n) <= n * bound,
    decreases n,
{
    if n > 0 {
        assert((n - 1) * bound + bound == n * bound) by (nonlinear_arith);
        lemma_short_sums_fit(a, b, n - 1, bound);
        assert(-bound <= a(n - 1) * b(n - 1) <= bound);
        assert forall|p: int| 0 <= p <= n implies i32::MIN <= #[trigger] partial(a, b, p)
            <= i32::MAX by {
            if p < n {
                assert(i32::MIN <= partial(a, b, p) <= i32::MAX);
            }
        }
    } else {
        assert(0 * bound == 0) by (nonlinear_arith);
    }
}

impl<S: Real> Int8Weights<S> {
    pub open spec fn wf(&self) -> bool {
        &&& self.shape@.len() == 2
        &&& self.scales@.len() == self.shape@[0]
        &&& self.data@.len() == self.shape@[0] * self.shape@[1]
    }

    /// The weights as bytes, each row with the scale of its greatest distance from zero.
    #[verifier::loop_isolation(false)]
    pub fn quantize(weight: &Tensor<S>) -> (r: Self)
        requires
            weight.wf(),
            weight@.shape.len() == 2,
        ensures
            r.wf(),
            r.shape@ == weight@.shape,
            r.scales@ == scales_of(weight@),
            r.data@ == bytes_of(weight@),
    {
        let out_f: usize = weight.shape[0];
        let in_f: usize = weight.shape[1];
        let ghost (oi, di) = (out_f as int, in_f as int);
        let ghost want = bytes_of(weight@);
        proof {
            assert(weight.shape@ =~= seq![out_f, in_f]);
            tensor::lemma_volume_two(out_f, in_f);
            assert(0 * di == 0) by (nonlinear_arith);
        }
        let len: usize = weight.data.len();
        let mut data: Vec<i8> = Vec::new();
        let mut scales: Vec<S> = Vec::new();
        for i in 0..out_f
            invariant
                data@.len() == i * di,
                scales@ =~= scales_of(weight@).take(i as int),
                forall|x: int| 0 <= x < i * di ==> #[trigger] data@[x] == want[x],
        {
            proof {
                nn::lemma_row_in(i as int, oi, di, oi * di);
            }
            let row = vstd::slice::slice_subrange(&weight.data, i * in_f, i * in_f + in_f);
            assert(row@ =~= activations::row_at(weight.data@, di, i as int));
            let scale = scale_of(row);
            scales.push(scale);
            for j in 0..in_f
                invariant
                    data@.len() == i * di + j,
                    forall|x: int| 0 <= x < i * di + j ==> #[trigger] data@[x] == want[x],
            {
                proof {
                    blas::lemma_cell(i as int, j as int, di);
                }
                data.push(to_byte(row[j].over(scale)));
            }
            assert(i * di + di == (i + 1) * di) by (nonlinear_arith);
        }
        assert(data@ =~= want);
        assert(scales@ =~= scales_of(weight@));
        Int8Weights { data, scales, shape: copy_slice(&weight.shape) }
    }

    /// The weights that the bytes stand for.
    pub open spec fn restored(&self) -> Value<S> {
        let d = self.shape@[1] as int;
        Value {
            data: Seq::new(
                self.data@.len(),
                |x: int|
                    int_value::<S>(self.data@[x] as int).spec_times(
                        self.scales@[blas::row_of(x, d)],
                    ),
            ),
            shape: self.shape@,
        }
    }

    /// The weights that the bytes stand for.
    #[verifier::loop_isolation(false)]
    pub fn dequantize(&self) -> (r: Tensor<S>)
        requires
            self.wf(),
        ensures
            r.wf(),
            r@ == self.restored(),
    {
        let out_f: usize = self.shape[0];
        let in_f: usize = self.shape[1];
        let ghost (oi, di) = (out_f as int, in_f as int);
        let ghost want = self.restored().data;
        let len: usize = self.data.len();
        proof {
            assert(self.shape@ =~= seq![out_f, in_f]);
            tensor::lemma_volume_two(out_f, in_f);
            assert(0 * di == 0) by (nonlinear_arith);
        }
        let mut data: Vec<S> = Vec::new();
        for i in 0..out_f
            invariant
                data@.len() == i * di,
                forall|x: int| 0 <= x < i * di ==> #[trigger] data@[x] == want[x],
        {
            proof {
                nn::lemma_row_in(i as int, oi, di, oi * di);
            }
            let scale = self.scales[i];
            for j in 0..in_f
                invariant
                    data@.len() == i * di + j,
                    forall|x: int| 0 <= x < i * di + j ==> #[trigger] data@[x] == want[x],
            {
                proof {
                    blas::lemma_cell(i as int, j as int, di);
                }
                data.push(from_int::<S>(self.data[i * in_f + j] as i32).times(scale));
            }
            assert(i * di + di == (i + 1) * di) by (nonlinear_arith);
        }
        assert(data@ =~= want);
        Tensor::from_vec(data, copy_slice(&self.shape))
    }

    /// The bytes of a row.
    pub open spec fn row_bytes(&self, o: int) -> spec_fn(int) -> int {
        |k: int| self.data@[o * self.shape@[1] + k] as int
    }

    /// The bytes of a row of activations at the scale of an output.
    pub open spec fn activation_bytes(&self, x: Seq<S>, row: int, o: int) -> spec_fn(int) -> int {
        |k: int|
            byte_of(
                x[row * self.shape@[1] + k].spec_times(
                    S::spec_one().spec_over(self.scales@[o]),
                ),
            ) as int
    }

    /// An entry of the product.
    pub open spec fn entry(&self, x: Seq<S>, row: int, o: int) -> S {
        int_value::<S>(
            partial(
                self.activation_bytes(x, row, o),
                self.row_bytes(o),
                self.shape@[1] as int,
            ),
        ).spec_times(self.scales@[o]).spec_times(self.scales@[o])
    }

    /// The product of activations, as bytes, with the transposed weights.
    #[verifier::loop_isolation(false)]
    pub fn matmul_f32(&self, activation: &[S], m: usize) -> (r: Vec<S>)
        requires
            self.wf(),
            activation@.len() == m * self.shape@[1],
            m * self.shape@[0] <= usize::MAX,
            forall|row: int, o: int|
                0 <= row < m && 0 <= o < self.shape@[0] ==> sums_fit(
                    #[trigger] self.activation_bytes(activation@, row, o),
                    self.row_bytes(o),
                    self.shape@[1] as int,
                ),
        ensures
            r@ == Seq::new(
                (m * self.shape@[0]) as nat,
                |x: int|
                    self.entry(
                        activation@,
                        blas::row_of(x, self.shape@[0] as int),
                        blas::col_of(x, self.shape@[0] as int),
                    ),
            ),
    {
        let out_f: usize = self.shape[0];
        let in_f: usize = self.shape[1];
        let ghost (mi, oi, di) = (m as int, out_f as int, in_f as int);
        let ghost want = Seq::new(
            (mi * oi) as nat,
            |x: int| self.entry(activation@, blas::row_of(x, oi), blas::col_of(x, oi)),
        );
        let alen: usize = activation.len();
        let dlen: usize = self.data.len();
        let mut result: Vec<S> = Vec::new();
        assert(0 * oi == 0) by (nonlinear_arith);
        for row in 0..m
            invariant
                result@.len() == row * oi,
                forall|x: int| 0 <= x < row * oi ==> #[trigger] result@[x] == want[x],
        {
            proof {
                nn::lemma_row_in(row as int, mi, di, mi * di);
                nn::lemma_row_in(row as int, mi, oi, mi * oi);
            }
            for o in 0..out_f
                invariant
                    result@.len() == row * oi + o,
                    forall|x: int| 0 <= x < row * oi + o ==> #[trigger] result@[x] == want[x],
            {
                proof {
                    nn::lemma_row_in(o as int, oi, di, oi * di);
                    blas::lemma_cell(row as int, o as int, oi);
                }
                let ghost fa = self.activation_bytes(activation@, row as int, o as int);
                let ghost fb = self.row_bytes(o as int);
                assert(sums_fit(fa, fb, di));
                let mut acc: i32 = 0;
                for k in 0..in_f
                    invariant
                        acc == partial(fa, fb, k as int),
                {
                    let a: i8 = to_byte(
                        activation[row * in_f + k].times(S::one().over(self.scales[o])),
                    );
                    let b: i8 = self.data[o * in_f + k];
                    proof {
                        assert(fa(k as int) == a && fb(k as int) == b);
                        lemma_byte_product(a, b);
                        assert(i32::MIN <= partial(fa, fb, k + 1) <= i32::MAX);
                    }
                    acc = acc + (a as i32) * (b as i32);
                }
                result.push(from_int::<S>(acc).times(self.scales[o]).times(self.scales[o]));
            }
            assert(row * oi + oi == (row + 1) * oi) by (nonlinear_arith);
        }
        assert(result@ =~= want);
        result
    }

    /// The bytes that the weights take.
    pub fn mem_bytes(&self) -> (r: usize)
        requires
            self.data@.len() + self.scales@.len() * 4 <= usize::MAX,
        ensures
            r == self.data@.len() + self.scales@.len() * 4,
    {
        self.data.len() + self.scales.len() * 4
    }

    /// How many times less that is than four bytes for each weight.
    pub fn compression_ratio(&self) -> (r: S)
        requires
            self.data@.len() + self.scales@.len() * 4 <= usize::MAX,
            self.data@.len() * 4 <= usize::MAX,
        ensures
            r == S::spec_count((self.data@.len() * 4) as usize).spec_over(
                S::spec_count((self.data@.len() + self.scales@.len() * 4) as usize),
            ),
    {
        S::count(self.data.len() * 4).over(S::count(self.mem_bytes()))
    }

    /// The mean distance of the weights from those that the bytes stand for.
    pub fn quantization_error(&self, original: &Tensor<S>) -> (r: S)
        requires
            self.wf(),
            original.wf(),
        ensures
            r == number::sum_n(
                |i: int| original@.data[i].spec_minus(self.restored().data[i]).spec_abs(),
                position::lesser(original@.data.len() as int, self.data@.len() as int),
            ).spec_over(S::spec_count(original@.data.len() as usize)),
    {
        let dequant = self.dequantize();
        let n: usize = if original.data.len() <= dequant.data.len() {
            original.data.len()
        } else {
            dequant.data.len()
        };
        let ghost f = |i: int| original@.data[i].spec_minus(self.restored().data[i]).spec_abs();
        let mut total = S::zero();
        for i in 0..n
            invariant
                n <= original.data@.len(),
                n <= dequant.data@.len(),
                dequant@ == self.restored(),
                f == (|i: int|
                    original@.data[i].spec_minus(self.restored().data[i]).spec_abs()),
                total == number::sum_n(f, i as int),
        {
            total = total.plus(original.data[i].minus(dequant.data[i]).abs());
        }
        total.over(S::count(original.data.len()))
    }
}

proof fn lemma_byte_product(a: i8, b: i8)
    ensures
        -16256 <= a * b <= 16384,
{
    assert(-16256 <= a * b <= 16384) by (nonlinear_arith)
        requires
            -128 <= a <= 127,
            -128 <= b <= 127,
    ;
}

/// A linear layer with weights as bytes.
#[derive(Debug)]
pub struct Int8Linear<S> {
    pub int8_weight: Int8Weights<S>,
    pub bias: Option<Vec<S>>,
}

impl<S: Real> Int8Linear<S> {
    pub open spec fn wf(&self) -> bool {
        &&& self.int8_weight.wf()
        &&& self.bias matches Some(b) ==> b@.len() == self.int8_weight.shape@[0]
    }

    /// A layer with its weights as bytes.
    pub fn from_linear(layer: &Linear<S>) -> (r: Self)
        requires
            layer.wf(),
        ensures
            r.wf(),
            r.int8_weight.shape@ == layer.weight@.shape,
            r.int8_weight.scales@ == scales_of(layer.weight@),
            r.int8_weight.data@ == bytes_of(layer.weight@),
            match (r.bias, layer.bias) {
                (Some(a), Some(b)) => a@ == b@.data,
                (None, None) => true,
                _ => false,
            },
    {
        let int8_weight = Int8Weights::quantize(&layer.weight);
        let bias = match &layer.bias {
            Some(b) => {
                proof {
                    tensor::lemma_volume_two(layer.weight@.shape[0], 1);
                }
                Some(copy_slice(&b.data))
            },
            None => None,
        };
        Int8Linear { int8_weight, bias }
    }

    /// The bytes of a row of the input at the scale of an output.
    pub open spec fn input_bytes(&self, x: Seq<S>, row: int, o: int) -> spec_fn(int) -> int {
        |k: int|
            byte_of(
                x[row * self.int8_weight.shape@[1] + k].spec_over(self.int8_weight.scales@[o]),
            ) as int
    }

    /// An output of a row.
    pub open spec fn entry(&self, x: Seq<S>, row: int, o: int) -> S {
        let s = self.int8_weight.scales@[o];
        let y = int_value::<S>(
            partial(
                self.input_bytes(x, row, o),
                self.int8_weight.row_bytes(o),
                self.int8_weight.shape@[1] as int,
            ),
        ).spec_times(s).spec_times(s);
        match self.bias {
            Some(b) => y.spec_plus(b@[o]),
            None => y,
        }
    }

    /// A tensor of one batch fits the layer.
    pub open spec fn accepts(&self, x: Value<S>) -> bool {
        let n = position::seq_of(x.shape);
        let out = self.int8_weight.shape@[0];
        &&& x.shape.len() > 0
        &&& x.shape.last() == self.int8_weight.shape@[1]
        &&& n * x.shape.last() <= x.data.len()
        &&& n * out <= usize::MAX
        &&& tensor::volume(nn::with_last(x.shape, out)) == n * out
        &&& tensor::countable(nn::with_last(x.shape, out))
        &&& forall|row: int, o: int|
            0 <= row < n && 0 <= o < out ==> sums_fit(
                #[trigger] self.input_bytes(x.data, row, o),
                self.int8_weight.row_bytes(o),
                x.shape.last() as int,
            )
    }

    /// The outputs of all rows.
    pub open spec fn output(&self, x: Value<S>) -> Value<S> {
        let out = self.int8_weight.shape@[0];
        Value {
            data: Seq::new(
                (position::seq_of(x.shape) * out) as nat,
                |k: int|
                    self.entry(x.data, blas::row_of(k, out as int), blas::col_of(k, out as int)),
            ),
            shape: nn::with_last(x.shape, out),
        }
    }

    /// The product of the input, as bytes, with the transposed weights, plus the bias.
    #[verifier::loop_isolation(false)]
    pub fn forward(&self, x: &Tensor<S>) -> (r: Tensor<S>)
        requires
            self.wf(),
            x.wf(),
            self.accepts(x@),
        ensures
            r.wf(),
            r@ == self.output(x@),
            !r.requires_grad,
    {
        let axes: usize = x.shape.len();
        let batch: usize = if axes >= 2 {
            x.shape[axes - 2]
        } else {
            1
        };
        let in_f: usize = x.shape[axes - 1];
        let out_f: usize = self.int8_weight.shape[0];
        let ghost (mi, oi, di) = (batch as int, out_f as int, in_f as int);
        let ghost want = self.output(x@).data;
        let xlen: usize = x.data.len();
        let dlen: usize = self.int8_weight.data.len();
        let mut result: Vec<S> = Vec::new();
        assert(0 * oi == 0) by (nonlinear_arith);
        for row in 0..batch
            invariant
                result@.len() == row * oi,
                forall|k: int| 0 <= k < row * oi ==> #[trigger] result@[k] == want[k],
        {
            proof {
                nn::lemma_row_in(row as int, mi, di, mi * di);
                nn::lemma_row_in(row as int, mi, oi, mi * oi);
            }
            for o in 0..out_f
                invariant
                    result@.len() == row * oi + o,
                    forall|k: int| 0 <= k < row * oi + o ==> #[trigger] result@[k] == want[k],
            {
                proof {
                    nn::lemma_row_in(o as int, oi, di, oi * di);
                    blas::lemma_cell(row as int, o as int, oi);
                }
                let ghost fa = self.input_bytes(x.data@, row as int, o as int);
                let ghost fb = self.int8_weight.row_bytes(o as int);
                assert(sums_fit(fa, fb, di));
                let scale = self.int8_weight.scales[o];
                let mut acc: i32 = 0;
                for k in 0..in_f
                    invariant
                        acc == partial(fa, fb, k as int),
                {
                    let a: i8 = to_byte(x.data[row * in_f + k].over(scale));
                    let b: i8 = self.int8_weight.data[o * in_f + k];
                    proof {
                        assert(fa(k as int) == a && fb(k as int) == b);
                        lemma_byte_product(a, b);
                        assert(i32::MIN <= partial(fa, fb, k + 1) <= i32::MAX);
                    }
                    acc = acc + (a as i32) * (b as i32);
                }
                let y = from_int::<S>(acc).times(scale).times(scale);
                let y = match &self.bias {
                    Some(b) => y.plus(b[o]),
                    None => y,
                };
                result.push(y);
            }
            assert(row * oi + oi == (row + 1) * oi) by (nonlinear_arith);
        }
        assert(result@ =~= want);
        let mut shape: Vec<usize> = copy_slice(&x.shape);
        shape.set(axes - 1, out_f);
        assert(shape@ =~= nn::with_last(x.shape@, out_f));
        Tensor::new(result, shape, false)
    }
}

/// Rows of up to 131071 bytes never exceed the range of a sum.
pub proof fn lemma_rows_fit(a: Seq<i8>, b: Seq<i8>, n: int)
    requires
        0 <= n <= 131071,
    ensures
        sums_fit(|k: int| a[k] as int, |k: int| b[k] as int, n),
{
    let fa = |k: int| a[k] as int;
    let fb = |k: int| b[k] as int;
    assert forall|p: int| 0 <= p < n implies -16384 <= (#[trigger] fa(p)) * fb(p) <= 16384 by {
        lemma_byte_product(a[p], b[p]);
    }
    lemma_short_sums_fit(fa, fb, n, 16384);
}

// ---- Products of bytes

/// A row of unsigned bytes.
pub open spec fn unsigned_row(a: Seq<u8>, k: int, i: int) -> spec_fn(int) -> int {
    |p: int| a[i * k + p] as int
}

/// A column of signed bytes.
pub open spec fn signed_column(b: Seq<i8>, n: int, j: int) -> spec_fn(int) -> int {
    |p: int| b[p * n + j] as int
}

/// The product of a matrix of unsigned bytes and one of signed bytes.
pub open spec fn byte_product(a: Seq<u8>, b: Seq<i8>, m: int, k: int, n: int) -> Seq<i32> {
    Seq::new(
        (m * n) as nat,
        |x: int|
            partial(
                unsigned_row(a, k, blas::row_of(x, n)),
                signed_column(b, n, blas::col_of(x, n)),
                k,
            ) as i32,
    )
}

/// All partial sums of the product fit.
pub open spec fn product_fits(a: Seq<u8>, b: Seq<i8>, m: int, k: int, n: int) -> bool {
    forall|i: int, j: int|
        #![trigger unsigned_row(a, k, i), signed_column(b, n, j)]
        0 <= i < m && 0 <= j < n ==> sums_fit(unsigned_row(a, k, i), signed_column(b, n, j), k)
}

proof fn lemma_mixed_product(a: u8, b: i8)
    ensures
        -32640 <= a * b <= 32385,
{
    assert(-32640 <= a * b <= 32385) by (nonlinear_arith)
        requires
            0 <= a <= 255,
            -128 <= b <= 127,
    ;
}

/// Products along up to 65792 bytes always fit.
pub proof fn lemma_short_products_fit(a: Seq<u8>, b: Seq<i8>, m: int, k: int, n: int)
    requires
        0 <= k <= 65792,
    ensures
        product_fits(a, b, m, k, n),
{
    assert forall|i: int, j: int|
        #![trigger unsigned_row(a, k, i), signed_column(b, n, j)]
        0 <= i < m && 0 <= j < n implies sums_fit(
        unsigned_row(a, k, i),
        signed_column(b, n, j),
        k,
    ) by {
        let fa = unsigned_row(a, k, i);
        let fb = signed_column(b, n, j);
        assert forall|p: int| 0 <= p < k implies -32640 <= (#[trigger] fa(p)) * fb(p) <= 32640 by {
            lemma_mixed_product(a[i * k + p], b[p * n + j]);
        }
        lemma_short_sums_fit(fa, fb, k, 32640);
    }
}

/// The product, entry by entry.
#[verifier::loop_isolation(false)]
pub fn igemm_scalar(a: &[u8], b: &[i8], m: usize, k: usize, n: usize) -> (r: Vec<i32>)
    requires
        m * k <= a@.len(),
        k * n <= b@.len(),
        m * n <= usize::MAX,
        product_fits(a@, b@, m as int, k as int, n as int),
    ensures
        r@ == byte_product(a@, b@, m as int, k as int, n as int),
{
    let ghost (mi, ki, ni) = (m as int, k as int, n as int);
    let ghost want = byte_product(a@, b@, mi, ki, ni);
    let alen: usize = a.len();
    let blen: usize = b.len();
    let mut c: Vec<i32> = Vec::new();
    assert(0 * ni == 0) by (nonlinear_arith);
    for i in 0..m
        invariant
            c@.len() == i * ni,
            forall|x: int| 0 <= x < i * ni ==> #[trigger] c@[x] == want[x],
    {
        proof {
            nn::lemma_row_in(i as int, mi, ki, mi * ki);
            nn::lemma_row_in(i as int, mi, ni, mi * ni);
        }
        for j in 0..n
            invariant
                c@.len() == i * ni + j,
                forall|x: int| 0 <= x < i * ni + j ==> #[trigger] c@[x] == want[x],
        {
            let ghost fa = unsigned_row(a@, ki, i as int);
            let ghost fb = signed_column(b@, ni, j as int);
            assert(sums_fit(fa, fb, ki));
            let mut s: i32 = 0;
            for p in 0..k
                invariant
                    s == partial(fa, fb, p as int),
            {
                proof {
                    nn::lemma_row_in(p as int, ki, ni, ki * ni);
                }
                let x: u8 = a[i * k + p];
                let y: i8 = b[p * n + j];
                proof {
                    assert(fa(p as int) == x && fb(p as int) == y);
                    lemma_mixed_product(x, y);
                    assert(i32::MIN <= partial(fa, fb, p + 1) <= i32::MAX);
                }
                s = s + (x as i32) * (y as i32);
            }
            proof {
                blas::lemma_cell(i as int, j as int, ni);
            }
            c.push(s);
        }
        assert(i * ni + ni == (i + 1) * ni) by (nonlinear_arith);
    }
    assert(c@ =~= want);
    c
}

/// The byte of a tile: tiles of four rows and sixteen columns, column by column.
pub open spec fn packed_at(b: Seq<i8>, k: int, n: int, blocks: int, x: int) -> u8 {
    let tile = x / 64;
    let row = (tile / blocks) * 4 + x % 4;
    let col = (tile % blocks) * 16 + (x % 64) / 4;
    if row < k && col < n {
        b[row * n + col] as u8
    } else {
        0
    }
}

/// A matrix in tiles.
pub open spec fn packed(b: Seq<i8>, k: int, n: int, kp: int, np: int) -> Seq<u8> {
    Seq::new(
        ((kp / 4) * (np / 16) * 64) as nat,
        |x: int| packed_at(b, k, n, np / 16, x),
    )
}

/// Packs a matrix into tiles of four rows and sixteen columns, padded with zeros.
pub fn pack_b_vnni(b: &[i8], k: usize, n: usize, kp: usize, np: usize) -> (r: Vec<u8>)
    requires
        k * n <= b@.len(),
        (kp / 4) * (np / 16) * 64 <= usize::MAX,
    ensures
        r@ == packed(b@, k as int, n as int, kp as int, np as int),
{
    let blocks: usize = np / 16;
    let ghost kb = (kp / 4) as int;
    proof {
        assert(0 <= kb * blocks) by (nonlinear_arith)
            requires
                0 <= kb,
        ;
    }
    let tiles: usize = (kp / 4) * blocks;
    let total: usize = tiles * 64;
    let blen: usize = b.len();
    let ghost want = packed(b@, k as int, n as int, kp as int, np as int);
    let mut out: Vec<u8> = Vec::new();
    for x in 0..total
        invariant
            blen == b@.len(),
            k * n <= blen,
            blocks == np / 16,
            total == tiles * 64,
            tiles == (kp / 4) * blocks,
            want == packed(b@, k as int, n as int, kp as int, np as int),
            out@ =~= want.take(x as int),
    {
        let tile: usize = x / 64;
        proof {
            if blocks == 0 {
                assert((kp / 4) * 0 == 0) by (nonlinear_arith);
            }
            let (t, bl, kq) = (tile as int, blocks as int, (kp / 4) as int);
            vstd::arithmetic::div_mod::lemma_fundamental_div_mod(t, bl);
            vstd::arithmetic::div_mod::lemma_mod_bound(t, bl);
            vstd::arithmetic::div_mod::lemma_div_pos_is_pos(t, bl);
            let q = t / bl;
            let rem = t % bl;
            assert(q < kq) by (nonlinear_arith)
                requires
                    t < kq * bl,
                    t == bl * q + rem,
                    0 <= rem,
                    0 < bl,
            ;
        }
        let row: usize = (tile / blocks) * 4 + x % 4;
        let col: usize = (tile % blocks) * 16 + (x % 64) / 4;
        let v: u8 = if row < k && col < n {
            proof {
                nn::lemma_row_in(row as int, k as int, n as int, k * n);
            }
            b[row * n + col] as u8
        } else {
            0
        };
        assert(v == packed_at(b@, k as int, n as int, blocks as int, x as int));
        out.push(v);
    }
    assert(out@ =~= want);
    out
}

/// The place of a byte in the tiles.
pub open spec fn tile_place(blocks: int, p: int, j: int) -> int {
    ((p / 4) * blocks + j / 16) * 64 + (j % 16) * 4 + p % 4
}

/// The bytes of a matrix stand in the tiles, and zeros around them.
pub proof fn lemma_packed(b: Seq<i8>, k: int, n: int, kp: int, np: int, p: int, j: int)
    requires
        0 <= k,
        0 <= n,
        kp % 4 == 0,
        np % 16 == 0,
        0 <= p < kp,
        0 <= j < np,
    ensures
        0 <= tile_place(np / 16, p, j) < (kp / 4) * (np / 16) * 64,
        packed(b, k, n, kp, np)[tile_place(np / 16, p, j)] == (if p < k && j < n {
            b[p * n + j] as u8
        } else {
            0
        }),
{
    let blocks = np / 16;
    let (kb, nb) = (p / 4, j / 16);
    let tile = kb * blocks + nb;
    let x = tile_place(blocks, p, j);
    let inside = (j % 16) * 4 + p % 4;
    assert(x == tile * 64 + inside);
    assert(0 <= inside < 64);
    nn::lemma_row_in(kb, kp / 4, blocks, (kp / 4) * blocks);
    assert(x / 64 == tile && x % 64 == inside && x % 4 == p % 4);
    blas::lemma_cell(kb, nb, blocks);
    assert(tile / blocks == kb && tile % blocks == nb);
    assert(inside / 4 == j % 16);
}

proof fn lemma_byte_back(v: i8)
    ensures
        (v as u8) as i8 == v,
        0u8 as i8 == 0i8,
{
    assert((v as u8) as i8 == v && 0u8 as i8 == 0i8) by (bit_vector);
}

/// The least multiple of a number that is not less.
pub open spec fn padded_to(n: int, to: int) -> int {
    ((n + to - 1) / to) * to
}

/// Rows of bytes, each padded with zeros.
pub open spec fn padded_rows(a: Seq<u8>, m: int, k: int, kp: int) -> Seq<u8> {
    Seq::new(
        (m * kp) as nat,
        |x: int|
            if blas::col_of(x, kp) < k {
                a[blas::row_of(x, kp) * k + blas::col_of(x, kp)]
            } else {
                0
            },
    )
}

#[verifier::loop_isolation(false)]
fn pad_rows(a: &[u8], m: usize, k: usize, kp: usize) -> (r: Vec<u8>)
    requires
        m * k <= a@.len(),
        k <= kp,
        m * kp <= usize::MAX,
    ensures
        r@ == padded_rows(a@, m as int, k as int, kp as int),
{
    let ghost (mi, ki, pi) = (m as int, k as int, kp as int);
    let ghost want = padded_rows(a@, mi, ki, pi);
    let alen: usize = a.len();
    let mut out: Vec<u8> = Vec::new();
    assert(0 * pi == 0) by (nonlinear_arith);
    for i in 0..m
        invariant
            out@.len() == i * pi,
            forall|x: int| 0 <= x < i * pi ==> #[trigger] out@[x] == want[x],
    {
        proof {
            nn::lemma_row_in(i as int, mi, ki, mi * ki);
            nn::lemma_row_in(i as int, mi, pi, mi * pi);
        }
        for p in 0..kp
            invariant
                out@.len() == i * pi + p,
                forall|x: int| 0 <= x < i * pi + p ==> #[trigger] out@[x] == want[x],
        {
            proof {
                blas::lemma_cell(i as int, p as int, pi);
            }
            if p < k {
                out.push(a[i * k + p]);
            } else {
                out.push(0);
            }
        }
        assert(i * pi + pi == (i + 1) * pi) by (nonlinear_arith);
    }
    assert(out@ =~= want);
    out
}

/// An entry of the product, four bytes of a tile at a time.
fn tile_dot(
    a: &[u8],
    tiles: &[u8],
    i: usize,
    j: usize,
    kp: usize,
    np: usize,
    Ghost(a0): Ghost<Seq<u8>>,
    Ghost(b0): Ghost<Seq<i8>>,
    Ghost(m): Ghost<int>,
    Ghost(k): Ghost<int>,
    Ghost(n): Ghost<int>,
) -> (r: i32)
    requires
        0 <= k <= kp,
        0 <= n <= np,
        kp % 4 == 0,
        np % 16 == 0,
        0 <= i < m,
        j < n,
        a@ == padded_rows(a0, m, k, kp as int),
        tiles@ == packed(b0, k, n, kp as int, np as int),
        m * kp <= usize::MAX,
        (kp / 4) * (np / 16) * 64 <= usize::MAX,
        sums_fit(unsigned_row(a0, k, i as int), signed_column(b0, n, j as int), k),
    ensures
        r == partial(unsigned_row(a0, k, i as int), signed_column(b0, n, j as int), k),
{
    let ghost fa = unsigned_row(a0, k, i as int);
    let ghost fb = signed_column(b0, n, j as int);
    let blocks: usize = np / 16;
    let alen: usize = a.len();
    let tlen: usize = tiles.len();
    let mut acc: i32 = 0;
    for p in 0..kp
        invariant
            0 <= k <= kp,
            0 <= n <= np,
            kp % 4 == 0,
            np % 16 == 0,
            0 <= i < m,
            j < n,
            blocks == np / 16,
            alen == a@.len(),
            tlen == tiles@.len(),
            a@ == padded_rows(a0, m, k, kp as int),
            tiles@ == packed(b0, k, n, kp as int, np as int),
            m * kp <= usize::MAX,
            (kp / 4) * (np / 16) * 64 <= usize::MAX,
            fa == unsigned_row(a0, k, i as int),
            fb == signed_column(b0, n, j as int),
            sums_fit(fa, fb, k),
            acc == partial(
                fa,
                fb,
                if p < k {
                    p as int
                } else {
                    k
                },
            ),
    {
        proof {
            nn::lemma_row_in(i as int, m, kp as int, m * kp);
            blas::lemma_cell(i as int, p as int, kp as int);
            lemma_packed(b0, k, n, kp as int, np as int, p as int, j as int);
            nn::lemma_row_in(
                (p / 4) as int,
                (kp / 4) as int,
                blocks as int,
                (kp / 4) * blocks,
            );
        }
        let x: u8 = a[i * kp + p];
        let t: u8 = tiles[((p / 4) * blocks + j / 16) * 64 + (j % 16) * 4 + p % 4];
        let y: i8 = t as i8;
        proof {
            if p < k {
                lemma_byte_back(b0[p * n + j]);
                assert(fa(p as int) == x && fb(p as int) == y);
                assert(i32::MIN <= partial(fa, fb, p + 1) <= i32::MAX);
            } else {
                lemma_byte_back(0);
                assert(x * y == 0) by (nonlinear_arith)
                    requires
                        x == 0,
                ;
                assert(i32::MIN <= partial(fa, fb, k) <= i32::MAX);
            }
            lemma_mixed_product(x, y);
        }
        acc = acc + (x as i32) * (y as i32);
    }
    acc
}

proof fn lemma_padded(n: int, to: int)
    requires
        0 <= n,
        0 < to,
    ensures
        n <= padded_to(n, to) < n + to,
        padded_to(n, to) % to == 0,
        0 <= padded_to(n, to),
{
    let q = (n + to - 1) / to;
    vstd::arithmetic::div_mod::lemma_fundamental_div_mod(n + to - 1, to);
    vstd::arithmetic::div_mod::lemma_mod_bound(n + to - 1, to);
    vstd::arithmetic::div_mod::lemma_div_pos_is_pos(n + to - 1, to);
    assert(to * q == q * to) by (nonlinear_arith);
    assert(0 <= q * to) by (nonlinear_arith)
        requires
            0 <= q,
            0 < to,
    ;
    vstd::arithmetic::div_mod::lemma_mod_multiples_basic(q, to);
}

/// The product by way of tiles. It is the same as that of [`igemm_scalar`].
#[verifier::loop_isolation(false)]
pub fn igemm(a: &[u8], b: &[i8], m: usize, k: usize, n: usize) -> (r: Vec<i32>)
    requires
        m * k <= a@.len(),
        k * n <= b@.len(),
        m * n <= usize::MAX,
        k + 3 <= usize::MAX,
        n + 15 <= usize::MAX,
        m * padded_to(k as int, 4) <= usize::MAX,
        padded_to(k as int, 4) * padded_to(n as int, 16) <= usize::MAX,
        product_fits(a@, b@, m as int, k as int, n as int),
    ensures
        r@ == byte_product(a@, b@, m as int, k as int, n as int),
{
    let ghost (mi, ki, ni) = (m as int, k as int, n as int);
    proof {
        lemma_padded(ki, 4);
        lemma_padded(ni, 16);
    }
    let kp: usize = ((k + 3) / 4) * 4;
    let np: usize = ((n + 15) / 16) * 16;
    proof {
        let (x, y) = ((kp / 4) as int, (np / 16) as int);
        assert(x * y * 64 == (x * 4) * (y * 16)) by (nonlinear_arith);
        assert(x * 4 == kp && y * 16 == np);
    }
    let a_pad = pad_rows(a, m, k, kp);
    let tiles = pack_b_vnni(b, k, n, kp, np);
    let ghost want = byte_product(a@, b@, mi, ki, ni);
    let mut c: Vec<i32> = Vec::new();
    assert(0 * ni == 0) by (nonlinear_arith);
    for i in 0..m
        invariant
            c@.len() == i * ni,
            forall|x: int| 0 <= x < i * ni ==> #[trigger] c@[x] == want[x],
    {
        proof {
            nn::lemma_row_in(i as int, mi, ni, mi * ni);
        }
        for j in 0..n
            invariant
                c@.len() == i * ni + j,
                forall|x: int| 0 <= x < i * ni + j ==> #[trigger] c@[x] == want[x],
        {
            proof {
                blas::lemma_cell(i as int, j as int, ni);
                let fa = unsigned_row(a@, ki, i as int);
                let fb = signed_column(b@, ni, j as int);
                assert(sums_fit(fa, fb, ki));
            }
            let v: i32 = tile_dot(
                &a_pad,
                &tiles,
                i,
                j,
                kp,
                np,
                Ghost(a@),
                Ghost(b@),
                Ghost(mi),
                Ghost(ki),
                Ghost(ni),
            );
            c.push(v);
        }
        assert(i * ni + ni == (i + 1) * ni) by (nonlinear_arith);
    }
    assert(c@ =~= want);
    c
}

} // verus!
