//! Work for a graphics processor: the shaders, what is bound to each of them and how many groups
//! are started, and what is made of the bytes that come back. Where there is no such processor,
//! the same is computed here.
use vstd::prelude::*;
use crate::activations;
use crate::activations::{apply, Pointwise};
use crate::bytes;
use crate::bytes::{push_le, push_words, read_words, Word};
use crate::fused;
use crate::fused::FusedActivation;
use crate::nn;
use crate::nn::scaled_attention;
use crate::number::Real;
use crate::tensor;
use crate::tensor::{Op, Tensor, Value};

verus! {

/// `alpha * A * B + beta * C` in tiles of 32 by 32.
pub const GEMM_SHADER: &'static str = r#"
const TILE: u32 = 32u;
@group(0) @binding(0) var<storage, read> a_data: array<f32>;
@group(0) @binding(1) var<storage, read> b_data: array<f32>;
@group(0) @binding(2) var<storage, read_write> c_data: array<f32>;
@group(0) @binding(3) var<uniform> dims: vec4<u32>;     // m, n, k, _pad
@group(0) @binding(4) var<uniform> scalars: vec4<f32>;  // alpha, beta, _, _

var<workgroup> tile_a: array<f32, 1024>;  // TILE * TILE
var<workgroup> tile_b: array<f32, 1024>;

@compute @workgroup_size(32, 8)
fn main(
    @builtin(global_invocation_id) gid: vec3<u32>,
    @builtin(local_invocation_id) lid: vec3<u32>,
) {
    let m = dims.x; let nn = dims.y; let k = dims.z;
    let alpha = scalars.x; let beta = scalars.y;
    let row = gid.x; let col = gid.y;
    let lr = lid.x; let lc = lid.y;
    if (row >= m || col >= nn) { return; }
    var acc: f32 = 0.0;
    let num_tiles = (k + TILE - 1u) / TILE;
    for (var t: u32 = 0u; t < num_tiles; t = t + 1u) {
        // Cooperative load (each of 32×8=256 threads loads 4 elements of A and 4 of B).
        for (var ii: u32 = 0u; ii < 4u; ii = ii + 1u) {
            let ar = lr; let ac = lc * 4u + ii;
            let ak = t * TILE + ac;
            tile_a[ar * TILE + ac] = select(0.0, a_data[row * k + ak], ak < k);
            let br = lc * 4u + ii; let bc = lr;
            let bk = t * TILE + br;
            tile_b[br * TILE + bc] = select(0.0, b_data[bk * nn + col], bk < k);
        }
        workgroupBarrier();
        for (var i: u32 = 0u; i < TILE; i = i + 1u) {
            acc = acc + tile_a[lr * TILE + i] * tile_b[i * TILE + lc];
        }
        workgroupBarrier();
    }
    c_data[row * nn + col] = alpha * acc + beta * c_data[row * nn + col];
}
"#;

/// A linear layer with what is added, and with negative outputs cut off where that is wanted.
pub const FUSED_LINEAR_SHADER: &'static str = r#"
@group(0) @binding(0) var<storage, read> x_data: array<f32>;   // [batch, in]
@group(0) @binding(1) var<storage, read> w_data: array<f32>;   // [out, in]
@group(0) @binding(2) var<storage, read> b_data: array<f32>;   // [out]
@group(0) @binding(3) var<storage, read_write> y_data: array<f32>; // [batch, out]
@group(0) @binding(4) var<uniform> dims: vec4<u32>;  // batch, out, in, relu(0=no,1=yes)

@compute @workgroup_size(64)
fn main(@builtin(global_invocation_id) gid: vec3<u32>) {
    let batch = dims.x; let out_f = dims.y; let in_f = dims.z; let relu = dims.w;
    let idx = gid.x;
    if (idx >= batch * out_f) { return; }
    let b_idx = idx / out_f;
    let o_idx = idx % out_f;
    var acc: f32 = 0.0;
    for (var k: u32 = 0u; k < in_f; k = k + 1u) {
        acc = acc + x_data[b_idx * in_f + k] * w_data[o_idx * in_f + k];
    }
    acc = acc + b_data[o_idx];
    if (relu == 1u && acc < 0.0) { acc = 0.0; }
    y_data[idx] = acc;
}
"#;

/// Attention, one query at a time, without holding all scores.
pub const FLASH_ATTENTION_SHADER: &'static str = r#"
@group(0) @binding(0) var<storage, read> q_data: array<f32>;   // [seq, d]
@group(0) @binding(1) var<storage, read> k_data: array<f32>;
@group(0) @binding(2) var<storage, read> v_data: array<f32>;
@group(0) @binding(3) var<storage, read_write> o_data: array<f32>;
@group(0) @binding(4) var<uniform> dims: vec4<u32>;  // seq, d, _, scale_u32_bits

@compute @workgroup_size(64)
fn main(@builtin(global_invocation_id) gid: vec3<u32>) {
    let seq = dims.x; let d = dims.y;
    let scale = dims.z;  // reinterpret as f32 bits
    let i = gid.x;
    if (i >= seq) { return; }
    let sf = bitcast<f32>(scale);
    var row_max: f32 = -3.402823e+38;  // -inf
    var row_sum: f32 = 0.0;
    var acc: array<f32, 256>;  // max d supported = 256
    for (var j: u32 = 0u; j < d; j = j + 1u) { acc[j] = 0.0; }
    for (var j: u32 = 0u; j < seq; j = j + 1u) {
        var s: f32 = 0.0;
        for (var t: u32 = 0u; t < d; t = t + 1u) {
            s = s + q_data[i * d + t] * k_data[j * d + t];
        }
        s = s * sf;
        let m_new = max(row_max, s);
        let exp_old = exp(row_max - m_new);
        let p = exp(s - m_new);
        row_sum = exp_old * row_sum + p;
        for (var t: u32 = 0u; t < d; t = t + 1u) {
            acc[t] = exp_old * acc[t] + p * v_data[j * d + t];
        }
        row_max = m_new;
    }
    let inv = 1.0 / row_sum;
    for (var t: u32 = 0u; t < d; t = t + 1u) {
        o_data[i * d + t] = acc[t] * inv;
    }
}
"#;

/// A function of each number.
pub const ACTIVATION_SHADER: &'static str = r#"
@group(0) @binding(0) var<storage, read_write> data: array<f32>;
@group(0) @binding(1) var<uniform> params: vec2<u32>;  // n, mode

@compute @workgroup_size(64)
fn main(@builtin(global_invocation_id) gid: vec3<u32>) {
    let idx = gid.x;
    let n = params.x; let mode = params.y;
    if (idx >= n) { return; }
    if (mode == 0u) {
        data[idx] = max(0.0, data[idx]);
    } else if (mode == 1u) {
        let x = data[idx];
        data[idx] = select(exp(x) / (1.0 + exp(x)), 1.0 / (1.0 + exp(-x)), x >= 0.0);
        // Note: the branch above is a numerically-stable sigmoid.
    }
}
"#;

// ---- Launches

/// What a graphics processor is given to do, and what is made of its answer.
#[derive(Debug, Clone, Copy)]
pub struct GpuBackend;

/// What is bound to a shader.
pub enum Binding {
    /// Bytes that are read.
    Input(Vec<u8>),
    /// Room for bytes that are written and then read back.
    Output(usize),
    /// Bytes that are read, written and then read back.
    InOut(Vec<u8>),
    /// Bytes that are the same for all threads.
    Uniform(Vec<u8>),
}

/// What is bound, as sequences of bytes.
pub enum Bound {
    Input(Seq<u8>),
    Output(int),
    InOut(Seq<u8>),
    Uniform(Seq<u8>),
}

impl View for Binding {
    type V = Bound;

    open spec fn view(&self) -> Bound {
        match self {
            Binding::Input(b) => Bound::Input(b@),
            Binding::Output(n) => Bound::Output(*n as int),
            Binding::InOut(b) => Bound::InOut(b@),
            Binding::Uniform(b) => Bound::Uniform(b@),
        }
    }
}

/// A run of a shader: what is bound to its places, in their order, and how many groups start.
pub struct Launch {
    pub bindings: Vec<Binding>,
    pub groups: (u32, u32, u32),
    /// How many numbers come back.
    pub count: usize,
}

pub open spec fn bounds(v: Seq<Binding>) -> Seq<Bound> {
    Seq::new(v.len(), |i: int| v[i]@)
}

/// The bytes of four whole numbers.
pub open spec fn four(a: u32, b: u32, c: u32, d: u32) -> Seq<u8> {
    bytes::le_bytes(a as nat, 4) + bytes::le_bytes(b as nat, 4) + bytes::le_bytes(c as nat, 4)
        + bytes::le_bytes(d as nat, 4)
}

fn four_bytes(a: u32, b: u32, c: u32, d: u32) -> (r: Vec<u8>)
    ensures
        r@ == four(a, b, c, d),
{
    let mut v: Vec<u8> = Vec::new();
    push_le(&mut v, a as u64, 4);
    push_le(&mut v, b as u64, 4);
    push_le(&mut v, c as u64, 4);
    push_le(&mut v, d as u64, 4);
    assert(v@ =~= four(a, b, c, d));
    v
}

fn number_bytes<W: Word>(data: &[W]) -> (r: Vec<u8>)
    ensures
        r@ == bytes::word_bytes(data@),
{
    let mut v: Vec<u8> = Vec::new();
    push_words(&mut v, data);
    assert(v@ =~= bytes::word_bytes(data@));
    v
}

/// How many groups of a size hold `n` threads.
pub open spec fn groups_of(n: int, size: int) -> int {
    if n % size > 0 {
        n / size + 1
    } else {
        n / size
    }
}

fn group_count(n: usize, size: usize) -> (r: usize)
    requires
        size > 1,
    ensures
        r == groups_of(n as int, size as int),
{
    proof {
        let (a, b) = (n as int, size as int);
        assert(a / b <= a) by (nonlinear_arith)
            requires
                0 <= a,
                1 < b,
        ;
        assert(a % b > 0 ==> a / b < a) by (nonlinear_arith)
            requires
                0 <= a,
                1 < b,
        ;
    }
    if n % size > 0 {
        n / size + 1
    } else {
        n / size
    }
}

/// The groups hold all threads, and one group fewer would not.
pub proof fn lemma_groups_cover(n: int, size: int)
    requires
        0 <= n,
        0 < size,
    ensures
        n <= groups_of(n, size) * size,
        n > 0 ==> (groups_of(n, size) - 1) * size < n,
{
    vstd::arithmetic::div_mod::lemma_fundamental_div_mod(n, size);
    let (q, r) = (n / size, n % size);
    assert(size * q == q * size) by (nonlinear_arith);
    assert((q + 1) * size == q * size + size) by (nonlinear_arith);
    assert((q - 1) * size == q * size - size) by (nonlinear_arith);
    assert((q + 1 - 1) * size == q * size);
}

/// The run for `alpha * A * B + beta * C`, with nothing in `C` before.
pub open spec fn is_gemm<W: Word + Real>(
    l: Launch,
    a: Value<W>,
    b: Value<W>,
    alpha: W,
    beta: W,
) -> bool {
    let (m, k, n) = (a.shape[0], a.shape[1], b.shape[1]);
    &&& bounds(l.bindings@) == seq![
        Bound::Input(bytes::word_bytes(a.data)),
        Bound::Input(bytes::word_bytes(b.data)),
        Bound::Output(m * n * 4),
        Bound::Uniform(four(m as u32, n as u32, k as u32, 0)),
        Bound::Uniform(
            bytes::word_bytes(seq![alpha, beta, W::spec_zero(), W::spec_zero()]),
        ),
    ]
    &&& l.groups == (groups_of(m as int, 32) as u32, groups_of(n as int, 8) as u32, 1u32)
    &&& l.count == m * n
}

impl GpuBackend {
    /// The run of the shader for products.
    pub fn matmul_ab<W: Word + Real>(a: &Tensor<W>, b: &Tensor<W>, alpha: W, beta: W) -> (r: Launch)
        requires
            a@.shape.len() >= 2,
            b@.shape.len() >= 2,
            a@.shape[0] * b@.shape[1] * 4 <= usize::MAX,
        ensures
            is_gemm(r, a@, b@, alpha, beta),
    {
        let m: usize = a.shape[0];
        let k: usize = a.shape[1];
        let n: usize = b.shape[1];
        let scalars: Vec<W> = vec![alpha, beta, W::zero(), W::zero()];
        proof {
            assert(0 <= m * n) by (nonlinear_arith);
            assert(scalars@ =~= seq![alpha, beta, W::spec_zero(), W::spec_zero()]);
        }
        let count: usize = m * n;
        let bindings: Vec<Binding> = vec![
            Binding::Input(number_bytes(&a.data)),
            Binding::Input(number_bytes(&b.data)),
            Binding::Output(count * 4),
            Binding::Uniform(four_bytes(m as u32, n as u32, k as u32, 0)),
            Binding::Uniform(number_bytes(&scalars)),
        ];
        let r = Launch {
            bindings,
            groups: (group_count(m, 32) as u32, group_count(n, 8) as u32, 1),
            count,
        };
        assert(bounds(r.bindings@) =~= seq![
            Bound::Input(bytes::word_bytes(a.data@)),
            Bound::Input(bytes::word_bytes(b.data@)),
            Bound::Output(m * n * 4),
            Bound::Uniform(four(m as u32, n as u32, k as u32, 0)),
            Bound::Uniform(bytes::word_bytes(scalars@)),
        ]);
        r
    }

    /// The run of the shader for the product of two matrices.
    pub fn matmul<W: Word + Real>(a: &Tensor<W>, b: &Tensor<W>) -> (r: Launch)
        requires
            a@.shape.len() >= 2,
            b@.shape.len() >= 2,
            a@.shape[0] * b@.shape[1] * 4 <= usize::MAX,
        ensures
            is_gemm(r, a@, b@, W::spec_one(), W::spec_zero()),
    {
        Self::matmul_ab(a, b, W::one(), W::zero())
    }
}

/// The run for a linear layer.
pub open spec fn is_linear<W: Word + Real>(
    l: Launch,
    x: Value<W>,
    w: Value<W>,
    b: Value<W>,
    relu: bool,
) -> bool {
    let (batch, in_f, out_f) = (x.shape[0], x.shape[1], w.shape[0]);
    &&& bounds(l.bindings@) == seq![
        Bound::Input(bytes::word_bytes(x.data)),
        Bound::Input(bytes::word_bytes(w.data)),
        Bound::Input(bytes::word_bytes(b.data)),
        Bound::Output(batch * out_f * 4),
        Bound::Uniform(
            four(
                batch as u32,
                out_f as u32,
                in_f as u32,
                if relu {
                    1
                } else {
                    0
                },
            ),
        ),
    ]
    &&& l.groups == (groups_of(batch * out_f, 64) as u32, 1u32, 1u32)
    &&& l.count == batch * out_f
}

impl GpuBackend {
    /// The run of the shader for linear layers.
    pub fn fused_linear<W: Word + Real>(
        x: &Tensor<W>,
        w: &Tensor<W>,
        b: &Tensor<W>,
        relu: bool,
    ) -> (r: Launch)
        requires
            x@.shape.len() >= 2,
            w@.shape.len() >= 1,
            x@.shape[0] * w@.shape[0] * 4 <= usize::MAX,
        ensures
            is_linear(r, x@, w@, b@, relu),
    {
        let batch: usize = x.shape[0];
        let in_f: usize = x.shape[1];
        let out_f: usize = w.shape[0];
        proof {
            assert(0 <= batch * out_f) by (nonlinear_arith);
        }
        let count: usize = batch * out_f;
        let flag: u32 = if relu {
            1
        } else {
            0
        };
        let bindings: Vec<Binding> = vec![
            Binding::Input(number_bytes(&x.data)),
            Binding::Input(number_bytes(&w.data)),
            Binding::Input(number_bytes(&b.data)),
            Binding::Output(count * 4),
            Binding::Uniform(four_bytes(batch as u32, out_f as u32, in_f as u32, flag)),
        ];
        let r = Launch { bindings, groups: (group_count(count, 64) as u32, 1, 1), count };
        assert(bounds(r.bindings@) =~= seq![
            Bound::Input(bytes::word_bytes(x.data@)),
            Bound::Input(bytes::word_bytes(w.data@)),
            Bound::Input(bytes::word_bytes(b.data@)),
            Bound::Output(batch * out_f * 4),
            Bound::Uniform(four(batch as u32, out_f as u32, in_f as u32, flag)),
        ]);
        r
    }
}

/// The run for attention.
pub open spec fn is_attention<W: Word + Real>(
    l: Launch,
    q: Value<W>,
    k: Value<W>,
    v: Value<W>,
    scale: W,
) -> bool {
    let (n, d) = (q.shape[0], q.shape[1]);
    &&& bounds(l.bindings@) == seq![
        Bound::Input(bytes::word_bytes(q.data)),
        Bound::Input(bytes::word_bytes(k.data)),
        Bound::Input(bytes::word_bytes(v.data)),
        Bound::Output(n * d * 4),
        Bound::Uniform(four(n as u32, d as u32, scale.spec_bits(), 0)),
    ]
    &&& l.groups == (groups_of(n as int, 64) as u32, 1u32, 1u32)
    &&& l.count == n * d
}

impl GpuBackend {
    /// The run of the shader for attention.
    pub fn flash_attention<W: Word + Real>(
        q: &Tensor<W>,
        k: &Tensor<W>,
        v: &Tensor<W>,
        scale: W,
    ) -> (r: Launch)
        requires
            q@.shape.len() >= 2,
            q@.shape[0] * q@.shape[1] * 4 <= usize::MAX,
        ensures
            is_attention(r, q@, k@, v@, scale),
    {
        let n: usize = q.shape[0];
        let d: usize = q.shape[1];
        proof {
            assert(0 <= n * d) by (nonlinear_arith);
        }
        let count: usize = n * d;
        let bindings: Vec<Binding> = vec![
            Binding::Input(number_bytes(&q.data)),
            Binding::Input(number_bytes(&k.data)),
            Binding::Input(number_bytes(&v.data)),
            Binding::Output(count * 4),
            Binding::Uniform(four_bytes(n as u32, d as u32, scale.bits(), 0)),
        ];
        let r = Launch { bindings, groups: (group_count(n, 64) as u32, 1, 1), count };
        assert(bounds(r.bindings@) =~= seq![
            Bound::Input(bytes::word_bytes(q.data@)),
            Bound::Input(bytes::word_bytes(k.data@)),
            Bound::Input(bytes::word_bytes(v.data@)),
            Bound::Output(n * d * 4),
            Bound::Uniform(four(n as u32, d as u32, scale.spec_bits(), 0)),
        ]);
        r
    }
}

/// The run for a function of each number: zero for the cut at zero, one for the sigmoid.
pub open spec fn is_activation<W: Word + Real>(l: Launch, t: Value<W>, mode: u32) -> bool {
    let n = t.data.len() as int;
    &&& bounds(l.bindings@) == seq![
        Bound::InOut(bytes::word_bytes(t.data)),
        Bound::Uniform(four(n as u32, mode, 0, 0)),
    ]
    &&& l.groups == (groups_of(n, 64) as u32, 1u32, 1u32)
    &&& l.count == n
}

impl GpuBackend {
    /// The run of the shader for functions of each number.
    pub fn activation<W: Word + Real>(t: &Tensor<W>, mode: u32) -> (r: Launch)
        ensures
            is_activation(r, t@, mode),
    {
        let n: usize = t.data.len();
        let bindings: Vec<Binding> = vec![
            Binding::InOut(number_bytes(&t.data)),
            Binding::Uniform(four_bytes(n as u32, mode, 0, 0)),
        ];
        let r = Launch { bindings, groups: (group_count(n, 64) as u32, 1, 1), count: n };
        assert(bounds(r.bindings@) =~= seq![
            Bound::InOut(bytes::word_bytes(t.data@)),
            Bound::Uniform(four(n as u32, mode, 0, 0)),
        ]);
        r
    }
}

// ---- What comes back

/// The numbers that the bytes hold, in a shape.
pub open spec fn read_value<W: Word>(raw: Seq<u8>, shape: Seq<usize>) -> Value<W> {
    Value { data: bytes::words_in::<W>(raw), shape }
}

/// The bytes are those of as many numbers as a shape has places.
pub open spec fn fills(raw: Seq<u8>, shape: Seq<usize>) -> bool {
    tensor::countable(shape) && raw.len() / 4 == tensor::volume(shape)
}

/// What came back, if anything did, fills a shape.
pub open spec fn back_fills(back: Option<&[u8]>, shape: Seq<usize>) -> bool {
    back matches Some(raw) ==> fills(raw@, shape)
}

impl GpuBackend {
    /// The tensor of a shape that the bytes hold.
    pub fn read_back<W: Word + Real>(raw: &[u8], shape: &[usize]) -> (r: Tensor<W>)
        requires
            fills(raw@, shape@),
        ensures
            r.wf(),
            r@ == read_value::<W>(raw@, shape@),
            !r.requires_grad,
    {
        let data: Vec<W> = read_words(raw);
        Tensor::new(data, tensor::copy_slice(shape), false)
    }
}

// ---- With a processor or without

/// Whether there is a processor: what was found when it was first looked for.
pub fn has_gpu(looked: &mut Option<bool>, found: bool) -> (r: bool)
    ensures
        r == (match *old(looked) {
            Some(b) => b,
            None => found,
        }),
        *final(looked) == Some(r),
{
    match *looked {
        Some(b) => b,
        None => {
            *looked = Some(found);
            found
        },
    }
}

/// The product of two matrices: what came back, or what is computed here.
pub fn gpu_matmul<W: Word + Real>(a: &Tensor<W>, b: &Tensor<W>, back: Option<&[u8]>) -> (r: Tensor<
    W,
>)
    requires
        a.wf(),
        b.wf(),
        tensor::matmul_fits(a@, b@),
        back_fills(back, seq![a@.shape[0], b@.shape[1]]),
    ensures
        r.wf(),
        match back {
            Some(raw) => r@ == read_value::<W>(raw@, seq![a@.shape[0], b@.shape[1]]),
            None => r@ == tensor::matmul_value(a@, b@),
        },
{
    match back {
        Some(raw) => {
            let shape: Vec<usize> = vec![a.shape[0], b.shape[1]];
            assert(shape@ =~= seq![a@.shape[0], b@.shape[1]]);
            GpuBackend::read_back(raw, &shape)
        },
        None => a.matmul(b),
    }
}

/// A linear layer: what came back, or what is computed here.
pub fn gpu_linear<W: Word + Real>(
    x: &Tensor<W>,
    w: &Tensor<W>,
    b: &Tensor<W>,
    relu: bool,
    back: Option<&[u8]>,
) -> (r: Tensor<W>)
    requires
        x.wf(),
        w.wf(),
        x@.is_matrix(),
        w@.is_matrix(),
        x@.shape[1] == w@.shape[1],
        x@.shape[0] * w@.shape[0] <= usize::MAX,
        b@.data.len() >= w@.shape[0],
        back_fills(back, seq![x@.shape[0], w@.shape[0]]),
    ensures
        r.wf(),
        match back {
            Some(raw) => r@ == read_value::<W>(raw@, seq![x@.shape[0], w@.shape[0]]),
            None => r@ == fused::fused_value(
                x@,
                w@,
                Some(b@.data),
                if relu {
                    FusedActivation::ReLU
                } else {
                    FusedActivation::Identity
                },
            ),
        },
{
    match back {
        Some(raw) => {
            let shape: Vec<usize> = vec![x.shape[0], w.shape[0]];
            assert(shape@ =~= seq![x@.shape[0], w@.shape[0]]);
            GpuBackend::read_back(raw, &shape)
        },
        None => fused::fused_linear(
            x,
            w,
            Some(b),
            if relu {
                FusedActivation::ReLU
            } else {
                FusedActivation::Identity
            },
        ),
    }
}

/// A matrix as a batch of one.
pub open spec fn batch_of_one<S>(v: Value<S>) -> Value<S> {
    Value { data: v.data, shape: seq![1usize, v.shape[0], v.shape[1]] }
}

fn as_batch<W: Word + Real>(t: &Tensor<W>) -> (r: Tensor<W>)
    requires
        t.wf(),
        t@.is_matrix(),
    ensures
        r.wf(),
        r@ == batch_of_one(t@),
{
    let shape: Vec<usize> = vec![1, t.shape[0], t.shape[1]];
    proof {
        let (a, b) = (t@.shape[0], t@.shape[1]);
        assert(shape@ =~= seq![1usize, a, b]);
        assert(t@.shape =~= seq![a, b]);
        tensor::lemma_volume_two(a, b);
        reveal_with_fuel(tensor::countable, 2);
        nn::lemma_volume_three(1, a, b);
        assert(1 * a * b == a * b) by (nonlinear_arith);
        assert(1 * a == a) by (nonlinear_arith);
    }
    t.reshape(&shape)
}

/// Attention over the rows of matrices: what came back, or what is computed here.
pub fn gpu_attention<W: Word + Real>(
    q: &Tensor<W>,
    k: &Tensor<W>,
    v: &Tensor<W>,
    scale: W,
    back: Option<&[u8]>,
) -> (r: Tensor<W>)
    requires
        q.wf(),
        k.wf(),
        v.wf(),
        q@.is_matrix(),
        k@.is_matrix(),
        v@.shape == k@.shape,
        k@.shape[1] == q@.shape[1],
        back_fills(back, q@.shape),
    ensures
        r.wf(),
        match back {
            Some(raw) => r@ == read_value::<W>(raw@, q@.shape),
            None => r@ == (Value::<W> {
                data: nn::attention_value(
                    batch_of_one(q@),
                    batch_of_one(k@),
                    batch_of_one(v@),
                    scale,
                ).data,
                shape: q@.shape,
            }),
        },
{
    match back {
        Some(raw) => GpuBackend::read_back(raw, &q.shape),
        None => {
            let out = scaled_attention(&as_batch(q), &as_batch(k), &as_batch(v), scale);
            out.reshape(&q.shape)
        },
    }
}

/// The numbers cut off at zero: what came back, or what is computed here.
pub fn gpu_relu<W: Word + Real>(t: &Tensor<W>, back: Option<&[u8]>) -> (r: Tensor<W>)
    requires
        t.wf(),
        back_fills(back, t@.shape),
    ensures
        r.wf(),
        match back {
            Some(raw) => r@ == read_value::<W>(raw@, t@.shape),
            None => r@ == activations::pointwise(Pointwise::Relu, t@),
        },
{
    match back {
        Some(raw) => GpuBackend::read_back(raw, &t.shape),
        None => apply(Pointwise::Relu, t),
    }
}

pub fn gpu_add<W: Real>(a: &Tensor<W>, b: &Tensor<W>) -> (r: Tensor<W>)
    requires
        a.wf(),
        b.wf(),
        tensor::zips(a@, b@),
    ensures
        r.wf(),
        r@ == tensor::zipped(Op::Add, a@, b@),
{
    a.add(b)
}

pub fn gpu_mul<W: Real>(a: &Tensor<W>, b: &Tensor<W>) -> (r: Tensor<W>)
    requires
        a.wf(),
        b.wf(),
        tensor::zips(a@, b@),
    ensures
        r.wf(),
        r@ == tensor::zipped(Op::Mul, a@, b@),
{
    a.mul(b)
}

} // verus!
