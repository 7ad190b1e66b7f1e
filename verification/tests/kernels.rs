//! Matrix kernels, attention and quantization, with numbers of single precision.
use rand::rngs::StdRng;
use rand::{Rng, SeedableRng};
use rust_nn::blas;
use rust_nn::blas::{kernel_name, want_avx512, BlasBackend, NativeBackend, Processor, Transpose};
use rust_nn::bytes::Word;
use rust_nn::compiled::CompiledMLP;
use rust_nn::distributed;
use rust_nn::distributed::{
    clip_gradients, flatten_gradients, unflatten_gradients, DistributedConfig,
    DistributedWorker, Message, MessageType,
};
use rust_nn::format::{Chars, Textual};
use rust_nn::fused::{fused_linear, sparse_topk_route, FusedActivation};
use rust_nn::gpu;
use rust_nn::gpu::{Binding, GpuBackend};
use rust_nn::gpu_kernels::{
    backend_report, kernel_matmul, kernel_matmul_with_backend, GpuBackendKind, TileConfig,
};
use rust_nn::int8::{igemm, igemm_scalar, pack_b_vnni, Int8Linear, Int8Weights};
use rust_nn::linear_attention;
use rust_nn::linear_attention::KernelKind;
use rust_nn::nn::{Draws, Layer, Linear, Module, ReLU, Sequential};
use rust_nn::number::{Number, Real};
use rust_nn::quant::{Rotor, RotorQuant, MV};
use rust_nn::quantize::{
    bf16_to_f32, f16_to_f32, f32_to_bf16, f32_to_f16, QuantFormat, QuantizedLinear,
    QuantizedModel, QuantizedTensor,
};
use rust_nn::random::random_units;
use rust_nn::short::Short;
use rust_nn::tensor::Tensor;

/// A number of single precision.
#[derive(Debug, Clone, Copy, PartialEq)]
struct F(f32);

impl Number for F {
    fn spec_zero() -> F {
        F(0.0)
    }
    fn spec_one() -> F {
        F(1.0)
    }
    fn spec_plus(self, other: F) -> F {
        self.plus(other)
    }
    fn spec_minus(self, other: F) -> F {
        self.minus(other)
    }
    fn spec_times(self, other: F) -> F {
        self.times(other)
    }
    fn spec_same(self, other: F) -> bool {
        self.same(other)
    }
    fn zero() -> F {
        F(0.0)
    }
    fn one() -> F {
        F(1.0)
    }
    fn plus(self, other: F) -> F {
        F(self.0 + other.0)
    }
    fn minus(self, other: F) -> F {
        F(self.0 - other.0)
    }
    fn times(self, other: F) -> F {
        F(self.0 * other.0)
    }
    fn same(self, other: F) -> bool {
        self.0 == other.0
    }
}

impl Real for F {
    fn spec_count(n: usize) -> F {
        F::count(n)
    }
    fn spec_over(self, other: F) -> F {
        self.over(other)
    }
    fn spec_larger(self, other: F) -> F {
        self.larger(other)
    }
    fn spec_smaller(self, other: F) -> F {
        self.smaller(other)
    }
    fn spec_powf(self, other: F) -> F {
        self.powf(other)
    }
    fn spec_powi(self, n: i32) -> F {
        self.powi(n)
    }
    fn spec_below(self, other: F) -> bool {
        self.below(other)
    }
    fn spec_at_most(self, other: F) -> bool {
        self.at_most(other)
    }
    fn spec_highest() -> F {
        F::highest()
    }
    fn spec_lowest() -> F {
        F::lowest()
    }
    fn spec_whole(self) -> i64 {
        self.whole()
    }
    fn spec_neg(self) -> F {
        self.neg()
    }
    fn spec_abs(self) -> F {
        self.abs()
    }
    fn spec_exp(self) -> F {
        self.exp()
    }
    fn spec_ln(self) -> F {
        self.ln()
    }
    fn spec_tanh(self) -> F {
        self.tanh()
    }
    fn spec_sqrt(self) -> F {
        self.sqrt()
    }
    fn spec_sin(self) -> F {
        self.sin()
    }
    fn spec_cos(self) -> F {
        self.cos()
    }
    fn spec_round(self) -> F {
        self.round()
    }
    fn count(n: usize) -> F {
        F(n as f32)
    }
    fn over(self, other: F) -> F {
        F(self.0 / other.0)
    }
    fn larger(self, other: F) -> F {
        F(self.0.max(other.0))
    }
    fn smaller(self, other: F) -> F {
        F(self.0.min(other.0))
    }
    fn powf(self, other: F) -> F {
        F(self.0.powf(other.0))
    }
    fn powi(self, n: i32) -> F {
        F(self.0.powi(n))
    }
    fn below(self, other: F) -> bool {
        self.0 < other.0
    }
    fn at_most(self, other: F) -> bool {
        self.0 <= other.0
    }
    fn highest() -> F {
        F(f32::INFINITY)
    }
    fn lowest() -> F {
        F(f32::NEG_INFINITY)
    }
    fn whole(self) -> i64 {
        self.0 as i64
    }
    fn neg(self) -> F {
        F(-self.0)
    }
    fn abs(self) -> F {
        F(self.0.abs())
    }
    fn exp(self) -> F {
        F(self.0.exp())
    }
    fn ln(self) -> F {
        F(self.0.ln())
    }
    fn tanh(self) -> F {
        F(self.0.tanh())
    }
    fn sqrt(self) -> F {
        F(self.0.sqrt())
    }
    fn sin(self) -> F {
        F(self.0.sin())
    }
    fn cos(self) -> F {
        F(self.0.cos())
    }
    fn round(self) -> F {
        F(self.0.round())
    }
}

impl Textual for F {
    fn spec_read(_: Chars) -> Option<F> {
        unreachable!()
    }
    fn spec_show(self) -> Chars {
        unreachable!()
    }
    fn spec_show_places(self, _: usize) -> Chars {
        unreachable!()
    }
    fn read(s: &[char]) -> Option<F> {
        let text: String = s.iter().collect();
        text.parse::<f32>().ok().map(F)
    }
    fn show(self) -> Vec<char> {
        format!("{}", self.0).chars().collect()
    }
    fn show_places(self, places: usize) -> Vec<char> {
        format!("{:.*}", places, self.0).chars().collect()
    }
}

impl Word for F {
    fn spec_bits(self) -> u32 {
        self.bits()
    }
    fn spec_from_bits(b: u32) -> F {
        F::from_bits(b)
    }
    fn round_trip(self) {}
    fn bits(self) -> u32 {
        self.0.to_bits()
    }
    fn from_bits(b: u32) -> F {
        F(f32::from_bits(b))
    }
}

fn fs(v: &[f32]) -> Vec<F> {
    v.iter().map(|x| F(*x)).collect()
}

fn raw(v: &[F]) -> Vec<f32> {
    v.iter().map(|x| x.0).collect()
}

fn tensor(v: &[f32], shape: &[usize]) -> Tensor<F> {
    Tensor::from_vec(fs(v), shape.to_vec())
}

/// Numbers that look normally distributed, the same for the same seed.
fn normals(seed: u32, n: usize) -> Vec<F> {
    let mut s: u32 = seed.wrapping_mul(2654435761).wrapping_add(1);
    let mut unit = || {
        s = s.wrapping_mul(1664525).wrapping_add(1013904223);
        ((s >> 8) as f32 + 0.5) / 16777216.0
    };
    (0..n)
        .map(|_| {
            let (a, b) = (unit(), unit());
            F((-2.0 * a.ln()).sqrt() * (2.0 * std::f32::consts::PI * b).cos())
        })
        .collect()
}

fn randn(seed: u32, shape: &[usize]) -> Tensor<F> {
    let n: usize = shape.iter().product();
    Tensor::from_vec(normals(seed, n), shape.to_vec())
}

/// Weights for layers, scaled down.
fn draws(seed: u32, n: usize) -> Draws<F> {
    Draws::new(normals(seed, n).iter().map(|x| F(x.0 * 0.3)).collect())
}

// ---- The kernels on slices of plain numbers

#[allow(clippy::too_many_arguments)]
fn sgemm(
    ta: Transpose,
    tb: Transpose,
    m: usize,
    n: usize,
    k: usize,
    alpha: f32,
    a: &[f32],
    lda: usize,
    b: &[f32],
    ldb: usize,
    beta: f32,
    c: &mut [f32],
    ldc: usize,
) {
    let mut out = fs(c);
    blas::sgemm(ta, tb, m, n, k, F(alpha), &fs(a), lda, &fs(b), ldb, F(beta), &mut out, ldc);
    c.copy_from_slice(&raw(&out));
}

#[allow(clippy::too_many_arguments)]
fn backend_sgemm(
    ta: Transpose,
    tb: Transpose,
    m: usize,
    n: usize,
    k: usize,
    alpha: f32,
    a: &[f32],
    lda: usize,
    b: &[f32],
    ldb: usize,
    beta: f32,
    c: &mut [f32],
    ldc: usize,
) {
    let mut out = fs(c);
    NativeBackend
        .sgemm(ta, tb, m, n, k, F(alpha), &fs(a), lda, &fs(b), ldb, F(beta), &mut out, ldc);
    c.copy_from_slice(&raw(&out));
}

fn matmul(a: &[f32], b: &[f32], c: &mut [f32], m: usize, k: usize, n: usize) {
    let mut out = fs(c);
    blas::matmul(&fs(a), &fs(b), &mut out, m, k, n);
    c.copy_from_slice(&raw(&out));
}

fn gemm_strassen(a: &[f32], b: &[f32], c: &mut [f32], m: usize, k: usize, n: usize) {
    let mut out = fs(c);
    blas::gemm_strassen(&fs(a), &fs(b), &mut out, m, k, n);
    c.copy_from_slice(&raw(&out));
}

#[allow(clippy::too_many_arguments)]
fn sgemv(
    t: Transpose,
    m: usize,
    k: usize,
    alpha: f32,
    a: &[f32],
    lda: usize,
    x: &[f32],
    incx: usize,
    beta: f32,
    y: &mut [f32],
    incy: usize,
) {
    let mut out = fs(y);
    blas::sgemv(t, m, k, F(alpha), &fs(a), lda, &fs(x), incx, F(beta), &mut out, incy);
    y.copy_from_slice(&raw(&out));
}

fn sdot(n: usize, x: &[f32], incx: usize, y: &[f32], incy: usize) -> f32 {
    blas::sdot(n, &fs(x), incx, &fs(y), incy).0
}

fn saxpy(n: usize, alpha: f32, x: &[f32], y: &mut [f32]) {
    let mut out = fs(y);
    blas::saxpy(n, F(alpha), &fs(x), &mut out);
    y.copy_from_slice(&raw(&out));
}

fn sscal(n: usize, alpha: f32, x: &mut [f32]) {
    let mut out = fs(x);
    blas::sscal(n, F(alpha), &mut out);
    x.copy_from_slice(&raw(&out));
}

fn scopy(n: usize, x: &[f32], y: &mut [f32]) {
    let mut out = fs(y);
    blas::scopy(n, &fs(x), &mut out);
    y.copy_from_slice(&raw(&out));
}

fn snrm2(n: usize, x: &[f32]) -> f32 {
    blas::snrm2(n, &fs(x)).0
}

fn phi(kind: KernelKind, x: f32) -> f32 {
    linear_attention::phi(kind, F(x)).0
}

#[allow(clippy::too_many_arguments)]
fn linear_attention_forward(
    q: &[f32],
    k: &[f32],
    v: &[f32],
    batch: usize,
    seq: usize,
    d: usize,
    scale: f32,
    eps: f32,
    causal: bool,
    kind: KernelKind,
) -> Vec<f32> {
    raw(&linear_attention::linear_attention_forward(
        &fs(q),
        &fs(k),
        &fs(v),
        batch,
        seq,
        d,
        F(scale),
        F(eps),
        causal,
        kind,
    ))
}

#[allow(clippy::too_many_arguments)]
fn linear_attention_backward(
    q: &[f32],
    k: &[f32],
    v: &[f32],
    w: &[f32],
    batch: usize,
    seq: usize,
    d: usize,
    scale: f32,
    eps: f32,
    causal: bool,
    kind: KernelKind,
) -> (Vec<f32>, Vec<f32>, Vec<f32>) {
    let (a, b, c) = linear_attention::linear_attention_backward(
        &fs(q),
        &fs(k),
        &fs(v),
        &fs(w),
        batch,
        seq,
        d,
        F(scale),
        F(eps),
        causal,
        kind,
    );
    (raw(&a), raw(&b), raw(&c))
}

// ---- Matrix products



fn naive_sgemm(
    ta: Transpose,
    tb: Transpose,
    m: usize,
    n: usize,
    k: usize,
    alpha: f32,
    a: &[f32],
    lda: usize,
    b: &[f32],
    ldb: usize,
    beta: f32,
    c: &mut [f32],
    ldc: usize,
) {
    for i in 0..m {
        for j in 0..n {
            let mut s = 0.0f32;
            for p in 0..k {
                let av = if ta.is_trans() {
                    a[p * lda + i]
                } else {
                    a[i * lda + p]
                };
                let bv = if tb.is_trans() {
                    b[j * ldb + p]
                } else {
                    b[p * ldb + j]
                };
                s += av * bv;
            }
            c[i * ldc + j] = alpha * s + beta * c[i * ldc + j];
        }
    }
}

fn max_abs_diff(a: &[f32], b: &[f32]) -> f32 {
    a.iter()
        .zip(b)
        .map(|(x, y)| (x - y).abs())
        .fold(0.0f32, f32::max)
}

fn rand_mat(seed: &mut u32, n: usize) -> Vec<f32> {
    (0..n)
        .map(|_| {
            *seed = seed.wrapping_mul(1664525).wrapping_add(1013904223);
            // Top 24 bits / 2^24 → [0,1); shift to [-0.5, 0.5).
            ((*seed >> 8) as f32 / 16777216.0) - 0.5
        })
        .collect()
}


#[test]
fn sgemm_nn_matches_naive() {
    let (m, n, k) = (17, 19, 13);
    let mut s = 1u32;
    let a = rand_mat(&mut s, m * k);
    let b = rand_mat(&mut s, k * n);
    let mut c1 = vec![0.0f32; m * n];
    let mut c2 = vec![0.0f32; m * n];
    sgemm(
        Transpose::NoTrans,
        Transpose::NoTrans,
        m,
        n,
        k,
        1.0,
        &a,
        k,
        &b,
        n,
        0.0,
        &mut c1,
        n,
    );
    naive_sgemm(
        Transpose::NoTrans,
        Transpose::NoTrans,
        m,
        n,
        k,
        1.0,
        &a,
        k,
        &b,
        n,
        0.0,
        &mut c2,
        n,
    );
    assert!(
        max_abs_diff(&c1, &c2) < 1e-3,
        "NN diff {}",
        max_abs_diff(&c1, &c2)
    );
}

#[test]
fn sgemm_nt_matches_naive() {
    // B is stored [n,k] (transb=Trans). C[m,n] = A[m,k] @ Bᵀ.
    let (m, n, k) = (33, 29, 17);
    let mut s = 2u32;
    let a = rand_mat(&mut s, m * k);
    let b = rand_mat(&mut s, n * k); // [n,k] storage
    let mut c1 = vec![0.0f32; m * n];
    let mut c2 = vec![0.0f32; m * n];
    sgemm(
        Transpose::NoTrans,
        Transpose::Trans,
        m,
        n,
        k,
        1.0,
        &a,
        k,
        &b,
        k,
        0.0,
        &mut c1,
        n,
    );
    naive_sgemm(
        Transpose::NoTrans,
        Transpose::Trans,
        m,
        n,
        k,
        1.0,
        &a,
        k,
        &b,
        k,
        0.0,
        &mut c2,
        n,
    );
    assert!(
        max_abs_diff(&c1, &c2) < 1e-3,
        "NT diff {}",
        max_abs_diff(&c1, &c2)
    );
}

#[test]
fn sgemm_tn_matches_naive() {
    // A stored [k,m] (transa=Trans). C[m,n] = Aᵀ @ B.
    let (m, n, k) = (29, 33, 17);
    let mut s = 3u32;
    let a = rand_mat(&mut s, k * m); // [k,m] storage
    let b = rand_mat(&mut s, k * n);
    let mut c1 = vec![0.0f32; m * n];
    let mut c2 = vec![0.0f32; m * n];
    sgemm(
        Transpose::Trans,
        Transpose::NoTrans,
        m,
        n,
        k,
        1.0,
        &a,
        m,
        &b,
        n,
        0.0,
        &mut c1,
        n,
    );
    naive_sgemm(
        Transpose::Trans,
        Transpose::NoTrans,
        m,
        n,
        k,
        1.0,
        &a,
        m,
        &b,
        n,
        0.0,
        &mut c2,
        n,
    );
    assert!(
        max_abs_diff(&c1, &c2) < 1e-3,
        "TN diff {}",
        max_abs_diff(&c1, &c2)
    );
}

#[test]
fn sgemm_tt_matches_naive() {
    let (m, n, k) = (40, 35, 24);
    let mut s = 4u32;
    let a = rand_mat(&mut s, k * m);
    let b = rand_mat(&mut s, n * k);
    let mut c1 = vec![0.0f32; m * n];
    let mut c2 = vec![0.0f32; m * n];
    sgemm(
        Transpose::Trans,
        Transpose::Trans,
        m,
        n,
        k,
        1.0,
        &a,
        m,
        &b,
        k,
        0.0,
        &mut c1,
        n,
    );
    naive_sgemm(
        Transpose::Trans,
        Transpose::Trans,
        m,
        n,
        k,
        1.0,
        &a,
        m,
        &b,
        k,
        0.0,
        &mut c2,
        n,
    );
    assert!(
        max_abs_diff(&c1, &c2) < 1e-3,
        "TT diff {}",
        max_abs_diff(&c1, &c2)
    );
}

#[test]
fn sgemm_alpha_beta_accumulation() {
    let (m, n, k) = (20, 20, 20);
    let mut s = 5u32;
    let a = rand_mat(&mut s, m * k);
    let b = rand_mat(&mut s, k * n);
    let c0 = rand_mat(&mut s, m * n);
    let alpha = 2.5f32;
    let beta = -1.5f32;
    let mut c1 = c0.clone();
    let mut c2 = c0.clone();
    sgemm(
        Transpose::NoTrans,
        Transpose::NoTrans,
        m,
        n,
        k,
        alpha,
        &a,
        k,
        &b,
        n,
        beta,
        &mut c1,
        n,
    );
    naive_sgemm(
        Transpose::NoTrans,
        Transpose::NoTrans,
        m,
        n,
        k,
        alpha,
        &a,
        k,
        &b,
        n,
        beta,
        &mut c2,
        n,
    );
    assert!(
        max_abs_diff(&c1, &c2) < 1e-3,
        "alpha/beta diff {}",
        max_abs_diff(&c1, &c2)
    );
}

#[test]
fn sgemm_large_blocked_path() {
    // Large enough to exercise the full MC/KC/NC blocked + threaded path.
    let (m, n, k) = (200, 180, 160);
    let mut s = 6u32;
    let a = rand_mat(&mut s, m * k);
    let b = rand_mat(&mut s, k * n);
    let mut c1 = vec![0.0f32; m * n];
    let mut c2 = vec![0.0f32; m * n];
    sgemm(
        Transpose::NoTrans,
        Transpose::NoTrans,
        m,
        n,
        k,
        1.0,
        &a,
        k,
        &b,
        n,
        0.0,
        &mut c1,
        n,
    );
    naive_sgemm(
        Transpose::NoTrans,
        Transpose::NoTrans,
        m,
        n,
        k,
        1.0,
        &a,
        k,
        &b,
        n,
        0.0,
        &mut c2,
        n,
    );
    assert!(
        max_abs_diff(&c1, &c2) < 0.1,
        "large blocked diff {}",
        max_abs_diff(&c1, &c2)
    );
}

#[test]
fn sgemm_zero_and_small_edges() {
    // k=0 → C should be zeroed by beta=0.
    let mut c = vec![7.0f32; 4];
    sgemm(
        Transpose::NoTrans,
        Transpose::NoTrans,
        2,
        2,
        0,
        1.0,
        &[],
        0,
        &[],
        0,
        0.0,
        &mut c,
        2,
    );
    assert_eq!(c, vec![0.0, 0.0, 0.0, 0.0]);

    // 1x1
    let mut c = vec![0.0];
    sgemm(
        Transpose::NoTrans,
        Transpose::NoTrans,
        1,
        1,
        1,
        1.0,
        &[3.0],
        1,
        &[4.0],
        1,
        0.0,
        &mut c,
        1,
    );
    assert!((c[0] - 12.0).abs() < 1e-6);
}


#[test]
fn matmul_convenience_works() {
    let a = vec![1.0, 2.0, 3.0, 4.0]; // [2,2]
    let b = vec![5.0, 6.0, 7.0, 8.0]; // [2,2]
    let mut c = vec![0.0; 4];
    matmul(&a, &b, &mut c, 2, 2, 2);
    assert_eq!(c, vec![19.0, 22.0, 43.0, 50.0]);
}

#[test]
fn sgemv_notrans_and_trans() {
    // A [3,2], x[2], y = A x
    let a = vec![1.0, 2.0, 3.0, 4.0, 5.0, 6.0];
    let x = vec![1.0, 1.0];
    let mut y = vec![0.0; 3];
    sgemv(Transpose::NoTrans, 3, 2, 1.0, &a, 2, &x, 1, 0.0, &mut y, 1);
    assert_eq!(y, vec![3.0, 7.0, 11.0]);
    // Aᵀ x : Aᵀ is [2,3], x len 3, y len 2
    let mut y2 = vec![0.0; 2];
    sgemv(
        Transpose::Trans,
        3,
        2,
        1.0,
        &a,
        2,
        &[1.0, 1.0, 1.0],
        1,
        0.0,
        &mut y2,
        1,
    );
    assert_eq!(y2, vec![9.0, 12.0]); // col sums
}

#[test]
fn level1_ops() {
    assert_eq!(sdot(3, &[1.0, 2.0, 3.0], 1, &[4.0, 5.0, 6.0], 1), 32.0);
    let mut y = vec![1.0, 2.0, 3.0];
    saxpy(3, 2.0, &[10.0, 20.0, 30.0], &mut y);
    assert_eq!(y, vec![21.0, 42.0, 63.0]);
    let mut x = vec![1.0, 2.0, 3.0];
    sscal(3, 2.0, &mut x);
    assert_eq!(x, vec![2.0, 4.0, 6.0]);
    let mut z = vec![0.0; 3];
    scopy(3, &[7.0, 8.0, 9.0], &mut z);
    assert_eq!(z, vec![7.0, 8.0, 9.0]);
    assert!((snrm2(2, &[3.0, 4.0]) - 5.0).abs() < 1e-5);
}


#[test]
fn native_backend_trait_matches_free_fn() {
    let (m, n, k) = (16, 16, 16);
    let mut s = 7u32;
    let a = rand_mat(&mut s, m * k);
    let b = rand_mat(&mut s, k * n);
    let mut c1 = vec![0.0f32; m * n];
    let mut c2 = vec![0.0f32; m * n];
    backend_sgemm(
        Transpose::NoTrans,
        Transpose::NoTrans,
        m,
        n,
        k,
        1.0,
        &a,
        k,
        &b,
        n,
        0.0,
        &mut c1,
        n,
    );
    sgemm(
        Transpose::NoTrans,
        Transpose::NoTrans,
        m,
        n,
        k,
        1.0,
        &a,
        k,
        &b,
        n,
        0.0,
        &mut c2,
        n,
    );
    assert!(max_abs_diff(&c1, &c2) < 1e-4);
    assert!(!NativeBackend.name().is_empty());
}


#[test]
fn kernels_are_named_after_the_processor() {
    let none = Processor { avx2: false, fma: false, avx512f: false, wants_avx512: false };
    assert_eq!(kernel_name(none), "native-scalar");
    assert_eq!(NativeBackend.name(), "native-scalar");
    assert_eq!(kernel_name(Processor { avx2: true, ..none }), "native-scalar");
    let wide = Processor { avx2: true, fma: true, avx512f: true, wants_avx512: true };
    assert_eq!(kernel_name(wide), "native-avx512f (4x16 tile)");
    let unwanted = Processor { wants_avx512: false, ..wide };
    assert_eq!(kernel_name(unwanted), "native-avx2+fma (4x16 tile)");
    assert!(want_avx512(Some("1")) && want_avx512(Some("TruE")));
    assert!(!want_avx512(Some("0")) && !want_avx512(Some("truth")) && !want_avx512(None));
}

#[test]
fn strassen_matches_naive_even() {
    let n = 256; // power of two, triggers exactly one recursion level
    let mut s = 8u32;
    let a = rand_mat(&mut s, n * n);
    let b = rand_mat(&mut s, n * n);
    let mut c1 = vec![0.0f32; n * n];
    let mut c2 = vec![0.0f32; n * n];
    gemm_strassen(&a, &b, &mut c1, n, n, n);
    naive_sgemm(
        Transpose::NoTrans,
        Transpose::NoTrans,
        n,
        n,
        n,
        1.0,
        &a,
        n,
        &b,
        n,
        0.0,
        &mut c2,
        n,
    );
    // Strassen in f32: allow a slightly looser tolerance.
    assert!(
        max_abs_diff(&c1, &c2) < 1.0,
        "strassen even diff {}",
        max_abs_diff(&c1, &c2)
    );
}

#[test]
fn strassen_matches_naive_odd_rect() {
    // Odd + rectangular: exercises all three peeling paths.
    let (m, k, n) = (133, 117, 129);
    let mut s = 9u32;
    let a = rand_mat(&mut s, m * k);
    let b = rand_mat(&mut s, k * n);
    let mut c1 = vec![0.0f32; m * n];
    let mut c2 = vec![0.0f32; m * n];
    gemm_strassen(&a, &b, &mut c1, m, k, n);
    naive_sgemm(
        Transpose::NoTrans,
        Transpose::NoTrans,
        m,
        n,
        k,
        1.0,
        &a,
        k,
        &b,
        n,
        0.0,
        &mut c2,
        n,
    );
    assert!(
        max_abs_diff(&c1, &c2) < 1.0,
        "strassen odd diff {}",
        max_abs_diff(&c1, &c2)
    );
}

#[test]
fn strassen_small_falls_back_to_classical() {
    let n = 32; // below threshold
    let mut s = 10u32;
    let a = rand_mat(&mut s, n * n);
    let b = rand_mat(&mut s, n * n);
    let mut c1 = vec![0.0f32; n * n];
    let mut c2 = vec![0.0f32; n * n];
    gemm_strassen(&a, &b, &mut c1, n, n, n);
    naive_sgemm(
        Transpose::NoTrans,
        Transpose::NoTrans,
        n,
        n,
        n,
        1.0,
        &a,
        n,
        &b,
        n,
        0.0,
        &mut c2,
        n,
    );
    assert!(max_abs_diff(&c1, &c2) < 1e-3);
}

#[test]
fn whole_numbers_come_out_exactly() {
    let n = 96;
    let a: Vec<i32> = (0..n * n).map(|i| (i as i32 * 7919) % 1000 - 500).collect();
    let b: Vec<i32> = (0..n * n).map(|i| (i as i32 * 104729) % 1000 - 500).collect();
    let mut c1 = vec![0i32; n * n];
    let mut c2 = vec![0i32; n * n];
    blas::gemm_strassen(&a, &b, &mut c1, n, n, n);
    blas::matmul(&a, &b, &mut c2, n, n, n);
    assert_eq!(c1, c2);
    let want: i32 = (0..n).map(|p| a[5 * n + p] * b[p * n + 9]).sum();
    assert_eq!(c1[5 * n + 9], want);
}

// ---- Linear attention

fn naive_reference(
    kind: KernelKind,
    q: &[f32],
    k: &[f32],
    v: &[f32],
    seq: usize,
    d: usize,
    scale: f32,
    eps: f32,
    causal: bool,
) -> Vec<f32> {
    let mut out = vec![0.0f32; seq * d];
    for i in 0..seq {
        let mut acc = vec![0.0f32; d];
        let mut den = 0.0f32;
        for j in 0..seq {
            if causal && j > i {
                continue;
            }
            // kernel score = φ(q_i)·φ(k_j)
            let mut score = 0.0f32;
            for a in 0..d {
                score += phi(kind, q[i * d + a] * scale) * phi(kind, k[j * d + a] * scale);
            }
            for b in 0..d {
                acc[b] += score * v[j * d + b];
            }
            den += score;
        }
        let inv = 1.0 / (den + eps);
        for b in 0..d {
            out[i * d + b] = acc[b] * inv;
        }
    }
    out
}

fn lcg(seed: &mut u32, n: usize) -> Vec<f32> {
    (0..n)
        .map(|_| {
            *seed = seed.wrapping_mul(1664525).wrapping_add(1013904223);
            ((*seed >> 8) as f32 / 16777216.0) - 0.5
        })
        .collect()
}

#[test]
fn forward_ncausal_matches_naive_elu() {
    let (batch, seq, d) = (2, 12, 8);
    let mut s = 1u32;
    let q = lcg(&mut s, batch * seq * d);
    let k = lcg(&mut s, batch * seq * d);
    let v = lcg(&mut s, batch * seq * d);
    let scale = 1.0 / (d as f32).sqrt();
    let out = linear_attention_forward(
        &q,
        &k,
        &v,
        batch,
        seq,
        d,
        scale,
        1e-6,
        false,
        KernelKind::Elu,
    );
    // compare each batch against the naive O(N^2) reference
    let sd = seq * d;
    for b in 0..batch {
        let refb = naive_reference(
            KernelKind::Elu,
            &q[b * sd..],
            &k[b * sd..],
            &v[b * sd..],
            seq,
            d,
            scale,
            1e-6,
            false,
        );
        let diff = max_abs_diff(&out[b * sd..(b + 1) * sd], &refb);
        assert!(diff < 1e-4, "batch {b} non-causal ELU diff {diff}");
    }
}

#[test]
fn forward_causal_matches_naive_elu() {
    let (batch, seq, d) = (2, 11, 7);
    let mut s = 2u32;
    let q = lcg(&mut s, batch * seq * d);
    let k = lcg(&mut s, batch * seq * d);
    let v = lcg(&mut s, batch * seq * d);
    let scale = 1.0 / (d as f32).sqrt();
    let out = linear_attention_forward(
        &q,
        &k,
        &v,
        batch,
        seq,
        d,
        scale,
        1e-6,
        true,
        KernelKind::Elu,
    );
    let sd = seq * d;
    for b in 0..batch {
        let refb = naive_reference(
            KernelKind::Elu,
            &q[b * sd..],
            &k[b * sd..],
            &v[b * sd..],
            seq,
            d,
            scale,
            1e-6,
            true,
        );
        let diff = max_abs_diff(&out[b * sd..(b + 1) * sd], &refb);
        assert!(diff < 1e-4, "batch {b} causal ELU diff {diff}");
    }
}

#[test]
fn forward_ncausal_matches_naive_relu2() {
    let (batch, seq, d) = (1, 14, 9);
    let mut s = 3u32;
    let q = lcg(&mut s, batch * seq * d);
    let k = lcg(&mut s, batch * seq * d);
    let v = lcg(&mut s, batch * seq * d);
    let scale = 1.0 / (d as f32).sqrt();
    let out = linear_attention_forward(
        &q,
        &k,
        &v,
        batch,
        seq,
        d,
        scale,
        1e-6,
        false,
        KernelKind::Relu2,
    );
    let sd = seq * d;
    let refb = naive_reference(KernelKind::Relu2, &q, &k, &v, seq, d, scale, 1e-6, false);
    let diff = max_abs_diff(&out, &refb);
    assert!(diff < 1e-4, "non-causal Relu2 diff {diff}");
    let _ = sd;
}

/// Numerical gradient check: the fused backward must match finite differences.
/// Uses central differences (O(h²)) and a combined abs+rel tolerance, so it is robust to the
/// near-zero-gradient indices that defeat a naive forward-difference check.
fn grad_check_once(causal: bool, kind: KernelKind) {
    let (batch, seq, d) = (1, 6, 5);
    let mut s = 42u32;
    let q = lcg(&mut s, batch * seq * d);
    let k = lcg(&mut s, batch * seq * d);
    let v = lcg(&mut s, batch * seq * d);
    let w = lcg(&mut s, batch * seq * d); // loss = Σ w_i · out_i  (random weights → O(1) grads)
    let scale = 0.4f32;
    let eps = 1e-6f32;
    let n = batch * seq * d;
    let h = 1e-3f32;

    let (dq, dk, dv) =
        linear_attention_backward(&q, &k, &v, &w, batch, seq, d, scale, eps, causal, kind);

    let fwd = |qq: &[f32], kk: &[f32], vv: &[f32]| -> f32 {
        let o = linear_attention_forward(qq, kk, vv, batch, seq, d, scale, eps, causal, kind);
        w.iter().zip(o.iter()).map(|(a, b)| a * b).sum()
    };

    let check = |which: usize| {
        for idx in 0..n {
            let mut qp = match which {
                0 => q.clone(),
                1 => k.clone(),
                _ => v.clone(),
            };
            let mut qm = qp.clone();
            qp[idx] += h;
            qm[idx] -= h;
            let (fp, fm) = match which {
                0 => (fwd(&qp, &k, &v), fwd(&qm, &k, &v)),
                1 => (fwd(&q, &qp, &v), fwd(&q, &qm, &v)),
                _ => (fwd(&q, &k, &qp), fwd(&q, &k, &qm)),
            };
            let num = (fp - fm) / (2.0 * h);
            let ana = match which {
                0 => dq[idx],
                1 => dk[idx],
                _ => dv[idx],
            };
            let err = (num - ana).abs();
            let tol = 1e-3 + 1e-2 * ana.abs().max(num.abs());
            assert!(
                err < tol,
                "grad check failed: which={which} idx={idx} num={num} ana={ana} err={err} tol={tol}"
            );
        }
    };
    check(0);
    check(1);
    check(2);
}

#[test]
fn grad_check_ncausal_elu() {
    grad_check_once(false, KernelKind::Elu);
}
#[test]
fn grad_check_causal_elu() {
    grad_check_once(true, KernelKind::Elu);
}
#[test]
fn grad_check_ncausal_relu2() {
    grad_check_once(false, KernelKind::Relu2);
}


#[test]
fn tensor_api_end_to_end_backward() {
    let (batch, seq, d) = (2, 16, 8);
    let q = randn(1, &[batch, seq, d]);
    let k = randn(2, &[batch, seq, d]);
    let v = randn(3, &[batch, seq, d]);
    let scale = 1.0 / (d as f32).sqrt();
    let out = linear_attention_forward(
        &raw(&q.data),
        &raw(&k.data),
        &raw(&v.data),
        batch,
        seq,
        d,
        scale,
        1e-6,
        false,
        KernelKind::Elu,
    );
    let out = tensor(&out, &[batch, seq, d]);
    assert_eq!(out.shape(), vec![batch, seq, d]);
    let ones = vec![1.0; batch * seq * d];
    let (dq, dk, dv) = linear_attention_backward(
        &raw(&q.data),
        &raw(&k.data),
        &raw(&v.data),
        &ones,
        batch,
        seq,
        d,
        scale,
        1e-6,
        false,
        KernelKind::Elu,
    );
    assert_eq!(tensor(&dq, &[batch, seq, d]).shape(), vec![batch, seq, d]);
    assert_eq!(tensor(&dk, &[batch, seq, d]).shape(), vec![batch, seq, d]);
    assert_eq!(tensor(&dv, &[batch, seq, d]).shape(), vec![batch, seq, d]);

    let q2 = raw(&normals(4, 72));
    let k2 = raw(&normals(5, 72));
    let v2 = raw(&normals(6, 72));
    let (dq, dk, dv) = linear_attention_backward(
        &q2,
        &k2,
        &v2,
        &[1.0; 72],
        1,
        12,
        6,
        0.5,
        1e-6,
        true,
        KernelKind::Relu2,
    );
    assert!(dq.len() == 72 && dk.len() == 72 && dv.len() == 72);
}

// ---- Fused kernels

#[test]
fn fused_linear_relu_matches_separate() {
    let x = tensor(&[1.0, 2.0, 3.0, 4.0, 5.0, 6.0], &[2, 3]);
    let w = tensor(&[1.0, 0.0, 0.0, 0.0, 1.0, 0.0], &[2, 3]);
    let b = tensor(&[0.1, 0.2], &[2]);
    let fused = fused_linear(&x, &w, Some(&b), FusedActivation::ReLU);
    let plain = fused_linear(&x, &w, Some(&b), FusedActivation::Identity);
    let fused_vals = raw(&fused.data);
    assert_eq!(fused_vals.len(), 4);
    assert!(fused_vals.iter().all(|v| *v >= 0.0), "ReLU should be non-negative");
    assert_eq!(raw(&plain.data), vec![1.1, 2.2, 4.1, 5.2]);
}

#[test]
fn fused_linear_no_bias() {
    let x = tensor(&[1.0, 2.0, 3.0, 4.0], &[2, 2]);
    let w = tensor(&[1.0, 0.0, 0.0, 1.0], &[2, 2]);
    let result = fused_linear(&x, &w, None, FusedActivation::Identity);
    let vals = raw(&result.data);
    assert!((vals[0] - 1.0).abs() < 1e-5);
    assert!((vals[1] - 2.0).abs() < 1e-5);
}

#[test]
fn fused_linear_gelu() {
    let x = tensor(&[0.0, 1.0, -1.0, 2.0], &[2, 2]);
    let w = tensor(&[1.0, 0.0, 0.0, 1.0], &[2, 2]);
    let result = fused_linear(&x, &w, None, FusedActivation::GELU);
    let vals = raw(&result.data);
    assert!(vals[0].abs() < 0.01, "GELU(0) should be ~0, got {}", vals[0]);
    assert!(vals[1] > 0.8 && vals[1] < 0.85, "GELU(1) should be ~0.84, got {}", vals[1]);
}

#[test]
fn sparse_topk_correct() {
    let logits = fs(&[1.0, 3.0, 2.0, 0.0, 0.0, 0.5, 4.0, 1.0]);
    let (indices, weights) = sparse_topk_route(&logits, 2, 4, 2);
    assert_eq!(indices[0], 1);
    assert_eq!(indices[1], 2);
    assert_eq!(indices[2], 2);
    assert_eq!(indices[3], 3);
    let w0: f32 = weights[0].0 + weights[1].0;
    assert!((w0 - 1.0).abs() < 1e-5, "weights should sum to 1: {w0}");
}

#[test]
fn sparse_topk_k_equals_all() {
    let logits = fs(&[1.0, 2.0, 3.0]);
    let (indices, weights) = sparse_topk_route(&logits, 1, 3, 3);
    assert_eq!(indices, vec![2, 1, 0]);
    let w_sum: f32 = raw(&weights).iter().sum();
    assert!((w_sum - 1.0).abs() < 1e-5);
}

// ---- Bytes

#[test]
fn int8_roundtrip_low_error() {
    let weight = tensor(&[0.1, 0.2, 0.3, -0.4, 0.5, -0.6, 0.7, 0.8], &[2, 4]);
    let q = Int8Weights::quantize(&weight);
    let error = q.quantization_error(&weight).0;
    assert!(error < 0.01, "quantization error too high: {error}");
    let back = raw(&q.dequantize().data);
    assert!((back[7] - 0.8).abs() < 0.01);
}

#[test]
fn int8_compression_ratio() {
    let weight = randn(7, &[64, 128]);
    let q = Int8Weights::quantize(&weight);
    let ratio = q.compression_ratio().0;
    assert!(ratio > 3.0, "compression should be ~4x, got {ratio}");
}

#[test]
fn int8_memory_smaller() {
    let weight = randn(8, &[32, 64]);
    let f32_bytes = 32 * 64 * 4;
    let q = Int8Weights::quantize(&weight);
    assert!(q.mem_bytes() < f32_bytes);
}

#[test]
fn int8_linear_matches_f32_approximately() {
    let layer = Linear::new(8, 4, true, &mut draws(9, 32));
    let x = randn(10, &[2, 8]);
    let y_f32 = layer.forward(&x);
    let q_layer = Int8Linear::from_linear(&layer);
    let y_int8 = q_layer.forward(&x);
    let max_diff = max_abs_diff(&raw(&y_f32.data), &raw(&y_int8.data));
    assert!(max_diff < 5.0, "INT8 inference should be close to f32, max diff: {max_diff}");
}

#[test]
fn int8_weights_shape() {
    let w = randn(11, &[16, 32]);
    let q = Int8Weights::quantize(&w);
    assert_eq!(q.shape, vec![16, 32]);
    assert_eq!(q.data.len(), 16 * 32);
    assert_eq!(q.scales.len(), 16);
}

fn lcg_bytes(seed: &mut u32, n: usize, signed: bool) -> Vec<i8> {
    (0..n)
        .map(|_| {
            *seed = seed.wrapping_mul(1664525).wrapping_add(1013904223);
            let b = (*seed >> 16) as u8;
            if signed {
                b as i8
            } else {
                (b & 0x7f) as i8
            }
        })
        .collect()
}

fn check_igemm(m: usize, k: usize, n: usize) {
    let mut s = 1u32;
    let a_i8 = lcg_bytes(&mut s, m * k, false);
    let b_i8 = lcg_bytes(&mut s, k * n, true);
    let a_u8: Vec<u8> = a_i8.iter().map(|&v| v as u8).collect();
    let expected = igemm_scalar(&a_u8, &b_i8, m, k, n);
    let got = igemm(&a_u8, &b_i8, m, k, n);
    assert_eq!(got.len(), expected.len(), "len mismatch ({m},{k},{n})");
    let mut worst = 0i64;
    for (g, e) in got.iter().zip(expected.iter()) {
        let d = (*g - *e).abs() as i64;
        worst = worst.max(d);
    }
    assert!(
        worst == 0,
        "igemm mismatch ({m},{k},{n}): worst abs diff {worst}"
    );
}

#[test]
fn igemm_known_small() {
    let a: Vec<u8> = vec![1, 2, 3, 4];
    let b: Vec<i8> = vec![1, -1, 2, 2, -3, 4, 0, -2]; // [4,2]
    let c = igemm(&a, &b, 1, 4, 2);
    // c[0] = 1*1+2*2+3*(-3)+4*0 = -4 ; c[1] = 1*(-1)+2*2+3*4+4*(-2) = 7
    assert_eq!(c, vec![-4, 7]);
}

#[test]
fn igemm_matches_scalar_various() {
    check_igemm(16, 32, 48); // multiples of 4/16
    check_igemm(3, 5, 7); // non-multiples → K(×4) and N(×16) padding
    check_igemm(13, 17, 29);
    check_igemm(1, 1, 1);
    check_igemm(4, 4, 16);
    check_igemm(33, 9, 33);
    check_igemm(64, 64, 64); // bigger — blocked/parallel path
}

#[test]
fn packed_bytes_stand_four_by_four() {
    let b: Vec<i8> = vec![1, 2, 3, 4];
    let p = pack_b_vnni(&b, 2, 2, 4, 16);
    assert_eq!(p.len(), 64);
    assert_eq!(p[0], 1);
    assert_eq!(p[1], 3);
    assert_eq!(p[4], 2);
    assert_eq!(p[5], 4);
}

// ---- A network in one piece

#[test]
fn compiled_mlp_learns() {
    let mut m = CompiledMLP::new(&[(8, 16), (16, 16), (16, 4)], 8, F(0.01));
    let x: Vec<F> = (0..64).map(|i| F((i as f32 * 0.1).sin())).collect();
    let t: Vec<F> = (0..32).map(|i| F((i as f32 * 0.1).cos())).collect();
    let l0 = m.step(&x, &t).0;
    for _ in 0..100 {
        m.step(&x, &t);
    }
    let l1 = m.step(&x, &t).0;
    assert!(l1 < l0 * 0.5, "compiled MLP did not learn: {l0:.4} -> {l1:.4}");
}

// ---- Graphics processors

#[test]
fn blas_matmul_correct() {
    let a = [1.0f32, 2.0, 3.0, 4.0];
    let b = [5.0f32, 6.0, 7.0, 8.0];
    let mut c = [0.0f32; 4];
    sgemm(Transpose::NoTrans, Transpose::NoTrans, 2, 2, 2, 1.0, &a, 2, &b, 2, 0.0, &mut c, 2);
    assert!((c[0] - 19.0).abs() < 1e-3);
    assert!((c[3] - 50.0).abs() < 1e-3);
}

#[test]
fn cpu_linear_relu() {
    let x = randn(12, &[4, 8]);
    let w = randn(13, &[3, 8]);
    let b = Tensor::zeros(&[3]);
    let y = gpu::gpu_linear(&x, &w, &b, true, None);
    assert_eq!(y.shape(), vec![4, 3]);
    assert!(raw(&y.data).iter().all(|v| *v >= 0.0));
}

#[test]
fn launches_carry_their_operands() {
    let a = tensor(&[1.0, 2.0, 3.0, 4.0, 5.0, 6.0], &[2, 3]);
    let b = tensor(&[1.0, 0.0, 0.0, 1.0, 1.0, 1.0], &[3, 2]);
    let l = GpuBackend::matmul_ab(&a, &b, F(1.0), F(0.5));
    assert_eq!(l.groups, (1, 1, 1));
    assert_eq!(l.count, 4);
    assert_eq!(l.bindings.len(), 5);
    match (&l.bindings[0], &l.bindings[2], &l.bindings[3], &l.bindings[4]) {
        (Binding::Input(x), Binding::Output(n), Binding::Uniform(d), Binding::Uniform(s)) => {
            assert_eq!(x[4..8], 2.0f32.to_le_bytes());
            assert_eq!(*n, 16);
            assert_eq!(d[..], [2, 0, 0, 0, 2, 0, 0, 0, 3, 0, 0, 0, 0, 0, 0, 0]);
            assert_eq!(s[4..8], 0.5f32.to_le_bytes());
        }
        _ => panic!("the operands are not where they belong"),
    }
    let f = GpuBackend::fused_linear(&randn(1, &[70, 3]), &randn(2, &[2, 3]), &randn(3, &[2]), true);
    assert_eq!(f.groups, (3, 1, 1));
    let t = GpuBackend::flash_attention(&a, &a, &a, F(0.5));
    match &t.bindings[4] {
        Binding::Uniform(d) => assert_eq!(d[8..12], 0.5f32.to_bits().to_le_bytes()),
        _ => panic!("the sizes are not where they belong"),
    }
    let r = GpuBackend::activation(&a, 0);
    assert_eq!(r.count, 6);
}

#[test]
fn what_comes_back_has_the_shape_of_the_result() {
    let mut bytes = Vec::new();
    for v in 0..16 {
        bytes.extend((v as f32).to_le_bytes());
    }
    let t: Tensor<F> = GpuBackend::read_back(&bytes[..16], &[4]);
    assert_eq!(t.shape(), vec![4]);
    assert_eq!(raw(&t.data), vec![0.0, 1.0, 2.0, 3.0]);
    let a = randn(1, &[2, 3]);
    let p = gpu::gpu_matmul(&a, &randn(2, &[3, 8]), Some(&bytes));
    assert_eq!(p.shape(), vec![2, 8]);
    assert_eq!(raw(&p.data), (0..16).map(|v| v as f32).collect::<Vec<f32>>());
    assert_eq!(gpu::gpu_matmul(&a, &randn(2, &[3, 8]), None).shape(), vec![2, 8]);
    let b = Tensor::zeros(&[8]);
    let y = gpu::gpu_linear(&a, &randn(3, &[8, 3]), &b, true, Some(&bytes));
    assert_eq!(y.shape(), vec![2, 8]);
    let q = randn(4, &[8, 2]);
    assert_eq!(gpu::gpu_attention(&q, &q, &q, F(1.0), Some(&bytes)).shape(), vec![8, 2]);
    assert_eq!(gpu::gpu_relu(&q, Some(&bytes)).shape(), vec![8, 2]);
    let m = tensor(&[1.0, -1.0], &[2]);
    assert_eq!(raw(&gpu::gpu_relu(&m, None).data), vec![1.0, 0.0]);
    assert_eq!(raw(&gpu::gpu_add(&m, &m).data), vec![2.0, -2.0]);
    assert_eq!(raw(&gpu::gpu_mul(&m, &m).data), vec![1.0, 1.0]);
    assert!(gpu::ACTIVATION_SHADER.contains("exp(x) / (1.0 + exp(x))"));
}

#[test]
fn attention_over_matrices() {
    let q = tensor(&[1.0, 0.0], &[1, 2]);
    let k = tensor(&[1.0, 0.0, 1.0, 0.0], &[2, 2]);
    let v = tensor(&[2.0, 4.0, 6.0, 8.0], &[2, 2]);
    let out = gpu::gpu_attention(&q, &k, &v, F(1.0), None);
    assert_eq!(out.shape(), vec![1, 2]);
    assert!(max_abs_diff(&raw(&out.data), &[4.0, 6.0]) < 1e-5);
}

#[test]
fn arithmetic_intensity_positive() {
    for backend in [GpuBackendKind::Nvidia, GpuBackendKind::Amd, GpuBackendKind::Apple] {
        let cfg = TileConfig::for_backend(backend);
        let v: F = cfg.arithmetic_intensity();
        assert!(v.0 > 0.0, "{backend:?} intensity should be positive");
    }
}

#[test]
fn kernel_matmul_correctness() {
    let a = tensor(&[1.0, 2.0, 3.0, 4.0], &[2, 2]);
    let b = tensor(&[5.0, 6.0, 7.0, 8.0], &[2, 2]);
    let mut settled = None;
    let (c, backend) = kernel_matmul(&a, &b, &mut settled, GpuBackendKind::Cpu);
    let d = raw(&c.data);
    assert!((d[0] - 19.0).abs() < 1e-3, "matmul[0,0]: {} vs 19", d[0]);
    assert!((d[3] - 50.0).abs() < 1e-3, "matmul[1,1]: {} vs 50", d[3]);
    assert_eq!(backend.name(), "CPU (SIMD)");
}

#[test]
fn kernel_matmul_with_explicit_backend() {
    let a = tensor(&[1.0, 2.0, 3.0, 4.0, 5.0, 6.0], &[2, 3]);
    let b = tensor(&[1.0, 2.0, 3.0, 4.0, 5.0, 6.0], &[3, 2]);
    let (c, _) = kernel_matmul_with_backend(&a, &b, GpuBackendKind::Cpu);
    assert_eq!(c.shape(), vec![2, 2]);
}

#[test]
fn backend_report_is_informative() {
    let report = backend_report::<F>(GpuBackendKind::Amd);
    assert!(report.contains("Backend Report"));
    assert!(report.contains("Tile"));
    assert!(report.contains("Arith intensity"));
    assert!(report.contains("ACTIVE"));
    assert!(report.contains("AMD ROCm (HIP) [ACTIVE]\n    Tile: BM=128 BN=256 BK=64"));
    assert!(report.contains("Shared mem: 96.0 KB\n    Arith intensity: 0.3 FMA/byte"));
}

#[test]
fn kernel_matmul_larger() {
    let m = 32;
    let k = 16;
    let n = 24;
    let a = randn(14, &[m, k]);
    let b = randn(15, &[k, n]);
    let mut settled = None;
    let (c, _) = kernel_matmul(&a, &b, &mut settled, GpuBackendKind::Cpu);
    assert_eq!(c.shape(), vec![m, n]);
    assert!(raw(&c.data).iter().all(|v| v.is_finite()));
}

// ---- Fewer bits

#[test]
fn int8_roundtrip() {
    let t = tensor(&[0.1, 0.5, -0.3, 0.8, -0.9, 0.0], &[2, 3]);
    let q = QuantizedTensor::quantize(&t, QuantFormat::INT8, 0);
    let d = q.dequantize();
    for (o, r) in raw(&t.data).iter().zip(raw(&d.data).iter()) {
        assert!((o - r).abs() < 0.05, "INT8 error too large: {o} vs {r}");
    }
}

#[test]
fn int4_compression() {
    let t = randn(16, &[64, 128]);
    let q = QuantizedTensor::quantize(&t, QuantFormat::INT4, 32);
    assert!(q.compression_ratio().0 > 5.0, "INT4 should compress >5x");
    let d = q.dequantize();
    assert_eq!(d.shape(), vec![64, 128]);
}

#[test]
fn nf4_lower_error_than_int4() {
    let t = randn(17, &[256]);
    let q_nf4 = QuantizedTensor::quantize(&t, QuantFormat::NF4, 64);
    let q_int4 = QuantizedTensor::quantize(&t, QuantFormat::INT4, 64);
    let err_nf4 = q_nf4.quantization_error(&t).0;
    let err_int4 = q_int4.quantization_error(&t).0;
    println!("NF4 error: {err_nf4:.6}, INT4 error: {err_int4:.6}");
    assert!(
        err_nf4 <= err_int4 * 1.5,
        "NF4 error ({err_nf4}) should be <= INT4 error ({err_int4}) * 1.5"
    );
}

#[test]
fn nvfp4_roundtrip() {
    let t = tensor(&[0.0, 0.5, 1.0, -1.5, 3.0, -6.0, 2.0, -0.5], &[4, 2]);
    let q = QuantizedTensor::quantize(&t, QuantFormat::NVFP4, 8);
    let deq = raw(&q.dequantize().data);
    assert!(deq[0].abs() < 0.01, "0 should map to 0");
    assert!((deq[5] - (-6.0)).abs() < 0.1, "-6 should be representable");
}

#[test]
fn fp16_roundtrip() {
    let t = tensor(&[1.0, 0.5, -0.25, 100.0, -1000.0, 0.001], &[6]);
    let q = QuantizedTensor::quantize(&t, QuantFormat::FP16, 0);
    let d = q.dequantize();
    for (o, r) in raw(&t.data).iter().zip(raw(&d.data).iter()) {
        assert!((o - r).abs() / o.abs().max(1e-6) < 0.01, "FP16 error too large: {o} vs {r}");
    }
}

#[test]
fn bf16_roundtrip() {
    let t = tensor(&[1.0, -2.5, 100.0, -1000.0], &[4]);
    let q = QuantizedTensor::quantize(&t, QuantFormat::BF16, 0);
    let d = q.dequantize();
    for (o, r) in raw(&t.data).iter().zip(raw(&d.data).iter()) {
        assert!((o - r).abs() < 1.0, "BF16 error: {o} vs {r}");
    }
}

#[test]
fn gguf_q4_roundtrip() {
    let t = randn(18, &[32]);
    let q = QuantizedTensor::quantize(&t, QuantFormat::GGUF_Q4, 32);
    let d = q.dequantize();
    assert_eq!(d.shape(), vec![32]);
    let err = q.quantization_error(&t).0;
    assert!(err < 0.5, "GGUF Q4_0 error too large: {err}");
}

#[test]
fn gguf_q8_low_error() {
    let t = randn(19, &[64]);
    let q = QuantizedTensor::quantize(&t, QuantFormat::GGUF_Q8, 32);
    let err = q.quantization_error(&t).0;
    assert!(err < 0.05, "GGUF Q8_0 error too large: {err}");
}

#[test]
fn quantized_linear_forward() {
    let layer = Linear::new(8, 4, true, &mut draws(20, 32));
    let ql = QuantizedLinear::from_linear(&layer, QuantFormat::INT8, 0);
    let x = randn(21, &[2, 8]);
    let y = ql.forward(&x);
    assert_eq!(y.shape(), vec![2, 4]);
    assert!(max_abs_diff(&raw(&y.data), &raw(&layer.forward(&x).data)) < 0.2);
}

#[test]
fn quantized_model_compression() {
    let mut d = draws(22, 64 * 128 * 2);
    let model = Sequential::new()
        .add(Layer::Linear(Linear::new(64, 128, true, &mut d)))
        .add(Layer::ReLU(ReLU))
        .add(Layer::Linear(Linear::new(128, 64, true, &mut d)));
    let q_model: QuantizedModel<F> = QuantizedModel::from_model(&model, QuantFormat::INT4, 32);
    assert!(q_model.compression_ratio().0 > 4.0, "should compress >4x");
}

#[test]
fn all_formats_produce_valid_output() {
    let t = randn(23, &[16, 16]);
    for format in [
        QuantFormat::FP16,
        QuantFormat::BF16,
        QuantFormat::INT8,
        QuantFormat::INT4,
        QuantFormat::NF4,
        QuantFormat::NVFP4,
        QuantFormat::GGUF_Q4,
        QuantFormat::GGUF_Q8,
    ] {
        let q = QuantizedTensor::quantize(&t, format, 32);
        let d = q.dequantize();
        assert_eq!(d.shape(), vec![16, 16], "{:?} wrong shape", format);
        assert!(raw(&d.data).iter().all(|v| v.is_finite()), "{:?} has non-finite values", format);
    }
}

#[test]
fn format_bits_and_compression() {
    assert_eq!(QuantFormat::FP16.bits(), 16);
    assert_eq!(QuantFormat::INT8.bits(), 8);
    assert_eq!(QuantFormat::NF4.bits(), 4);
    assert_eq!(QuantFormat::NVFP4.bits(), 4);
    let r: F = QuantFormat::INT4.compression_ratio();
    assert!((r.0 - 8.0).abs() < 0.1);
}

#[test]
fn f16_conversion_special_values() {
    assert_eq!(f32_to_f16(F(0.0)), 0);
    assert_eq!(f16_to_f32::<F>(0).0, 0.0);
    assert!((f16_to_f32::<F>(f32_to_f16(F(1.0))).0 - 1.0).abs() < 0.01);
    let inf_bits = f32_to_f16(F(f32::INFINITY));
    assert_eq!(inf_bits & 0x7C00, 0x7C00);
}

#[test]
fn halves_keep_their_values() {
    assert_eq!(f16_to_f32::<F>(1).0, 2.0f32.powi(-24));
    assert_eq!(f16_to_f32::<F>(0x3555).0, 0.33325195);
    assert_eq!(f32_to_f16(F(-2.5)), 0xC100);
    assert_eq!(f16_to_f32::<F>(f32_to_f16(F(f32::NEG_INFINITY))).0, f32::NEG_INFINITY);
    assert_eq!(f32_to_bf16(F(1.0)), 0x3F80);
    assert_eq!(bf16_to_f32::<F>(0x4049).0, 3.140625);
}

#[test]
fn group_size_affects_error() {
    let t = randn(24, &[256]);
    let q_small = QuantizedTensor::quantize(&t, QuantFormat::INT4, 32);
    let q_large = QuantizedTensor::quantize(&t, QuantFormat::INT4, 256);
    let err_small = q_small.quantization_error(&t).0;
    let err_large = q_large.quantization_error(&t).0;
    assert!(err_small <= err_large, "smaller groups should have lower error");
}

#[test]
fn restored_values_stay_as_they_are() {
    let t = randn(25, &[8, 8]);
    for format in [QuantFormat::FP16, QuantFormat::BF16] {
        let once = QuantizedTensor::quantize(&t, format, 0);
        let again = QuantizedTensor::quantize(&once.dequantize(), format, 0);
        assert_eq!(once.data, again.data);
    }
}

// ---- Rotors

#[test]
fn rotor_is_norm_preserving() {
    let all: RotorQuant<F> = RotorQuant::with_seed(300, 4, 42);
    for r in &all.rotors {
        let rot = r.rotation_matrix();
        for i in 0..3 {
            for j in 0..3 {
                let dot = (0..3).map(|k| rot[i][k].0 * rot[j][k].0).sum::<f32>();
                let expected = if i == j { 1.0 } else { 0.0 };
                assert!((dot - expected).abs() < 1e-4, "rotor not orthogonal: {dot}");
            }
        }
    }
}

#[test]
fn sandwich_inverse_round_trips() {
    let r = RotorQuant::with_seed(3, 4, 7).rotors[0];
    let v = fs(&[0.0, 0.3, -1.7, 2.1, 0.0, 0.0, 0.0, 0.0]);
    let mut x: MV<F> = [F(0.0); 8];
    x.copy_from_slice(&v);
    let y = r.sandwich(x);
    let x_rec = r.inv_sandwich(y);
    for i in 0..8 {
        assert!((x[i].0 - x_rec[i].0).abs() < 1e-5, "sandwich inverse failed at {i}");
    }
}

#[test]
fn a_quarter_turn_turns_by_a_quarter() {
    let r = Rotor::random(F(1.0), F(0.0), F(0.0), F(std::f32::consts::FRAC_PI_2));
    let mut x: MV<F> = [F(0.0); 8];
    x[1] = F(1.0);
    let y = r.sandwich(x);
    assert!(y[1].0.abs() < 1e-6);
    assert!((y[2].0.abs() - 1.0).abs() < 1e-6);
    assert!(y[3].0.abs() < 1e-6);
}

#[test]
fn turning_back_scales_by_the_norm_exactly() {
    let r = Rotor { s: 2i32, p12: 3, p13: -1, p23: 5 };
    let x: MV<i32> = [0, 7, -2, 11, 0, 0, 0, 0];
    let back = r.inv_sandwich(r.sandwich(x));
    let norm = 4 + 9 + 1 + 25;
    for i in 0..8 {
        assert_eq!(back[i], norm * norm * x[i]);
    }
}

#[test]
fn turning_keeps_the_length_exactly() {
    let r = Rotor { s: 2i32, p12: 3, p13: -1, p23: 5 };
    let x: MV<i32> = [4, 7, -2, 11, 1, -3, 2, 6];
    let y = r.sandwich(x);
    let length = |v: MV<i32>| v.iter().map(|c| c * c).sum::<i32>();
    assert_eq!(length(y), 39 * 39 * length(x));
}

#[test]
fn the_matrix_does_what_the_rotor_does() {
    let r = Rotor { s: 2i32, p12: 3, p13: -1, p23: 5 };
    let m = r.rotation_matrix();
    let y = r.sandwich([0, 7, -2, 11, 0, 0, 0, 0]);
    for i in 0..3 {
        assert_eq!(m[i][0] * 7 - m[i][1] * 2 + m[i][2] * 11, y[i + 1]);
    }
}

#[test]
fn seeded_rotors_follow_the_generator() {
    let mut g = StdRng::seed_from_u64(123);
    let rq: RotorQuant<F> = RotorQuant::with_seed(12, 4, 123);
    assert_eq!(rq.rotors.len(), 4);
    for r in &rq.rotors {
        let (a, b, c): (f32, f32, f32) =
            (g.gen_range(-1.0..1.0), g.gen_range(-1.0..1.0), g.gen_range(-1.0..1.0));
        let theta: f32 = g.gen_range(0.0..std::f32::consts::PI);
        let e = Rotor::random(F(a), F(b), F(c), F(theta));
        assert_eq!(raw(&[r.s, r.p12, r.p13, r.p23]), raw(&[e.s, e.p12, e.p13, e.p23]));
    }
    let usual: RotorQuant<F> = RotorQuant::new(3, 4);
    let same: RotorQuant<F> = RotorQuant::with_seed(3, 4, 0xC11F_C0DE);
    assert_eq!(usual.rotors[0].s, same.rotors[0].s);
    assert_ne!(usual.rotors[0].s, rq.rotors[0].s);
}

#[test]
fn rotorquant_round_trips_with_bounded_error() {
    let dim = 12;
    let rq = RotorQuant::with_seed(dim, 4, 123);
    let data: Vec<f32> = (0..dim).map(|i| (i as f32) * 0.37 - 1.5).collect();
    let t = tensor(&data, &[dim]);
    let q = rq.quantize(&t);
    let qd = raw(&q.data);
    let mut max_err = 0.0f32;
    for i in 0..dim {
        max_err = max_err.max((qd[i] - data[i]).abs());
    }
    let range = data.iter().copied().fold(-f32::INFINITY, f32::max)
        - data.iter().copied().fold(f32::INFINITY, f32::min);
    assert!(max_err < 0.15 * range, "quantization error too large: {max_err} (range {range})");
}

#[test]
fn rotorquant_preserves_shape_and_handles_remainder() {
    let dim = 10;
    let rq = RotorQuant::new(dim, 3);
    let rows = 2;
    let data: Vec<f32> = (0..rows * dim).map(|i| i as f32).collect();
    let t = tensor(&data, &[rows, dim]);
    let q = rq.quantize(&t);
    assert_eq!(q.shape(), vec![rows, dim]);
}

#[test]
fn rotorquant_batched_2d() {
    let dim = 6;
    let rq = RotorQuant::new(dim, 4);
    let t = randn(26, &[5, dim]);
    let q = rq.quantize(&t);
    assert_eq!(q.shape(), vec![5, dim]);
}

// ---- Many workers

#[test]
fn ring_all_reduce_2_workers() {
    let n = 8;
    let mut workers = vec![fs(&vec![1.0f32; n]), fs(&vec![2.0f32; n])];
    distributed::ring_all_reduce_all(&mut workers, 2);
    for w in &workers {
        for v in w {
            assert!((v.0 - 3.0).abs() < 1e-5, "value should be 3.0, got {}", v.0);
        }
    }
}

#[test]
fn ring_all_reduce_4_workers() {
    let n = 12;
    let mut workers: Vec<Vec<F>> = (0..4).map(|r| vec![F(r as f32 + 1.0); n]).collect();
    distributed::ring_all_reduce_all(&mut workers, 4);
    for w in &workers {
        for v in w {
            assert!((v.0 - 10.0).abs() < 1e-4, "value should be 10.0, got {}", v.0);
        }
    }
}

#[test]
fn ring_all_reduce_single_worker_noop() {
    let mut workers = vec![fs(&[1.0, 2.0, 3.0])];
    distributed::ring_all_reduce_all(&mut workers, 1);
    assert_eq!(raw(&workers[0]), vec![1.0, 2.0, 3.0]);
}

#[test]
fn average_gradients_correct() {
    let mut data = fs(&[10.0, 20.0, 30.0]);
    distributed::average_gradients(&mut data, 4);
    assert!((data[0].0 - 2.5).abs() < 1e-6);
    assert!((data[1].0 - 5.0).abs() < 1e-6);
    assert!((data[2].0 - 7.5).abs() < 1e-6);
}

#[test]
fn data_sharding_no_overlap() {
    let shard = |r: usize| DistributedConfig::<F>::new(r, 4).shard_range(100);
    assert_eq!(shard(0), (0, 25));
    assert_eq!(shard(1), (25, 50));
    assert_eq!(shard(2), (50, 75));
    assert_eq!(shard(3), (75, 100));
}

#[test]
fn data_sharding_with_remainder() {
    let total = 100;
    let (s0, e0) = DistributedConfig::<F>::new(0, 3).shard_range(total);
    let (s1, e1) = DistributedConfig::<F>::new(1, 3).shard_range(total);
    let (s2, e2) = DistributedConfig::<F>::new(2, 3).shard_range(total);
    assert_eq!(e0 - s0, 34);
    assert_eq!(e1 - s1, 33);
    assert_eq!(e2 - s2, 33);
    assert_eq!(e0 + (e1 - s1) + (e2 - s2), total);
}

#[test]
fn lr_scaling() {
    let cfg = DistributedConfig::<F>::new(0, 8);
    assert!((cfg.effective_lr(F(0.001)).0 - 0.008).abs() < 1e-9);
    let cfg2 = DistributedConfig { scale_lr: false, ..DistributedConfig::<F>::new(0, 8) };
    assert!((cfg2.effective_lr(F(0.001)).0 - 0.001).abs() < 1e-9);
}

#[test]
fn local_batch_size() {
    let cfg = DistributedConfig::<F>::new(0, 4);
    assert_eq!(cfg.local_batch_size(128), 32);
    assert_eq!(cfg.local_batch_size(4), 1);
}

#[test]
fn message_serialize_deserialize() {
    let msg = Message::gradient_chunk(&fs(&[1.0, 2.0, 3.0]));
    let bytes = msg.serialize();
    let decoded = Message::deserialize(&bytes).unwrap();
    assert_eq!(decoded.msg_type, MessageType::GradientChunk);
    let floats: Vec<F> = decoded.as_floats();
    assert_eq!(raw(&floats), vec![1.0, 2.0, 3.0]);
}

#[test]
fn message_truncated_rejected() {
    let msg = Message::gradient_chunk(&fs(&[1.0, 2.0]));
    let bytes = msg.serialize();
    let truncated = &bytes[..bytes.len() - 2];
    assert!(Message::deserialize(truncated).is_none());
}

#[test]
fn gradient_clipping() {
    let model = Sequential::new().add(Linear::new(4, 4, true, &mut draws(27, 16)));
    let mut params = model.parameters();
    for p in &mut params {
        p.grad = Some(vec![F(100.0); p.data.len()]);
    }
    clip_gradients(&mut params, F(1.0));
    let mut norm_sq = 0.0f32;
    for p in &params {
        if let Some(g) = &p.grad {
            norm_sq += raw(g).iter().map(|v| v * v).sum::<f32>();
        }
    }
    assert!(
        norm_sq.sqrt() <= 1.01,
        "gradient norm should be <= 1.0 after clipping, got {}",
        norm_sq.sqrt()
    );
}

#[test]
fn flatten_unflatten_roundtrip() {
    let mut params = vec![tensor(&[1.0, 2.0, 3.0, 4.0], &[2, 2]), tensor(&[5.0, 6.0], &[2])];
    params[0].grad = Some(fs(&[1.0; 4]));
    params[1].grad = Some(fs(&[2.0; 2]));
    let flat = flatten_gradients(&params);
    assert_eq!(flat.len(), 6);
    let modified: Vec<F> = flat.iter().map(|v| F(v.0 * 3.0)).collect();
    unflatten_gradients(&mut params, &modified);
    assert!((params[0].grad.as_ref().unwrap()[0].0 - 3.0).abs() < 1e-5, "should be 3.0");
    assert!((params[1].grad.as_ref().unwrap()[0].0 - 6.0).abs() < 1e-5, "should be 6.0");
}

#[test]
fn distributed_worker_standalone() {
    let worker = DistributedWorker::<F>::standalone(2, 4);
    assert_eq!(worker.config.rank, 2);
    assert_eq!(worker.config.world_size, 4);
}

#[test]
fn random_numbers_lie_in_the_unit() {
    let v: Vec<F> = random_units(1000);
    assert_eq!(v.len(), 1000);
    assert!(v.iter().all(|x| (0.0..1.0).contains(&x.0)));
    let first = v[0].0;
    assert!(v.iter().any(|x| x.0 != first));
}

#[test]
fn later_positions_do_not_matter() {
    let (seq, d) = (5, 3);
    let q: Vec<f32> = (0..seq * d).map(|i| (i as f32 * 0.37).sin()).collect();
    let k: Vec<f32> = (0..seq * d).map(|i| (i as f32 * 0.21).cos()).collect();
    let v: Vec<f32> = (0..seq * d).map(|i| i as f32 * 0.1 - 0.6).collect();
    let other = |x: &[f32]| -> Vec<f32> {
        x.iter().enumerate().map(|(i, y)| if i < 3 * d { *y } else { y + 2.0 }).collect()
    };
    for kind in [KernelKind::Elu, KernelKind::Relu2] {
        let a = linear_attention_forward(&q, &k, &v, 1, seq, d, 0.5, 1e-6, true, kind);
        let b = linear_attention_forward(
            &other(&q),
            &other(&k),
            &other(&v),
            1,
            seq,
            d,
            0.5,
            1e-6,
            true,
            kind,
        );
        assert_eq!(a[..3 * d], b[..3 * d]);
        assert_ne!(a[3 * d..], b[3 * d..]);
    }
}

#[test]
fn short_numbers_travel_as_bits() {
    let three: Short = Short::count(3);
    let half = Short::one().over(Short::count(2));
    let sent = [three.times(half), three.neg()];
    let back: Vec<Short> = Message::gradient_chunk(&sent).as_floats();
    assert_eq!(back, sent);
    assert_eq!(back[0].raw, 98304);
    assert_eq!(back[1].whole(), -3);
    assert_eq!(Short::from_bits(u32::MAX).raw, -1);
}

#[test]
fn groups_of_odd_size_come_back() {
    let t = Tensor::from_vec(
        [7.0, 1.0, 2.0, 7.0, 3.0, 4.0].iter().map(|x| F(*x)).collect(),
        vec![6],
    );
    let q = QuantizedTensor::quantize(&t, QuantFormat::INT4, 3);
    let back = q.dequantize();
    assert_eq!(back.shape, vec![6]);
    let numbers: Vec<f32> = back.data.iter().map(|x| x.0).collect();
    assert_eq!(numbers, vec![7.0, 1.0, 2.0, 7.0, 3.0, 4.0]);
    for f in [QuantFormat::NF4, QuantFormat::NVFP4] {
        let again = QuantizedTensor::quantize(&t, f, 3).dequantize();
        assert_eq!(again.data[3].0, 7.0);
    }
}
