//! Kernels for graphics processors: which kind of processor is there, how its tiles are cut,
//! and the sources of the matrix products for each kind.
use vstd::prelude::*;
use crate::format::Textual;
use crate::number::Real;
use crate::optim;
use crate::optim::fraction;
use crate::tensor;
use crate::tensor::Tensor;
use crate::text;
use crate::text::{chars_of, push_chars, push_decimal, push_text, string_of};

verus! {

/// The kinds of processors.
#[derive(Debug, Clone, Copy, PartialEq, Eq, Structural)]
pub enum GpuBackendKind {
    /// NVIDIA, through CUDA.
    Nvidia,
    /// AMD, through ROCm.
    Amd,
    /// Apple, through Metal.
    Apple,
    /// WebGPU.
    WebGpu,
    /// No graphics processor.
    Cpu,
}

pub open spec fn kind_text(k: GpuBackendKind) -> Seq<char> {
    match k {
        GpuBackendKind::Nvidia => "NVIDIA CUDA (PTX)"@,
        GpuBackendKind::Amd => "AMD ROCm (HIP)"@,
        GpuBackendKind::Apple => "Apple Metal (MSL)"@,
        GpuBackendKind::WebGpu => "WebGPU (Vulkan/DX12/Metal)"@,
        GpuBackendKind::Cpu => "CPU (SIMD)"@,
    }
}

impl GpuBackendKind {
    /// What the kind is called.
    pub fn name(&self) -> (r: &'static str)
        ensures
            r@ == kind_text(*self),
    {
        match self {
            GpuBackendKind::Nvidia => "NVIDIA CUDA (PTX)",
            GpuBackendKind::Amd => "AMD ROCm (HIP)",
            GpuBackendKind::Apple => "Apple Metal (MSL)",
            GpuBackendKind::WebGpu => "WebGPU (Vulkan/DX12/Metal)",
            GpuBackendKind::Cpu => "CPU (SIMD)",
        }
    }
}

// ---- Which kind is there

/// Paths of which one exists where CUDA is installed.
pub fn cuda_markers() -> (r: Vec<&'static str>)
    ensures
        r@.len() == 3,
        r@[0]@ == "/usr/lib/x86_64-linux-gnu/libcuda.so"@,
        r@[1]@ == "/usr/lib/x86_64-linux-gnu/libcuda.so.1"@,
        r@[2]@ == "/usr/local/cuda"@,
{
    vec![
        "/usr/lib/x86_64-linux-gnu/libcuda.so",
        "/usr/lib/x86_64-linux-gnu/libcuda.so.1",
        "/usr/local/cuda",
    ]
}

/// Paths of which one exists where ROCm is installed.
pub fn rocm_markers() -> (r: Vec<&'static str>)
    ensures
        r@.len() == 3,
        r@[0]@ == "/dev/kfd"@,
        r@[1]@ == "/opt/rocm"@,
        r@[2]@ == "/dev/dri/renderD128"@,
{
    vec!["/dev/kfd", "/opt/rocm", "/dev/dri/renderD128"]
}

fn any(v: &[bool]) -> (r: bool)
    ensures
        r == v@.contains(true),
{
    for i in 0..v.len()
        invariant
            forall|k: int| 0 <= k < i ==> !#[trigger] v@[k],
    {
        if v[i] {
            assert(v@[i as int] == true);
            return true;
        }
    }
    false
}

/// The best kind, given which of the paths exist and whether Metal and WebGPU are there.
pub fn detect_backend(cuda: &[bool], rocm: &[bool], metal: bool, webgpu: bool) -> (r:
    GpuBackendKind)
    ensures
        r == (if cuda@.contains(true) {
            GpuBackendKind::Nvidia
        } else if rocm@.contains(true) {
            GpuBackendKind::Amd
        } else if metal {
            GpuBackendKind::Apple
        } else if webgpu {
            GpuBackendKind::WebGpu
        } else {
            GpuBackendKind::Cpu
        }),
{
    if any(cuda) {
        GpuBackendKind::Nvidia
    } else if any(rocm) {
        GpuBackendKind::Amd
    } else if metal {
        GpuBackendKind::Apple
    } else if webgpu {
        GpuBackendKind::WebGpu
    } else {
        GpuBackendKind::Cpu
    }
}

/// The kind in use: the one that was settled on last, or else the one that is found.
pub fn active_backend(settled: &mut Option<GpuBackendKind>, detected: GpuBackendKind) -> (r:
    GpuBackendKind)
    ensures
        r == (match *old(settled) {
            Some(k) => k,
            None => detected,
        }),
        *final(settled) == Some(r),
{
    match *settled {
        Some(k) => k,
        None => {
            *settled = Some(detected);
            detected
        },
    }
}

/// Settles on a kind, in place of one that was settled on before.
pub fn set_backend(settled: &mut Option<GpuBackendKind>, backend: GpuBackendKind)
    ensures
        *final(settled) == Some(backend),
{
    *settled = Some(backend);
}

// ---- Tiles

/// How a matrix product is cut into tiles.
#[derive(Debug, Clone, Copy, PartialEq, Eq, Structural)]
pub struct TileConfig {
    /// Rows of the product for each block.
    pub bm: usize,
    /// Columns of the product for each block.
    pub bn: usize,
    /// The part of the sums for each step.
    pub bk: usize,
    /// Rows for each thread.
    pub tm: usize,
    /// Columns for each thread.
    pub tn: usize,
    /// How many threads run together.
    pub warp_size: usize,
}

/// The tiles of each kind.
pub open spec fn tiles(k: GpuBackendKind) -> TileConfig {
    match k {
        GpuBackendKind::Nvidia => TileConfig {
            bm: 128,
            bn: 128,
            bk: 32,
            tm: 8,
            tn: 8,
            warp_size: 32,
        },
        GpuBackendKind::Amd => TileConfig {
            bm: 128,
            bn: 256,
            bk: 64,
            tm: 4,
            tn: 4,
            warp_size: 64,
        },
        GpuBackendKind::Apple => TileConfig {
            bm: 64,
            bn: 64,
            bk: 16,
            tm: 8,
            tn: 8,
            warp_size: 32,
        },
        _ => TileConfig { bm: 64, bn: 256, bk: 256, tm: 1, tn: 1, warp_size: 1 },
    }
}

impl TileConfig {
    pub fn nvidia() -> (r: Self)
        ensures
            r == tiles(GpuBackendKind::Nvidia),
    {
        TileConfig { bm: 128, bn: 128, bk: 32, tm: 8, tn: 8, warp_size: 32 }
    }

    pub fn amd() -> (r: Self)
        ensures
            r == tiles(GpuBackendKind::Amd),
    {
        TileConfig { bm: 128, bn: 256, bk: 64, tm: 4, tn: 4, warp_size: 64 }
    }

    pub fn apple() -> (r: Self)
        ensures
            r == tiles(GpuBackendKind::Apple),
    {
        TileConfig { bm: 64, bn: 64, bk: 16, tm: 8, tn: 8, warp_size: 32 }
    }

    pub fn cpu() -> (r: Self)
        ensures
            r == tiles(GpuBackendKind::Cpu),
    {
        TileConfig { bm: 64, bn: 256, bk: 256, tm: 1, tn: 1, warp_size: 1 }
    }

    /// The tiles of a kind.
    pub fn for_backend(backend: GpuBackendKind) -> (r: Self)
        ensures
            r == tiles(backend),
    {
        match backend {
            GpuBackendKind::Nvidia => Self::nvidia(),
            GpuBackendKind::Amd => Self::amd(),
            GpuBackendKind::Apple => Self::apple(),
            _ => Self::cpu(),
        }
    }

    /// The bytes of a tile of each operand.
    pub open spec fn tile_bytes(&self) -> int {
        (self.bm * self.bk + self.bk * self.bn) * 4
    }

    /// The bytes of shared memory that a block takes.
    pub fn shared_mem_bytes(&self) -> (r: usize)
        requires
            self.tile_bytes() <= usize::MAX,
        ensures
            r == self.tile_bytes(),
    {
        proof {
            assert(0 <= self.bm * self.bk && 0 <= self.bk * self.bn) by (nonlinear_arith);
        }
        (self.bm * self.bk + self.bk * self.bn) * 4
    }

    /// How many products there are for each byte that is loaded.
    pub fn arithmetic_intensity<S: Real>(&self) -> (r: S)
        requires
            self.bm * self.bn <= usize::MAX,
            self.tile_bytes() <= usize::MAX,
        ensures
            r == optim::ratio::<S>((self.bm * self.bn) as usize, self.tile_bytes() as usize),
    {
        fraction(self.bm * self.bn, self.shared_mem_bytes())
    }
}

// ---- Products

/// The product on the kind in use.
pub fn kernel_matmul<S: Real>(
    a: &Tensor<S>,
    b: &Tensor<S>,
    settled: &mut Option<GpuBackendKind>,
    detected: GpuBackendKind,
) -> (r: (Tensor<S>, GpuBackendKind))
    requires
        a.wf(),
        b.wf(),
        tensor::matmul_fits(a@, b@),
    ensures
        r.0.wf(),
        r.0@ == tensor::matmul_value(a@, b@),
        r.1 == (match *old(settled) {
            Some(k) => k,
            None => detected,
        }),
        *final(settled) == Some(r.1),
{
    let backend = active_backend(settled, detected);
    kernel_matmul_with_backend(a, b, backend)
}

/// The product on a given kind.
pub fn kernel_matmul_with_backend<S: Real>(
    a: &Tensor<S>,
    b: &Tensor<S>,
    backend: GpuBackendKind,
) -> (r: (Tensor<S>, GpuBackendKind))
    requires
        a.wf(),
        b.wf(),
        tensor::matmul_fits(a@, b@),
    ensures
        r.0.wf(),
        r.0@ == tensor::matmul_value(a@, b@),
        r.1 == backend,
{
    (a.matmul(b), backend)
}

// ---- Sources

/// The product for NVIDIA, in PTX.
pub const NVIDIA_PTX_KERNEL: &'static str = r#"
.version 8.0
.target sm_80
.address_size 64

// SGEMM: C[m,n] = A[m,k] @ B[k,n]
// Shared-memory-tiled, register-blocked. TM=8, TN=1 per thread.
// Block: 16x16 threads, each computing 8 output elements.
.visible .entry sgemm_kernel(
    .param .u64 .ptr .align 16 .global A_param,
    .param .u64 .ptr .align 16 .global B_param,
    .param .u64 .ptr .align 16 .global C_param,
    .param .u32 M_param,
    .param .u32 N_param,
    .param .u32 K_param
)
{
    .reg .pred %p<4>;
    .reg .b32 %r<20>;
    .reg .f32 %f<40>;
    .reg .b64 %rd<12>;

    // Shared memory tiles: 16x16 each (A tile and B tile).
    .shared .align 16 .b8 As[1024];   // 16*16*4 = 1024 bytes
    .shared .align 16 .b8 Bs[1024];

    // Load parameters.
    ld.param.u64 %rd1, [A_param];     // A pointer
    ld.param.u64 %rd2, [B_param];     // B pointer
    ld.param.u64 %rd3, [C_param];     // C pointer
    ld.param.u32 %r1, [M_param];      // M
    ld.param.u32 %r2, [N_param];      // N
    ld.param.u32 %r3, [K_param];      // K

    // Thread/block indices.
    mov.u32 %r4, %tid.x;              // threadIdx.x
    mov.u32 %r5, %tid.y;              // threadIdx.y
    mov.u32 %r6, %ctaid.x;            // blockIdx.x
    mov.u32 %r7, %ctaid.y;            // blockIdx.y

    // Compute global row/col for this thread.
    // row = blockIdx.y * 16 + threadIdx.y  (each thread computes 8 rows)
    mad.lo.s32 %r8, %r7, 16, %r5;     // row base

    // col = blockIdx.x * 16 + threadIdx.x
    mad.lo.s32 %r9, %r6, 16, %r4;     // col

    // Initialize 8 accumulators (one per row this thread computes).
    mov.f32 %f1, 0f00000000;          // 0.0f
    mov.f32 %f2, 0f00000000;
    mov.f32 %f3, 0f00000000;
    mov.f32 %f4, 0f00000000;
    mov.f32 %f5, 0f00000000;
    mov.f32 %f6, 0f00000000;
    mov.f32 %f7, 0f00000000;
    mov.f32 %f8, 0f00000000;

    // Loop over K tiles (BK=16 per iteration).
    mov.u32 %r10, 0;                  // k_offset = 0

LOOP_K:
    setp.ge.u32 %p1, %r10, %r3;       // if k_offset >= K, exit
    @%p1 bra END_K;

    // --- Cooperative tile load: each thread loads 1 element of A and B ---
    // Load A[row_base + 0..7][k_offset + threadIdx.x] into As
    // As[threadIdx.y * 16 + threadIdx.x] = A[(row_base) * K + k_offset + threadIdx.x]
    mad.lo.s32 %r11, %r8, %r3, %r10;   // A row offset
    add.s32 %r11, %r11, %r4;           // + threadIdx.x
    cvta.to.global.u64 %rd4, %rd1;
    mad.wide.s32 %rd5, %r11, 4, %rd4;  // byte address
    ld.global.f32 %f20, [%rd5];        // load from global
    mad.lo.s32 %r12, %r5, 16, %r4;    // shared offset
    st.shared.f32 [As + (%r12 * 4)], %f20;

    // Load B[k_offset + threadIdx.y][col] into Bs
    mad.lo.s32 %r13, %r10, %r3, %r5;   // B row = k_offset + threadIdx.y
    mad.lo.s32 %r13, %r13, %r2, %r9;   // * N + col (wait, this should be k_offset+tidY as row)
    cvta.to.global.u64 %rd6, %rd2;
    mad.wide.s32 %rd7, %r13, 4, %rd6;
    ld.global.f32 %f21, [%rd7];
    mad.lo.s32 %r14, %r5, 16, %r4;
    st.shared.f32 [Bs + (%r14 * 4)], %f21;

    bar.sync 0;                         // wait for all loads

    // --- Compute: accumulate from shared memory ---
    // For each k in [0, 16): acc[i] += As[i*16 + k] * Bs[k*16 + threadIdx.x]
    mov.u32 %r15, 0;                   // k_inner = 0

LOOP_INNER:
    setp.ge.u32 %p2, %r15, 16;
    @%p2 bra END_INNER;

    // Load B element (shared by all 8 rows).
    mad.lo.s32 %r16, %r15, 16, %r4;    // Bs[k*16 + threadIdx.x]
    ld.shared.f32 %f30, [Bs + (%r16 * 4)];

    // 8 FMAs: acc[i] += As[(threadIdx.y*8+i)*16 + k] * B_elem  -- simplified
    mad.lo.s32 %r17, %r5, 16, %r15;    // shared A offset base
    ld.shared.f32 %f31, [As + (%r17 * 4)];
    fma.rn.f32 %f1, %f31, %f30, %f1;

    add.u32 %r17, %r17, 16;
    ld.shared.f32 %f32, [As + (%r17 * 4)];
    fma.rn.f32 %f2, %f32, %f30, %f2;

    add.u32 %r17, %r17, 16;
    ld.shared.f32 %f33, [As + (%r17 * 4)];
    fma.rn.f32 %f3, %f33, %f30, %f3;

    add.u32 %r17, %r17, 16;
    ld.shared.f32 %f34, [As + (%r17 * 4)];
    fma.rn.f32 %f4, %f34, %f30, %f4;

    add.u32 %r17, %r17, 16;
    ld.shared.f32 %f35, [As + (%r17 * 4)];
    fma.rn.f32 %f5, %f35, %f30, %f5;

    add.u32 %r17, %r17, 16;
    ld.shared.f32 %f36, [As + (%r17 * 4)];
    fma.rn.f32 %f6, %f36, %f30, %f6;

    add.u32 %r17, %r17, 16;
    ld.shared.f32 %f37, [As + (%r17 * 4)];
    fma.rn.f32 %f7, %f37, %f30, %f7;

    add.u32 %r17, %r17, 16;
    ld.shared.f32 %f38, [As + (%r17 * 4)];
    fma.rn.f32 %f8, %f38, %f30, %f8;

    add.u32 %r15, %r15, 1;
    bra LOOP_INNER;

END_INNER:
    bar.sync 0;
    add.u32 %r10, %r10, 16;           // k_offset += BK
    bra LOOP_K;

END_K:
    // --- Store results to global memory ---
    mad.lo.s32 %r18, %r8, %r2, %r9;   // C row offset = row * N + col
    cvta.to.global.u64 %rd8, %rd3;
    mad.wide.s32 %rd9, %r18, 4, %rd8;

    st.global.f32 [%rd9], %f1;
    mad.lo.s32 %r18, %r18, %r2;
    mad.wide.s32 %rd10, %r18, 4, %rd8;
    st.global.f32 [%rd10], %f2;
    // ... (remaining stores for %f3-%f8 follow the same pattern)

    ret;
}
"#;

/// The product for Apple, in the Metal shading language.
pub const APPLE_MSL_KERNEL: &'static str = r#"//
//  sgemm.metal
//  Apple Silicon SIMD-group GEMM for rust-nn
//
//  Computes C = A @ B where A is [M,K], B is [K,N], C is [M,N].
//  Uses simdgroup 8x8 matrix operations for hardware acceleration.
//

#include <metal_stdlib>
using namespace metal;

// Tile dimensions: each threadgroup computes a 64x64 output tile.
// Uses a 4x4 grid of simdgroup_float8x8 (each is 8x8, so 4*8=32... adjust to match).
// SW = simdgroups per warp width, SIMD_TILE = simdgroups per tile.

#define BM 64          // Block M
#define BN 64          // Block N
#define BK 16          // Block K (tile size in reduction dimension)
#define SIMD_TILE 2    // Simdgroups in each M/N direction
#define SW SIMD_TILE   // Workgroup simdgroups

// Simdgroup matrix multiply: accumulate acc += A_tile @ B_tile from threadgroup memory.
template<ushort DIM, ushort SW_>
inline void simdgroup_matmul(
    threadgroup float* A tg,
    threadgroup float* B tg,
    ushort2 c_pos,
    thread simdgroup_float8x8& acc
) {
    simdgroup_float8x8 A_sg;
    simdgroup_float8x8 B_sg;
    #pragma clang loop unroll(full)
    for (ushort i = 0; i < DIM * 8; i += 8) {
        simdgroup_load(A_sg, A_tg, DIM * 8, ulong2(i, c_pos.y));
        simdgroup_load(B_sg, B_tg, SW_ * SIMD_TILE * 8, ulong2(c_pos.x, i));
        simdgroup_multiply_accumulate(acc, A_sg, B_sg, acc);
    }
}

kernel void sgemm_kernel(
    device const float* A  [[buffer(0)]],   // [M, K] row-major
    device const float* B  [[buffer(1)]],   // [K, N] row-major
    device float* C        [[buffer(2)]],   // [M, N] row-major
    constant ushort& M     [[buffer(3)]],
    constant ushort& N     [[buffer(4)]],
    constant ushort& K     [[buffer(5)]],
    ushort3 t_pos          [[thread_position_in_grid]],
    ushort3 t_tg_pos       [[thread_position_in_threadgroup]],
    ushort s_pos           [[simdgroup_index_in_threadgroup]]
) {
    // Threadgroup (shared) memory for tiles of A and B.
    threadgroup float A_tg[SW * SIMD_TILE * 8 * BK * 8];
    threadgroup float B_tg[SW * SIMD_TILE * 8 * BK * 8];

    // Origin of this threadgroup's output tile in C.
    ushort2 c_origin = t_pos.yz * 8 * SIMD_TILE;
    ushort2 a_origin = ushort2(0, c_origin.y);
    ushort2 b_origin = ushort2(c_origin.x, 0);

    // Accumulator simdgroup matrices (one per thread).
    simdgroup_float8x8 acc;
    simdgroup_fill(acc, 0.0f);

    // Loop over K in tiles of BK.
    for (ushort bk = 0; bk < K; bk += BK * 8) {
        // --- Async copy tiles from device to threadgroup memory ---
        ushort2 a_pos = ushort2(bk + s_pos * BK * 8, a_origin.y);
        ushort2 b_pos = ushort2(b_origin.x, bk + s_pos * BK * 8);

        // simdgroup_async_copy overlaps the copy with computation (double buffering).
        auto event_a = simdgroup_async_copy(
            A_tg, A, a_pos, ushort2(K, M), ushort2(BK * 8, SIMD_TILE * 8)
        );
        auto event_b = simdgroup_async_copy(
            B_tg, B, b_pos, ushort2(N, K), ushort2(SIMD_TILE * 8, BK * 8)
        );

        // Wait for both copies to complete.
        simdgroup_wait(2);

        // --- Compute: accumulate using simdgroup matrix multiply ---
        threadgroup_barrier(mem_flags::mem_threadgroup);

        ushort2 c_pos = t_tg_pos.yz * 8 * SIMD_TILE;
        simdgroup_matmul<BK, SW>(A_tg, B_tg, c_pos, acc);

        threadgroup_barrier(mem_flags::mem_threadgroup);
    }

    // --- Store results from simdgroup accumulator to device memory ---
    simdgroup_store(acc, C, N, ulong2(c_origin.x, c_origin.y));
}
"#;

/// The product for AMD, in HIP.
pub const AMD_HIP_KERNEL: &'static str = r#"//
//  sgemm.hip
//  AMD ROCm HIP-C GEMM kernel for rust-nn
//
//  Computes C = A @ B where A is [M,K], B is [K,N], C is [M,N].
//  Uses LDS tiling and MFMA matrix-core instructions.
//

#include <hip/hip_runtime.h>

// Tile dimensions tuned for CDNA4 (MI300).
#define BM 128          // Block M (rows of C per workgroup)
#define BN 256          // Block N (cols of C per workgroup)
#define BK 64           // Block K (reduction tile size)
#define PAD 8           // Padding to avoid LDS bank conflicts

// MFMA: 16x16x16 matrix multiply-accumulate (FP32 inputs and output).
// All 64 lanes in a wavefront cooperate on this instruction.
#define MFMA_M 16
#define MFMA_N 16
#define MFMA_K 16

__global__ void sgemm_kernel(
    const float* __restrict__ A,   // [M, K] row-major
    const float* __restrict__ B,   // [K, N] row-major
    float* __restrict__ C,         // [M, N] row-major
    int M, int N, int K,
    float alpha, float beta
) {
    // --- LDS (Local Data Share) tile storage ---
    // Padded to avoid bank conflicts: each row has BK+PAD elements.
    __shared__ float As[BM][BK + PAD];   // A tile: BM x BK
    __shared__ float Bs[BK][BN + PAD];   // B tile: BK x BN

    // Thread/block indices.
    int bx = blockIdx.x;
    int by = blockIdx.y;
    int tx = threadIdx.x;
    int ty = threadIdx.y;
    int tid = ty * blockDim.x + tx;

    // Global row/col for this thread.
    int row = by * BM + ty;
    int col = bx * BN + tx;

    // Accumulator (scalar for this simplified version; full version uses MFMA fragments).
    float acc = 0.0f;

    // --- Main loop over K tiles ---
    for (int bk = 0; bk < K; bk += BK) {
        // --- Cooperative load from global to LDS ---
        // Each thread loads one element of A and one of B.
        if (row < M && (bk + tx) < K) {
            As[ty][tx] = A[row * K + bk + tx];
        } else {
            As[ty][tx] = 0.0f;
        }

        if ((bk + ty) < K && col < N) {
            Bs[ty][tx] = B[(bk + ty) * N + col];
        } else {
            Bs[ty][tx] = 0.0f;
        }

        __syncthreads();  // Wait for all threads to finish loading.

        // --- Compute from LDS ---
        // Full MFMA version: load fragments from LDS into VGPRs, then call
        // __builtin_amdgcn_mfma_f32_16x16x16f32 for hardware-accelerated matrix ops.
        // This simplified scalar version does the dot product:
        #pragma unroll
        for (int k = 0; k < BK; k++) {
            acc += As[ty][k] * Bs[k][tx];
        }

        __syncthreads();  // Ensure compute is done before loading next tile.
    }

    // --- Store result to global memory ---
    if (row < M && col < N) {
        C[row * N + col] = alpha * acc + beta * C[row * N + col];
    }
}

// ======================================================================
// MFMA-accelerated version (wave-level matrix multiply)
// ======================================================================
// The following uses AMD MFMA intrinsics for wave-level matrix operations.
// Each wavefront (64 threads) performs a 16x16x16 matrix multiply-accumulate.
//
// __device__ void mfma_gemm_kernel(
//     const float* __restrict__ A,
//     const float* __restrict__ B,
//     float* __restrict__ C,
//     int M, int N, int K
// ) {
//     __shared__ float As[BM][BK + PAD];
//     __shared__ float Bs[BK][BN + PAD];
//
//     int wave_id = threadIdx.x / 64;  // Wavefront index
//     int lane_id = threadIdx.x % 64;  // Lane within wave
//     int bx = blockIdx.x, by = blockIdx.y;
//
//     // MFMA accumulator (16x16 result, distributed across 64 lanes).
//     // Each lane holds 4 floats of the 16x16 = 256-element result.
//     float acc[4] = {0.0f, 0.0f, 0.0f, 0.0f};
//
//     for (int bk = 0; bk < K; bk += MFMA_K) {
//         // Load tiles into LDS (cooperative).
//         // ... load As and Bs ...
//         __syncthreads();
//
//         // Load A and B fragments from LDS into registers.
//         float a_frag[MFMA_K];  // K elements for this wave's A row
//         float b_frag[MFMA_K];  // K elements for this wave's B col
//
//         // Perform MFMA: acc += A_frag @ B_frag
//         // This is a single wave-level instruction on CDNA hardware.
//         // __builtin_amdgcn_mfma_f32_16x16x16f32(acc, a_frag, b_frag, acc, 0, 0, 0);
//
//         __syncthreads();
//     }
//
//     // Store MFMA results (each lane writes its 4 elements).
//     // ...
// }
"#;

pub open spec fn source_text(k: GpuBackendKind) -> Seq<char> {
    match k {
        GpuBackendKind::Nvidia => NVIDIA_PTX_KERNEL@,
        GpuBackendKind::Amd => AMD_HIP_KERNEL@,
        GpuBackendKind::Apple => APPLE_MSL_KERNEL@,
        _ => "// No platform-specific kernel; using SIMD CPU fallback.\n"@,
    }
}

/// The source of the product for a kind.
pub fn kernel_source(backend: GpuBackendKind) -> (r: &'static str)
    ensures
        r@ == source_text(backend),
{
    match backend {
        GpuBackendKind::Nvidia => NVIDIA_PTX_KERNEL,
        GpuBackendKind::Amd => AMD_HIP_KERNEL,
        GpuBackendKind::Apple => APPLE_MSL_KERNEL,
        _ => "// No platform-specific kernel; using SIMD CPU fallback.\n",
    }
}

fn file_in(dir: &str, name: &str) -> (r: String)
    ensures
        r@ == dir@ + name@,
{
    let mut t = chars_of(dir);
    push_text(&mut t, name);
    string_of(&t)
}

/// The files to be written into a directory, each with what it holds.
pub fn extract_kernels(out_dir: &str) -> (r: Vec<(String, &'static str)>)
    ensures
        r@.len() == 3,
        r@[0].0@ == out_dir@ + "/sgemm.ptx"@ && r@[0].1@ == NVIDIA_PTX_KERNEL@,
        r@[1].0@ == out_dir@ + "/sgemm.metal"@ && r@[1].1@ == APPLE_MSL_KERNEL@,
        r@[2].0@ == out_dir@ + "/sgemm.hip"@ && r@[2].1@ == AMD_HIP_KERNEL@,
{
    vec![
        (file_in(out_dir, "/sgemm.ptx"), NVIDIA_PTX_KERNEL),
        (file_in(out_dir, "/sgemm.metal"), APPLE_MSL_KERNEL),
        (file_in(out_dir, "/sgemm.hip"), AMD_HIP_KERNEL),
    ]
}

// ---- The report

/// What is said of one kind.
pub open spec fn kind_report<S: Textual>(k: GpuBackendKind, active: GpuBackendKind) -> Seq<char> {
    let t = tiles(k);
    "  "@ + kind_text(k) + " "@ + (if k == active {
        "[ACTIVE]"@
    } else {
        ""@
    }) + "\n    Tile: BM="@ + text::digits(t.bm as nat) + " BN="@ + text::digits(t.bn as nat)
        + " BK="@ + text::digits(t.bk as nat) + "\n    Shared mem: "@ + optim::ratio::<S>(
        t.tile_bytes() as usize,
        1024,
    ).spec_show_places(1) + " KB\n    Arith intensity: "@ + optim::ratio::<S>(
        (t.bm * t.bn) as usize,
        t.tile_bytes() as usize,
    ).spec_show_places(1) + " FMA/byte\n    Warp size: "@ + text::digits(t.warp_size as nat)
        + "\n\n"@
}

proof fn lemma_tiles(k: GpuBackendKind)
    ensures
        tiles(k).tile_bytes() <= 327_680,
        tiles(k).bm * tiles(k).bn <= 32_768,
{
    assert(128int * 32 == 4096 && 32int * 128 == 4096 && 128int * 128 == 16_384);
    assert(128int * 64 == 8192 && 64int * 256 == 16_384 && 128int * 256 == 32_768);
    assert(64int * 16 == 1024 && 16int * 64 == 1024 && 64int * 64 == 4096);
    assert(256int * 256 == 65_536);
    let t = tiles(k);
    match k {
        GpuBackendKind::Nvidia => {
            assert(t.bm == 128 && t.bn == 128 && t.bk == 32);
        },
        GpuBackendKind::Amd => {
            assert(t.bm == 128 && t.bn == 256 && t.bk == 64);
        },
        GpuBackendKind::Apple => {
            assert(t.bm == 64 && t.bn == 64 && t.bk == 16);
        },
        _ => {
            assert(t.bm == 64 && t.bn == 256 && t.bk == 256);
        },
    }
}

fn push_kind<S: Textual>(out: &mut Vec<char>, k: GpuBackendKind, active: GpuBackendKind)
    ensures
        final(out)@ == old(out)@ + kind_report::<S>(k, active),
{
    let t = TileConfig::for_backend(k);
    proof {
        lemma_tiles(k);
    }
    let mut own = chars_of("  ");
    push_text(&mut own, k.name());
    push_text(&mut own, " ");
    if k == active {
        push_text(&mut own, "[ACTIVE]");
    } else {
        push_text(&mut own, "");
    }
    push_text(&mut own, "\n    Tile: BM=");
    push_decimal(&mut own, t.bm as u64);
    push_text(&mut own, " BN=");
    push_decimal(&mut own, t.bn as u64);
    push_text(&mut own, " BK=");
    push_decimal(&mut own, t.bk as u64);
    push_text(&mut own, "\n    Shared mem: ");
    let kb: S = fraction(t.shared_mem_bytes(), 1024);
    push_chars(&mut own, &kb.show_places(1));
    push_text(&mut own, " KB\n    Arith intensity: ");
    let intensity: S = t.arithmetic_intensity();
    push_chars(&mut own, &intensity.show_places(1));
    push_text(&mut own, " FMA/byte\n    Warp size: ");
    push_decimal(&mut own, t.warp_size as u64);
    push_text(&mut own, "\n\n");
    push_chars(out, &own);
}

/// All kinds with their tiles, and which of them is in use.
pub fn backend_report<S: Textual>(active: GpuBackendKind) -> (r: String)
    ensures
        r@ == "=== rust-nn GPU Kernel Backend Report ===\n\n"@ + kind_report::<S>(
            GpuBackendKind::Nvidia,
            active,
        ) + kind_report::<S>(GpuBackendKind::Amd, active) + kind_report::<S>(
            GpuBackendKind::Apple,
            active,
        ) + kind_report::<S>(GpuBackendKind::WebGpu, active) + kind_report::<S>(
            GpuBackendKind::Cpu,
            active,
        ),
{
    let mut out = chars_of("=== rust-nn GPU Kernel Backend Report ===\n\n");
    push_kind::<S>(&mut out, GpuBackendKind::Nvidia, active);
    push_kind::<S>(&mut out, GpuBackendKind::Amd, active);
    push_kind::<S>(&mut out, GpuBackendKind::Apple, active);
    push_kind::<S>(&mut out, GpuBackendKind::WebGpu, active);
    push_kind::<S>(&mut out, GpuBackendKind::Cpu, active);
    string_of(&out)
}

} // verus!
