//! Layers, models and what is done with them, with numbers of single precision.
use rust_nn::bytes::Word;
use rust_nn::compression::{
    automl_search, CompressedEmbedding, CompressionStrategy, KnowledgeTransfer, LayerDropper,
    MixedSparsity, ProgressiveShrinking, SharedWeights, SparseMatrix, StructuredPruner,
};
use rust_nn::data::{
    classification_from, dataset_from_cache_json, dataset_to_cache_json, make_classification,
    make_regression, parse_csv_line, parse_delimited, parse_jsonl, regression_from, Dataset,
    DatasetBuilder,
};
use rust_nn::diffusion::{sinusoidal_embedding, NoiseSchedule, ScheduleType, DDPM};
use rust_nn::distill::{
    batch_bounds, compute_accuracy, distill_loss, hidden_features, parameter_count, repeat_rows,
    softmax_temp, take_rows,
    DistillConfig, Distiller, Features, ProgressiveDistiller, Round,
};
use rust_nn::error::{checked_add, checked_matmul, checked_reshape, RustNnError};
use rust_nn::finetune::{
    clip_grad_norm, Adapted, BatchDone, FastTrainConfig, FastTrainer, LoraAdapter, LrSchedule,
};
use rust_nn::fixed::Fixed;
use rust_nn::format::{Chars, Textual};
use rust_nn::grpo::{
    CoEvolutionTrainer, GrpoConfig, GrpoGroup, GrpoTrainer, RewardModel, RewardWeights,
};
use rust_nn::gui::{full_dashboard, tensor_heatmap_html, ModelDashboard, TrainingDashboard};
use rust_nn::hub::{from_kept, RowPager};
use rust_nn::interactive::{
    command_of, epoch_line, epoch_loss, handle_data, handle_info, handle_model, handle_predict, handle_train,
    process_command, sparkline, train_end, train_head, weights_needed, DataReply, PredictReply,
    Reply, Session, TrainPlan,
};
use rust_nn::json::try_extract_rows;
use rust_nn::looped_transformer::{LoopedTransformer, MultiHeadAttention, Transformer};
use rust_nn::loss::{
    BCELoss, BCEWithLogitsLoss, CrossEntropyLoss, HuberLoss, L1Loss, Loss, MSELoss,
};
use rust_nn::mamba::{conv1d_causal, Mamba, MambaBlock};
use rust_nn::nn;
use rust_nn::nn::{
    BatchNorm1D, Draws, Dropout, FakeQuantize, FineGrainedMoE, Flatten, LayerNorm, Layer, Linear,
    Module, NormalMoE, RNNCell, ReLU, Recursive, Sequential, Sigmoid, Softmax,
};
use rust_nn::number::{Number, Real};
use rust_nn::offload::{
    DiskAction, MemoryTier, OffloadConfig, OffloadModel, SsdTensor, TieredStore, TieredTensor,
};
use rust_nn::optim::{Adam, Optimizer, RMSprop, SGD};
use rust_nn::position::{
    alibi_slopes, AlibiBias, CARoPE, LearnedPE, PositionalEncoding, RoPE, SinusoidalPE,
};
use rust_nn::random::normal_number;
use rust_nn::reasoning::{MarkovianRSA, SwiReasoning};
use rust_nn::table::Table;
use rust_nn::tensor::Tensor;

/// A number of single precision.
#[derive(Debug, Clone, Copy, PartialEq)]
struct F(f32);

impl Number for F {
    fn spec_zero() -> F {
        F(0.0)
    }
    fn spec_one() -> F {
        F(1.0)
    }
    fn spec_plus(self, other: F) -> F {
        self.plus(other)
    }
    fn spec_minus(self, other: F) -> F {
        self.minus(other)
    }
    fn spec_times(self, other: F) -> F {
        self.times(other)
    }
    fn spec_same(self, other: F) -> bool {
        self.same(other)
    }
    fn zero() -> F {
        F(0.0)
    }
    fn one() -> F {
        F(1.0)
    }
    fn plus(self, other: F) -> F {
        F(self.0 + other.0)
    }
    fn minus(self, other: F) -> F {
        F(self.0 - other.0)
    }
    fn times(self, other: F) -> F {
        F(self.0 * other.0)
    }
    fn same(self, other: F) -> bool {
        self.0 == other.0
    }
}

impl Real for F {
    fn spec_count(n: usize) -> F {
        F::count(n)
    }
    fn spec_over(self, other: F) -> F {
        self.over(other)
    }
    fn spec_larger(self, other: F) -> F {
        self.larger(other)
    }
    fn spec_smaller(self, other: F) -> F {
        self.smaller(other)
    }
    fn spec_powf(self, other: F) -> F {
        self.powf(other)
    }
    fn spec_powi(self, n: i32) -> F {
        self.powi(n)
    }
    fn spec_below(self, other: F) -> bool {
        self.below(other)
    }
    fn spec_at_most(self, other: F) -> bool {
        self.at_most(other)
    }
    fn spec_highest() -> F {
        F::highest()
    }
    fn spec_lowest() -> F {
        F::lowest()
    }
    fn spec_whole(self) -> i64 {
        self.whole()
    }
    fn spec_neg(self) -> F {
        self.neg()
    }
    fn spec_abs(self) -> F {
        self.abs()
    }
    fn spec_exp(self) -> F {
        self.exp()
    }
    fn spec_ln(self) -> F {
        self.ln()
    }
    fn spec_tanh(self) -> F {
        self.tanh()
    }
    fn spec_sqrt(self) -> F {
        self.sqrt()
    }
    fn spec_sin(self) -> F {
        self.sin()
    }
    fn spec_cos(self) -> F {
        self.cos()
    }
    fn spec_round(self) -> F {
        self.round()
    }
    fn count(n: usize) -> F {
        F(n as f32)
    }
    fn over(self, other: F) -> F {
        F(self.0 / other.0)
    }
    fn larger(self, other: F) -> F {
        F(self.0.max(other.0))
    }
    fn smaller(self, other: F) -> F {
        F(self.0.min(other.0))
    }
    fn powf(self, other: F) -> F {
        F(self.0.powf(other.0))
    }
    fn powi(self, n: i32) -> F {
        F(self.0.powi(n))
    }
    fn below(self, other: F) -> bool {
        self.0 < other.0
    }
    fn at_most(self, other: F) -> bool {
        self.0 <= other.0
    }
    fn highest() -> F {
        F(f32::INFINITY)
    }
    fn lowest() -> F {
        F(f32::NEG_INFINITY)
    }
    fn whole(self) -> i64 {
        self.0 as i64
    }
    fn neg(self) -> F {
        F(-self.0)
    }
    fn abs(self) -> F {
        F(self.0.abs())
    }
    fn exp(self) -> F {
        F(self.0.exp())
    }
    fn ln(self) -> F {
        F(self.0.ln())
    }
    fn tanh(self) -> F {
        F(self.0.tanh())
    }
    fn sqrt(self) -> F {
        F(self.0.sqrt())
    }
    fn sin(self) -> F {
        F(self.0.sin())
    }
    fn cos(self) -> F {
        F(self.0.cos())
    }
    fn round(self) -> F {
        F(self.0.round())
    }
}

impl Textual for F {
    fn spec_read(_: Chars) -> Option<F> {
        unreachable!()
    }
    fn spec_show(self) -> Chars {
        unreachable!()
    }
    fn spec_show_places(self, _: usize) -> Chars {
        unreachable!()
    }
    fn read(s: &[char]) -> Option<F> {
        let text: String = s.iter().collect();
        text.parse::<f32>().ok().map(F)
    }
    fn show(self) -> Vec<char> {
        format!("{}", self.0).chars().collect()
    }
    fn show_places(self, places: usize) -> Vec<char> {
        format!("{:.*}", places, self.0).chars().collect()
    }
}

impl Word for F {
    fn spec_bits(self) -> u32 {
        self.bits()
    }
    fn spec_from_bits(b: u32) -> F {
        F::from_bits(b)
    }
    fn round_trip(self) {}
    fn bits(self) -> u32 {
        self.0.to_bits()
    }
    fn from_bits(b: u32) -> F {
        F(f32::from_bits(b))
    }
}

fn fs(v: &[f32]) -> Vec<F> {
    v.iter().map(|x| F(*x)).collect()
}

fn raw(v: &[F]) -> Vec<f32> {
    v.iter().map(|x| x.0).collect()
}

fn tensor(v: &[f32], shape: &[usize]) -> Tensor<F> {
    Tensor::from_vec(fs(v), shape.to_vec())
}

/// Numbers that look normally distributed, the same for the same seed.
fn normals(seed: u32, n: usize) -> Vec<F> {
    let mut s: u32 = seed.wrapping_mul(2654435761).wrapping_add(1);
    let mut unit = || {
        s = s.wrapping_mul(1664525).wrapping_add(1013904223);
        ((s >> 8) as f32 + 0.5) / 16777216.0
    };
    (0..n)
        .map(|_| {
            let (a, b) = (unit(), unit());
            F((-2.0 * a.ln()).sqrt() * (2.0 * std::f32::consts::PI * b).cos())
        })
        .collect()
}

fn randn(seed: u32, shape: &[usize]) -> Tensor<F> {
    let n: usize = shape.iter().product();
    Tensor::from_vec(normals(seed, n), shape.to_vec())
}

/// Weights for layers, scaled down.
fn draws(seed: u32, n: usize) -> Draws<F> {
    Draws::new(normals(seed, n).iter().map(|x| F(x.0 * 0.3)).collect())
}

fn model_of(sizes: &[(usize, usize)], seed: u32) -> Sequential<Layer<F>> {
    let need: usize = sizes.iter().map(|(a, b)| a * b).sum();
    let mut d = draws(seed, need);
    let mut m = Sequential::new();
    for (i, (a, b)) in sizes.iter().enumerate() {
        if i > 0 {
            m = m.add(Layer::ReLU(ReLU));
        }
        m = m.add(Layer::Linear(Linear::new(*a, *b, true, &mut d)));
    }
    m
}

fn one_hot(n: usize, classes: usize) -> Tensor<F> {
    let mut v = vec![0.0f32; n * classes];
    for i in 0..n {
        v[i * classes + i % classes] = 1.0;
    }
    tensor(&v, &[n, classes])
}

fn assert_close(a: f32, b: f32, tol: f32, msg: &str) {
    assert!((a - b).abs() < tol, "{msg}: {a} vs {b}");
}

// ---- Layers

#[test]
fn a_linear_layer_multiplies_and_adds() {
    let l = Linear {
        weight: tensor(&[1.0, 2.0, 3.0, 4.0, 5.0, 6.0], &[2, 3]),
        bias: Some(tensor(&[10.0, 20.0], &[2])),
    };
    let y = l.forward(&tensor(&[1.0, 0.0, -1.0], &[1, 3]));
    assert_eq!(y.shape(), vec![1, 2]);
    assert_eq!(raw(&y.data), vec![8.0, 18.0]);
    let batch = l.forward(&tensor(&[1.0; 12], &[2, 2, 3]));
    assert_eq!(batch.shape(), vec![2, 2, 2]);
}

#[test]
fn layers_follow_one_another() {
    let m = Sequential::new()
        .add(Layer::Linear(Linear {
            weight: tensor(&[1.0, -1.0], &[2, 1]),
            bias: None,
        }))
        .add(Layer::ReLU(ReLU));
    let y = m.forward(&tensor(&[3.0], &[1, 1]));
    assert_eq!(raw(&y.data), vec![3.0, 0.0]);
    assert_eq!(m.parameters().len(), 1);
}

#[test]
fn loaded_parameters_are_the_parameters() {
    let mut m = model_of(&[(2, 3), (3, 1)], 1);
    let new: Vec<Tensor<F>> = m
        .parameters()
        .iter()
        .map(|p| Tensor::from_vec(vec![F(0.5); p.data.len()], p.shape()))
        .collect();
    m.load_parameters(&new);
    for p in m.parameters() {
        assert!(raw(&p.data).iter().all(|v| *v == 0.5));
    }
    let y = m.forward(&tensor(&[1.0, 1.0], &[1, 2]));
    assert_eq!(raw(&y.data), vec![0.5 * (1.5 * 3.0) + 0.5]);
}

#[test]
fn norms_have_mean_zero() {
    let l: LayerNorm<F> = LayerNorm::new(4);
    let y = raw(&l.forward(&tensor(&[1.0, 2.0, 3.0, 4.0], &[1, 4])).data);
    assert!(y.iter().sum::<f32>().abs() < 1e-5);
    assert_close(y.iter().map(|v| v * v).sum::<f32>() / 4.0, 1.0, 1e-3, "variance");
    let b: BatchNorm1D<F> = BatchNorm1D::new(2);
    let y = raw(&b.forward(&tensor(&[1.0, 10.0, 3.0, 30.0], &[2, 2])).data);
    assert_close(y[0], -y[2], 1e-5, "columns are centred");
}

#[test]
fn soft_maxima_add_up_to_one() {
    let y = Layer::<F>::Softmax(Softmax).forward(&tensor(&[1.0, 2.0, 3.0, 0.0, 0.0, 0.0], &[2, 3]));
    let v = raw(&y.data);
    assert_close(v[0] + v[1] + v[2], 1.0, 1e-6, "first row");
    assert_close(v[3], 1.0 / 3.0, 1e-6, "even row");
    let s = Layer::<F>::Sigmoid(Sigmoid).forward(&tensor(&[0.0], &[1]));
    assert_eq!(raw(&s.data), vec![0.5]);
    let f = Layer::<F>::Flatten(Flatten).forward(&randn(1, &[2, 3, 4]));
    assert_eq!(f.shape(), vec![2, 12]);
}

#[test]
fn dropout_scales_what_it_keeps() {
    let mut d = Dropout::new(F(0.5));
    let x = tensor(&[1.0, 2.0, 3.0, 4.0], &[4]);
    let y = d.forward_with(&x, &fs(&[0.1, 0.6, 0.4, 0.9]));
    assert_eq!(raw(&y.data), vec![2.0, 0.0, 6.0, 0.0]);
    let r = raw(&d.forward_random(&x).data);
    for (i, v) in r.iter().enumerate() {
        assert!(*v == 0.0 || *v == 2.0 * (i as f32 + 1.0));
    }
    d.set_training(false);
    assert_eq!(raw(&d.forward(&x).data), vec![1.0, 2.0, 3.0, 4.0]);
}

#[test]
fn fake_quantization_rounds_to_steps() {
    let q = FakeQuantize::new(8, F(127.0));
    let y = raw(&q.forward(&tensor(&[1.4, -2.6], &[2])).data);
    assert_close(y[0], 1.0, 1e-4, "rounded down");
    assert_close(y[1], -3.0, 1e-4, "rounded away");
}

#[test]
fn experts_keep_the_width() {
    let moe = NormalMoE::new(4, 8, 3, &mut draws(2, 10000));
    assert_eq!(moe.forward(&randn(3, &[2, 4])).shape(), vec![2, 4]);
    let fine = FineGrainedMoE::new(4, 8, 4, 3, &mut draws(4, 10000));
    assert_eq!(fine.forward(&randn(5, &[2, 4])).shape(), vec![2, 4]);
    let cell = RNNCell::new(3, 5, &mut draws(6, 100));
    let h = cell.step(&randn(7, &[2, 3]), &Tensor::zeros(&[2, 5]));
    assert_eq!(h.shape(), vec![2, 5]);
    assert!(raw(&h.data).iter().all(|v| v.abs() <= 1.0));
}

#[test]
fn recursion_applies_again_and_again() {
    let l = Layer::Linear(Linear { weight: tensor(&[2.0], &[1, 1]), bias: None });
    let r = Recursive::new(l, 5);
    assert_eq!(raw(&r.forward(&tensor(&[1.0], &[1, 1])).data), vec![32.0]);
}

#[test]
fn attention_takes_means() {
    let q = tensor(&[0.0, 0.0], &[1, 1, 2]);
    let k = tensor(&[1.0, 2.0, 3.0, 4.0], &[1, 2, 2]);
    let v = tensor(&[1.0, 2.0, 3.0, 4.0], &[1, 2, 2]);
    let a = nn::attention(&q, &k, &v);
    assert_eq!(raw(&a.data), vec![2.0, 3.0]);
    assert_eq!(raw(&nn::flash_attention(&q, &k, &v).data), vec![2.0, 3.0]);
}

// ---- Losses and optimizers

#[test]
fn losses_have_their_values() {
    let p = tensor(&[1.0, 2.0], &[1, 2]);
    let t = tensor(&[0.0, 4.0], &[1, 2]);
    assert_close(MSELoss.forward(&p, &t).data[0].0, 2.5, 1e-6, "squares");
    assert_close(L1Loss.forward(&p, &t).data[0].0, 1.5, 1e-6, "distances");
    let h: HuberLoss<F> = HuberLoss::default();
    assert_close(h.forward(&p, &t).data[0].0, 1.0, 1e-6, "bounded");
    let c = CrossEntropyLoss.forward(&tensor(&[0.0, 0.0], &[1, 2]), &tensor(&[1.0, 0.0], &[1, 2]));
    assert_close(c.data[0].0, 2.0f32.ln(), 1e-6, "entropy");
    let half = tensor(&[0.5], &[1]);
    let yes = tensor(&[1.0], &[1]);
    assert_close(BCELoss.forward(&half, &yes).data[0].0, 2.0f32.ln(), 1e-5, "binary");
    let z = tensor(&[0.0], &[1]);
    assert_close(BCEWithLogitsLoss.forward(&z, &yes).data[0].0, 2.0f32.ln(), 1e-5, "logits");
}

#[test]
fn optimizers_follow_gradients() {
    let mut p = tensor(&[1.0, 1.0], &[2]);
    p.grad = Some(fs(&[1.0, -1.0]));
    let mut sgd = SGD::new(vec![p.duplicate()], F(0.1), F(0.0));
    sgd.params[0].grad = Some(fs(&[1.0, -1.0]));
    sgd.step();
    assert_close(sgd.params[0].data[0].0, 0.9, 1e-6, "down");
    assert_close(sgd.params[0].data[1].0, 1.1, 1e-6, "up");
    assert!(sgd.params[0].grad.is_none());
    let mut adam = Adam::new(vec![p.duplicate()], F(0.1));
    adam.params[0].grad = Some(fs(&[1.0, -1.0]));
    adam.step();
    assert_close(adam.params[0].data[0].0, 0.9, 1e-3, "a step of the rate");
    let mut rms = RMSprop::new(vec![p.duplicate()], F(0.1));
    rms.params[0].grad = Some(fs(&[1.0, -1.0]));
    rms.step();
    assert!(rms.params[0].data[0].0 < 1.0 && rms.params[0].data[1].0 > 1.0);
}

#[test]
fn checked_operations_refuse() {
    let a = tensor(&[1.0; 6], &[2, 3]);
    let b = tensor(&[1.0; 6], &[2, 3]);
    assert!(matches!(checked_matmul(&a, &b), Err(RustNnError::ShapeMismatch { .. })));
    assert_eq!(checked_matmul(&a, &b.transpose()).unwrap().shape(), vec![2, 2]);
    assert!(matches!(
        checked_matmul(&tensor(&[1.0], &[1]), &b),
        Err(RustNnError::InvalidNdims { .. })
    ));
    assert!(checked_reshape(&a, &[4, 2]).is_err());
    assert_eq!(checked_reshape(&a, &[6]).unwrap().shape(), vec![6]);
    assert!(checked_add(&a, &tensor(&[1.0; 4], &[4])).is_err());
    assert_eq!(raw(&checked_add(&a, &b).unwrap().data), vec![2.0; 6]);
}

// ---- Compression

#[test]
fn weight_sharing_reduces_params() {
    let ws = SharedWeights::new(64, 64, 4, &mut draws(1, 4096));
    assert_eq!(ws.num_passes, 4);
    assert!(ws.compression_ratio().0 > 3.5);
    let x = randn(2, &[2, 64]);
    let y = ws.forward(&x);
    assert_eq!(y.shape(), vec![2, 64]);
    assert_eq!(ws.param_count(), 64 * 64 + 64);
    assert_eq!(ws.parameters().len(), 2);
}

#[test]
fn sparse_matrix_compression() {
    let n = 200;
    let mut data = vec![0.0f32; n * n];
    for i in 0..n {
        data[i * n + i] = 1.0;
    }
    for i in 0..n / 5 {
        data[i * n + (i + 1) % n] = 0.5;
    }
    let t = tensor(&data, &[n, n]);
    let sparse = SparseMatrix::from_dense(&t, F(0.01));
    assert!(sparse.nnz < n + n / 5 + 1);
    assert!(sparse.sparsity().0 > 0.9);
    assert!(
        sparse.compression_ratio().0 > 1.0,
        "CSR should save memory: {}",
        sparse.compression_ratio().0
    );
}

#[test]
fn sparse_spmm_correct() {
    let a = tensor(&[1.0, 0.0, 0.0, 2.0, 0.0, 3.0], &[2, 3]);
    let b = fs(&[1.0, 2.0, 3.0, 4.0, 5.0, 6.0]);
    let sparse = SparseMatrix::from_dense(&a, F(0.01));
    let c = raw(&sparse.spmm(&b, 2));
    assert!((c[0] - 1.0).abs() < 1e-5, "C[0,0] should be 1, got {}", c[0]);
    assert!((c[1] - 2.0).abs() < 1e-5, "C[0,1] should be 2, got {}", c[1]);
    assert!((c[2] - 17.0).abs() < 1e-5, "C[1,0] should be 17, got {}", c[2]);
    assert!((c[3] - 22.0).abs() < 1e-5, "C[1,1] should be 22, got {}", c[3]);
}

#[test]
fn sparse_to_dense_roundtrip() {
    let original = tensor(&[0.5, 0.0, 0.0, 0.3, 0.0, 0.7], &[2, 3]);
    let sparse = SparseMatrix::from_dense(&original, F(0.01));
    let reconstructed = sparse.to_dense();
    let orig = raw(&original.data);
    let recon = raw(&reconstructed.data);
    for i in 0..orig.len() {
        assert!((orig[i] - recon[i]).abs() < 1e-5);
    }
    let coarse = SparseMatrix::from_dense(&original, F(0.4)).to_dense();
    assert_eq!(raw(&coarse.data), vec![0.5, 0.0, 0.0, 0.0, 0.0, 0.7]);
}

#[test]
fn layer_dropping_skips_converged() {
    let mut dropper = LayerDropper::new(3, F(0.01));
    let unchanged = tensor(&[1.0, 2.0], &[2]);
    let slightly_changed = tensor(&[1.001, 2.001], &[2]);
    assert!(dropper.should_skip(0, &unchanged, &slightly_changed));
    let changed = tensor(&[2.0, 4.0], &[2]);
    assert!(!dropper.should_skip(0, &unchanged, &changed));
    assert!(dropper.avg_skip_rate().0 > 0.0);
    assert_close(dropper.avg_skip_rate().0, 1.0 / 6.0, 1e-6, "one of six");
    assert_close(dropper.estimated_speedup().0, 1.2, 1e-5, "speedup");
}

#[test]
fn skip_rates_go_by_passes() {
    let mut dropper = LayerDropper::new(3, F(0.01));
    let before = tensor(&[1.0, 2.0], &[2]);
    let after = tensor(&[2.0, 4.0], &[2]);
    for _ in 0..2 {
        assert!(dropper.should_skip(0, &before, &before));
        assert!(!dropper.should_skip(1, &before, &after));
        assert!(dropper.should_skip(2, &before, &before));
    }
    assert_eq!(dropper.total_count, 2);
    assert_eq!(dropper.skip_counts, vec![2, 0, 2]);
    assert_close(dropper.avg_skip_rate().0, 4.0 / 6.0, 1e-6, "two of three");
}

#[test]
fn knowledge_transfer_loss_positive() {
    let source = model_of(&[(4, 8)], 1);
    let target = model_of(&[(4, 8)], 2);
    let kt = KnowledgeTransfer::new(source, target, 8, 8, &mut draws(3, 64));
    let x = randn(4, &[2, 4]);
    let loss = kt.transfer_loss(&x);
    assert!(loss.0 >= 0.0);
}

#[test]
fn embedding_compression_ratio() {
    let table = randn(1, &[1000, 256]);
    let compressed = CompressedEmbedding::from_table(&table, 32);
    assert!(compressed.compression_ratio().0 > 5.0, "should compress >5x");
    assert_eq!(compressed.mem_bytes(), 1256 * 32 * 4);
}

#[test]
fn embedding_lookup_shape() {
    let table = randn(1, &[100, 64]);
    let emb = CompressedEmbedding::from_table(&table, 16);
    let v = emb.lookup(5);
    assert_eq!(v.shape(), vec![1, 64]);
    let batch = emb.lookup_batch(&[1, 2, 3]);
    assert_eq!(batch.shape(), vec![3, 64]);
    assert_eq!(emb.reconstruct().shape(), vec![100, 64]);
}

#[test]
fn mixed_sparsity_analysis() {
    let mut model = model_of(&[(8, 16), (16, 4)], 1);
    let inputs = randn(2, &[4, 8]);
    let targets = randn(3, &[4, 4]);
    let before = model.parameters();
    let ms = MixedSparsity::analyze(&mut model, &inputs, &targets, &MSELoss);
    assert!(!ms.layer_sparsity.is_empty());
    for s in &ms.layer_sparsity {
        assert!(s.0 > 0.0 && s.0 < 1.0, "sparsity should be in (0,1): {}", s.0);
    }
    assert_eq!(ms.sensitivity.len(), 4);
    for (a, b) in before.iter().zip(model.parameters().iter()) {
        assert_eq!(raw(&a.data), raw(&b.data));
    }
    assert_eq!(ms.sparsity_for_layer(99).0, 0.5);
}

#[test]
fn progressive_shrinking_schedule() {
    let mut ps = ProgressiveShrinking::new(F(0.5), 100, 10);
    for _ in 0..10 {
        let r = ps.step();
        assert!(r.0 == 0.0);
    }
    let r1 = ps.step();
    let r2 = ps.step();
    assert!(r2.0 > r1.0);
    while !ps.is_done() {
        ps.step();
    }
    assert!((ps.current_sparsity.0 - 0.5).abs() < 1e-5);
}

#[test]
fn progressive_soft_prune() {
    let ps = ProgressiveShrinking {
        target_sparsity: F(0.5),
        current_sparsity: F(0.3),
        total_steps: 100,
        current_step: 50,
        warmup_steps: 10,
    };
    let t = randn(1, &[4, 8]);
    let pruned = ps.apply_soft_prune(&t);
    let zeros = raw(&pruned.data).iter().filter(|v| **v == 0.0).count();
    assert!(zeros > 0);
    assert_eq!(zeros, 9);
}

#[test]
fn structured_pruning_reduces_channels() {
    let layer = Linear::new(8, 16, true, &mut draws(1, 128));
    let (pruned, kept) = StructuredPruner::prune_linear(&layer, F(0.5));
    assert_eq!(pruned.weight.shape()[0], 8);
    assert_eq!(kept.len(), 8);
}

#[test]
fn structured_pruning_keeps_important() {
    let data: Vec<f32> = (0..32).map(|i| if i < 16 { 10.0 } else { 0.01 }).collect();
    let weight = tensor(&data, &[4, 8]);
    let (_pruned, kept) = StructuredPruner::prune_channels(&weight, F(0.5));
    assert_eq!(kept.len(), 2);
    assert!(kept.contains(&0));
    assert!(kept.contains(&1));
}

#[test]
fn automl_finds_recipe() {
    let model = model_of(&[(8, 16), (16, 4)], 1);
    let inputs = randn(2, &[4, 8]);
    let targets = randn(3, &[4, 4]);
    let recipe = automl_search(&model, &inputs, &targets, &MSELoss, F(3.0));
    assert!(recipe.compression_ratio.0 > 0.0);
    assert!(!recipe.strategies.is_empty());
}

#[test]
fn a_recipe_that_is_reached_fills_the_rest() {
    let model = model_of(&[(2, 2), (2, 2)], 1);
    let x = randn(2, &[1, 2]);
    let t = randn(3, &[1, 2]);
    let recipe = automl_search(&model, &x, &t, &MSELoss, F(1.0));
    assert_eq!(recipe.strategies.len(), 3);
    assert!(matches!(recipe.strategies[0], CompressionStrategy::Quantize { bits: 4 }));
    assert!(matches!(recipe.strategies[1], CompressionStrategy::Quantize { bits: 4 }));
    assert!(matches!(recipe.strategies[2], CompressionStrategy::Unchanged));
    assert_eq!(recipe.compression_ratio.0, 64.0);
}

#[test]
fn compression_strategy_size_factor() {
    assert_eq!(CompressionStrategy::<F>::Unchanged.size_factor().0, 1.0);
    assert!(CompressionStrategy::Prune { ratio: F(0.5) }.size_factor().0 > 1.0);
    assert!(CompressionStrategy::<F>::Quantize { bits: 8 }.size_factor().0 > 3.0);
}

// ---- Data

#[test]
fn csv_loading_and_type_inference() {
    let csv = "name,score,grade\nAlice,95.5,A\nBob,87.2,B\nCarol,92.0,A\n";
    let ds: Dataset<F> = parse_delimited(csv, ',').unwrap();
    assert_eq!(ds.num_rows, 3);
    assert!(ds.get_float("score").is_some(), "score should be numeric");
    assert!(ds.get_text("name").is_some(), "name should be text");
    assert!(ds.get_text("grade").is_some(), "grade should be text");
    let scores = ds.get_float("score").unwrap();
    assert!((scores[0].0 - 95.5).abs() < 1e-3);
}

#[test]
fn csv_quoted_fields() {
    let line = r#""hello, world",42,"quoted,field""#;
    let fields = parse_csv_line(line, ',');
    assert_eq!(fields.len(), 3);
    assert_eq!(fields[0], "hello, world");
    assert_eq!(fields[1], "42");
    assert_eq!(fields[2], "quoted,field");
}

#[test]
fn jsonl_loading() {
    let jsonl = r#"{"text":"hello","label":1}
{"text":"world","label":0}
{"text":"test","label":1}"#;
    let ds: Dataset<F> = parse_jsonl(jsonl);
    assert!(ds.get_text("text").is_some());
    assert!(ds.get_float("label").is_some());
    let labels = ds.get_float("label").unwrap();
    assert_eq!(raw(labels), vec![1.0, 0.0, 1.0]);
}

#[test]
fn dataset_to_tensor() {
    let mut ds = Dataset::new("test");
    ds.add_float_column("a", fs(&[1.0, 2.0, 3.0]));
    ds.add_float_column("b", fs(&[4.0, 5.0, 6.0]));
    let t = ds.to_tensor(&["a", "b"]);
    assert_eq!(t.shape(), vec![3, 2]);
    assert_eq!(raw(&t.data), vec![1.0, 4.0, 2.0, 5.0, 3.0, 6.0]);
}

#[test]
fn dataset_head() {
    let mut ds = Dataset::new("test");
    ds.add_float_column("x", fs(&[1.0, 2.0, 3.0, 4.0, 5.0]));
    let head = ds.head(3);
    assert_eq!(head.num_rows, 3);
    assert_eq!(head.get_float("x").unwrap().len(), 3);
}

#[test]
fn train_test_split() {
    let mut ds = Dataset::new("test");
    ds.add_float_column("x", (0..100).map(|i| F(i as f32)).collect());
    let (train, test) = ds.train_test_split(F(0.8));
    assert_eq!(train.num_rows, 80);
    assert_eq!(test.num_rows, 20);
}

#[test]
fn synthetic_classification() {
    let ds: Dataset<F> = make_classification(50, 4, 3);
    assert_eq!(ds.num_rows, 50);
    assert!(ds.get_float("f0").is_some());
    assert!(ds.get_float("label").is_some());
    let labels = ds.get_float("label").unwrap();
    assert!(labels.iter().all(|l| (0.0..3.0).contains(&l.0)));
}

#[test]
fn synthetic_regression() {
    let ds: Dataset<F> = make_regression(30, 3);
    assert_eq!(ds.num_rows, 30);
    assert!(ds.get_float("target").is_some());
}

#[test]
fn synthetic_data_follow_their_draws() {
    let a = classification_from(4, 2, 2, &fs(&[0.25; 16]));
    assert_eq!(raw(a.get_float("label").unwrap()), vec![0.0, 1.0, 0.0, 1.0]);
    let f0 = raw(a.get_float("f0").unwrap());
    assert_eq!(f0[0], f0[2]);
    assert!(f0[0] != f0[1]);
    assert_close(f0[0], 0.0, 1e-6, "a quarter turn from the mean");
    assert_close(f0[1], 0.8, 1e-6, "the mean of the second class");
    let far = classification_from(1, 1, 1, &fs(&[0.5, 0.5]));
    let deviation = -(2.0f32 * 2.0f32.ln()).sqrt() * 0.6 / 12.0f32.sqrt();
    assert_close(raw(far.get_float("f0").unwrap())[0], deviation, 1e-6, "half a turn");
    let r = regression_from(2, 1, &fs(&[0.75, 0.5, 0.5, 1.0, 0.5]));
    let target = raw(r.get_float("target").unwrap());
    assert_close(target[0], 0.0, 1e-6, "nothing times a half");
    assert_close(target[1], 0.5, 1e-6, "one times a half");
}

#[test]
fn dataset_summary() {
    let mut ds = Dataset::new("test");
    ds.add_float_column("x", fs(&[1.0, 2.0]));
    ds.add_text_column("name", vec!["a".into(), "b".into()]);
    let s = ds.summary();
    assert!(s.contains("test"));
    assert!(s.contains("f32"));
    assert!(s.contains("str"));
}

#[test]
fn dataset_builder_float() {
    let ds = DatasetBuilder::new("test")
        .add_float_row(&fs(&[1.0, 2.0]), F(0.0))
        .add_float_row(&fs(&[3.0, 4.0]), F(1.0))
        .build();
    assert_eq!(ds.num_rows, 2);
    assert!(ds.get_float("f0").is_some());
    assert!(ds.get_float("label").is_some());
}

#[test]
fn dataset_builder_text() {
    let ds: Dataset<F> = DatasetBuilder::new("text_ds")
        .add_text_row("hello world", "positive")
        .add_text_row("bad day", "negative")
        .build();
    assert_eq!(ds.num_rows, 2);
    assert!(ds.get_text("text").is_some());
}

#[test]
fn dataset_builder_named_columns() {
    let ds = DatasetBuilder::new("named")
        .add_float_column("x", fs(&[1.0, 2.0, 3.0]))
        .add_float_column("y", fs(&[4.0, 5.0, 6.0]))
        .add_text_column("category", vec!["a".into(), "b".into(), "c".into()])
        .build();
    assert_eq!(ds.num_rows, 3);
    assert!(ds.get_float("x").is_some());
    assert!(ds.get_text("category").is_some());
}

#[test]
fn dataset_builder_csv() {
    let builder = DatasetBuilder::new("csv_test")
        .add_float_column("a", fs(&[1.0, 2.0]))
        .add_float_column("b", fs(&[3.0, 4.0]));
    let content = builder.csv_text();
    assert!(content.contains("a") && content.contains("b"));
    assert!(content.contains("1"));
    let back: Dataset<F> = parse_delimited(&content, ',').unwrap();
    assert_eq!(raw(back.get_float("b").unwrap()), vec![3.0, 4.0]);
}

#[test]
fn cached_datasets_are_written_by_name() {
    let mut ds = Dataset::new("x");
    ds.add_float_column("a", fs(&[1.5, 2.0]));
    ds.add_text_column("b", vec!["p".into(), "q".into()]);
    assert_eq!(
        dataset_to_cache_json(&ds),
        "{\"source\":\"x\",\"num_rows\":2,\"columns\":{\"a\":{\"type\":\"float\",\"values\":[1.5,2]},\"b\":{\"type\":\"text\",\"values\":[\"p\",\"q\"]}}}"
    );
}

#[test]
fn cached_datasets_come_back() {
    let mut ds = Dataset::new("hub:x");
    ds.add_float_column("score", fs(&[1.5, -0.1, 1e-7]));
    ds.add_text_column("words", vec!["a, \"b\"".into(), "{c}]".into(), "d\\e".into()]);
    ds.add_text_column("none", vec![]);
    let back: Dataset<F> = dataset_from_cache_json(&dataset_to_cache_json(&ds), "again").unwrap();
    assert_eq!(back.source, "again");
    assert_eq!(back.num_rows, 3);
    assert_eq!(raw(back.get_float("score").unwrap()), vec![1.5, -0.1, 1e-7]);
    assert_eq!(back.get_text("words").unwrap(), ds.get_text("words").unwrap());
    assert!(back.get_text("none").unwrap().is_empty());
    assert_eq!(back.columns.len(), 3);
}

#[test]
fn what_was_fetched_comes_back_from_the_file() {
    let mut pager = RowPager::new(2);
    let body = r#"{"rows":[{"row":{"x":1.5,"y":"a \"b\", c"}},{"row":{"x":-2,"y":"]"}}]}"#;
    pager.accept(try_extract_rows(body).unwrap());
    assert!(pager.next().is_none());
    let first: Dataset<F> = pager.dataset("d");
    let file = dataset_to_cache_json(&first);
    let second: Dataset<F> = from_kept(Some(&file), "d").unwrap();
    assert_eq!(second.num_rows, 2);
    assert_eq!(raw(second.get_float("x").unwrap()), vec![1.5, -2.0]);
    assert_eq!(second.get_text("y"), first.get_text("y"));
    assert!(from_kept::<F>(None, "d").is_none());
}

#[test]
fn cached_columns_are_read_key_by_key() {
    let text = r#"{"num_rows":1,"a":{"type":"float" "values":[1.5]},"b":"word"}"#;
    let back: Dataset<F> = dataset_from_cache_json(text, "cache").unwrap();
    assert_eq!(raw(back.get_float("a").unwrap()), vec![1.5]);
    assert_eq!(back.get_text("b").unwrap()[0], "word");
}

// ---- Pages

#[test]
fn training_html() {
    let mut d = TrainingDashboard::new("Run");
    d.add_point(1, F(3.0));
    d.add_point(2, F(1.0));
    let h = d.render();
    assert!(h.contains("<svg") && h.contains("polyline"));
}

#[test]
fn training_empty() {
    let d: TrainingDashboard<F> = TrainingDashboard::new("E");
    assert!(d.render().contains("No data"));
}

#[test]
fn heatmap() {
    let t = tensor(&[1.0, 2.0, 3.0, 4.0], &[2, 2]);
    let h = tensor_heatmap_html(&t, 100);
    assert!(h.contains("<td") && h.contains("hsl("));
}

#[test]
fn full_dash() {
    let m = ModelDashboard::new("M").layer("Linear", 4, 8, "he");
    let mut t = TrainingDashboard::new("T");
    t.add_point(1, F(1.0));
    let h = full_dashboard("Full", &m, &t);
    assert!(h.contains("Architecture") && h.contains("Metrics"));
}

// ---- Rewards

fn group(responses: &[&str], rewards: &[f32]) -> GrpoGroup<F> {
    GrpoGroup {
        prompt: "test".into(),
        responses: responses.iter().map(|s| s.to_string()).collect(),
        rewards: fs(rewards),
    }
}

#[test]
fn grpo_advantages_zero_mean() {
    let adv = raw(&group(&["a", "b", "c"], &[1.0, 2.0, 3.0]).advantages());
    let mean: f32 = adv.iter().sum::<f32>() / adv.len() as f32;
    assert!(mean.abs() < 1e-5, "advantages should be zero-mean: {mean}");
}

#[test]
fn grpo_advantages_normalized() {
    let adv = raw(&group(&["a", "b", "c", "d"], &[0.1, 0.2, 0.8, 0.9]).advantages());
    let std: f32 = (adv.iter().map(|a| a.powi(2)).sum::<f32>() / adv.len() as f32).sqrt();
    assert!((std - 1.0).abs() < 0.01, "advantages should be unit std: {std}");
}

#[test]
fn grpo_best_response() {
    let group = group(&["bad", "good", "ok"], &[0.1, 0.9, 0.5]);
    assert_eq!(group.best_index(), 1);
    assert_eq!(group.best_response(), "good");
}

#[test]
fn grpo_trainer_tracks_stats() {
    let mut trainer = GrpoTrainer::new(GrpoConfig::default());
    let stats = trainer.step(&[group(&["a", "b"], &[0.3, 0.7])]);
    assert_eq!(stats.len(), 1);
    assert!(stats[0].best_reward.0 > stats[0].worst_reward.0);
}

#[test]
fn reward_correctness_passed() {
    let model: RewardModel<F> = RewardModel::new(RewardWeights::default());
    let score = model.score("fn main() {}", Some(true));
    assert!((score.correctness.0 - 1.0).abs() < 1e-5);
}

#[test]
fn reward_correctness_failed() {
    let model: RewardModel<F> = RewardModel::new(RewardWeights::default());
    let score = model.score("fn main() { panic!() }", Some(false));
    assert!((score.correctness.0 - 0.0).abs() < 1e-5);
}

#[test]
fn reward_readability_good_code() {
    let model: RewardModel<F> = RewardModel::new(RewardWeights::default());
    let code = "// Good function\nfn calculate_sum(a: i32, b: i32) -> i32 {\n    a + b\n}\n";
    let score = model.score(code, None);
    assert!(
        score.readability.0 > 0.5,
        "readable code should score > 0.5: {}",
        score.readability.0
    );
}

#[test]
fn reward_aesthetics_concise() {
    let model: RewardModel<F> = RewardModel::new(RewardWeights::default());
    let concise = "fn add(a: i32, b: i32) -> i32 { a + b }\n";
    let verbose = "fn add(a: i32, b: i32) -> i32 {\n    // This function adds two numbers\n    // It takes two i32 parameters\n    // And returns their sum\n    let result = a + b;\n    return result;\n}\n";
    let score_c = model.score(concise, None);
    let score_v = model.score(verbose, None);
    assert!(score_c.aesthetics.0 >= score_v.aesthetics.0, "concise should score >= verbose");
}

#[test]
fn reward_total_weighted() {
    let model = RewardModel::new(RewardWeights {
        correctness: F(0.5),
        readability: F(0.2),
        style: F(0.15),
        aesthetics: F(0.15),
    });
    let reward = model.reward("fn add(a: i32, b: i32) -> i32 { a + b }\n", Some(true));
    assert!(reward.0 > 0.5, "good code should have high reward: {}", reward.0);
}

#[test]
fn co_evolution_runs() {
    let mut trainer: CoEvolutionTrainer<F> =
        CoEvolutionTrainer::new(GrpoConfig::default(), RewardWeights::default());
    let problems = vec!["write add function".to_string()];
    let mut code_samples = Table::new();
    code_samples.insert(
        "write add function",
        vec![
            "fn add(a: i32, b: i32) -> i32 { a + b }".to_string(),
            "fn add(a, b) { a + b }".to_string(),
        ],
    );
    let mut test_samples = Table::new();
    test_samples.insert("write add function", vec!["assert_eq!(add(1, 2), 3);".to_string()]);
    let test_results = vec![
        ("write add function".to_string(), "0".to_string(), true),
        ("write add function".to_string(), "1".to_string(), false),
    ];
    let episodes =
        trainer.co_evolve_round(&problems, &code_samples, &test_samples, &test_results);
    assert!(!episodes.is_empty());
    assert!(trainer.stats.len() == 1);
    assert!(trainer.stats[0].code_pass_rate.0 > 0.0);
}

// ---- A session

#[test]
fn sparkline_rendering() {
    let vals = fs(&[10.0, 8.0, 5.0, 3.0, 1.0]);
    let s = sparkline(&vals);
    assert!(!s.is_empty());
    assert!(s.contains('█'));
    assert_eq!(s, "█▆▄▃▁");
}

#[test]
fn sparkline_constant() {
    let s = sparkline(&fs(&[5.0, 5.0, 5.0]));
    assert!(s.chars().all(|c| c == '█'));
}

fn text_of(r: Reply) -> String {
    match r {
        Reply::Text(t) => t,
        Reply::RandomTensor(_) => panic!("a tensor was asked for"),
    }
}

#[test]
fn process_command_model_build() {
    let mut session: Session<F> = Session::new();
    let mut d = draws(1, 8);
    let out = text_of(process_command(&mut session, "model new", &mut d));
    assert!(out.contains("New model"));
    let out = text_of(process_command(&mut session, "model add linear 4 2", &mut d));
    assert!(out.contains("Linear(4 -> 2)"));
    assert!(session.model.is_some());
    assert_eq!(session.model_input_dim, Some(4));
    assert_eq!(session.model_output_dim, Some(2));
}

#[test]
fn process_command_synthetic_data() {
    let mut session: Session<F> = Session::new();
    let mut d = draws(1, 0);
    let out = text_of(process_command(&mut session, "data synthetic 50 3 2", &mut d));
    assert!(out.contains("synthetic"));
    assert!(session.dataset.is_some());
    assert_eq!(session.feature_columns.len(), 3);
    assert_eq!(session.target_column.as_deref(), Some("label"));
}

#[test]
fn process_command_info() {
    let mut session: Session<F> = Session::new();
    session.model = Some(Sequential::new());
    let out = text_of(process_command(&mut session, "info", &mut draws(1, 0)));
    assert!(out.contains("model: true"));
    match process_command(&mut session, "tensor randn 2 3", &mut draws(1, 0)) {
        Reply::RandomTensor(d) => assert_eq!(d, vec![2, 3]),
        Reply::Text(_) => panic!("a tensor was asked for"),
    }
}

fn args(line: &str) -> Vec<Vec<char>> {
    command_of(line).1
}

#[test]
fn a_split_leaves_rows_out_of_training() {
    let mut session: Session<F> = Session::new();
    let mut ds = Dataset::new("test");
    ds.add_float_column("x", fs(&[1.0, 2.0, 3.0, 4.0]));
    ds.add_float_column("y", fs(&[5.0, 6.0, 7.0, 8.0]));
    session.dataset = Some(ds);
    session.model = Some(model_of(&[(1, 1)], 1));
    handle_data(&args("data features x"), &mut session);
    handle_data(&args("data target y"), &mut session);
    let rows = |s: &Session<F>| match handle_train(&args("train 1 0.1"), s) {
        TrainPlan::Ready { inputs, targets, .. } => (raw(&inputs.data), raw(&targets.data)),
        TrainPlan::Refused(t) => panic!("{t}"),
    };
    assert_eq!(rows(&session).0.len(), 4);
    match handle_data(&args("data split 0.5"), &mut session) {
        DataReply::Text(t) => assert_eq!(t, "Train/test split ratio: 0.5"),
        _ => panic!("a text was expected"),
    }
    assert_eq!(rows(&session), (vec![1.0, 2.0], vec![5.0, 6.0]));
    handle_data(&args("data split most"), &mut session);
    assert_eq!(session.split_ratio.unwrap().0, 0.8);
    match handle_data(&args("data split"), &mut session) {
        DataReply::Text(t) => assert!(t.starts_with("Unknown data command")),
        _ => panic!("a text was expected"),
    }
}

#[test]
fn the_loss_of_an_epoch_is_over_its_inputs() {
    let mut model = model_of(&[(2, 1)], 1);
    model.load_parameters(&[tensor(&[1.0, 1.0], &[1, 2]), tensor(&[0.0], &[1])]);
    let x = tensor(&[1.0, 2.0, 3.0, 4.0], &[2, 2]);
    let y = tensor(&[1.0, 5.0], &[2, 1]);
    assert_close(epoch_loss(&model, &x, &y).0, 2.0, 1e-6, "eight over four");
}

#[test]
fn batches_take_all_rows() {
    assert_eq!(batch_bounds(5, 2), vec![(0, 2), (2, 4), (4, 5)]);
    assert_eq!(batch_bounds(2, 0), vec![(0, 1), (1, 2)]);
    assert!(batch_bounds(0, 3).is_empty());
    let x = tensor(&[1.0, 2.0, 3.0, 4.0, 5.0, 6.0], &[3, 2]);
    let y = tensor(&[7.0, 8.0, 9.0], &[3, 1]);
    assert_eq!(raw(&take_rows(&x, 1, 3).data), vec![3.0, 4.0, 5.0, 6.0]);
    let config = DistillConfig { batch_size: 2, ..DistillConfig::default() };
    let all = Distiller::new(model_of(&[(2, 1)], 1), config).batches(&x, &y);
    assert_eq!(all.len(), 2);
    assert_eq!(raw(&all[1].0.data), vec![5.0, 6.0]);
    assert_eq!(raw(&all[1].1.data), vec![9.0]);
}

#[test]
fn a_round_starts_from_the_student_before() {
    let plan = ProgressiveDistiller::new(DistillConfig::default(), 2);
    let teacher = model_of(&[(3, 64), (64, 64), (64, 64), (64, 2)], 1);
    let (first, student) = plan.next_student(teacher, 3, 2, &mut draws(2, 10000));
    assert_eq!(first.teacher.layers.len(), 7);
    let shapes = |m: &Sequential<Layer<F>>| {
        m.parameters().iter().map(|p| p.shape()).filter(|s| s.len() == 2).collect::<Vec<_>>()
    };
    assert_eq!(shapes(&student), vec![vec![32, 3], vec![2, 32]]);
    let (second, last) = plan.next_student(student, 3, 2, &mut draws(3, 10000));
    assert_eq!(shapes(&second.teacher), vec![vec![32, 3], vec![2, 32]]);
    assert_eq!(shapes(&last), vec![vec![2, 3]]);
}

#[test]
fn a_session_from_data_to_prediction() {
    let mut session: Session<F> = Session::new();
    let mut d = draws(1, 6);
    assert_eq!(
        handle_model(&args("model add relu"), &mut session, &mut d),
        "No model. Run 'model new' first."
    );
    handle_model(&args("model new"), &mut session, &mut d);
    assert_eq!(weights_needed(&args("model add linear 2 3"), &session), Some(6));
    assert_eq!(
        handle_model(&args("model add linear 2 3"), &mut session, &mut d),
        "Added Linear(2 -> 3)"
    );
    assert_eq!(
        handle_model(&args("model add linear x 3"), &mut session, &mut d),
        "Error: invalid dimensions"
    );
    assert_eq!(
        handle_model(&args("model summary"), &mut session, &mut d),
        "\n  Model: Sequential\n  Parameters: 2 tensors, 9 total elements\n  Input dim: 2, Output dim: 3"
    );
    match handle_train(&args("train 3 0.5"), &session) {
        TrainPlan::Refused(t) => assert!(t.starts_with("Need both")),
        TrainPlan::Ready { .. } => panic!("there is no dataset"),
    }
    match handle_data(&args("data csv some/file.csv"), &mut session) {
        DataReply::LoadCsv(p) => assert_eq!(p, "some/file.csv"),
        _ => panic!("a file is to be read"),
    }
    let mut ds = Dataset::new("t");
    ds.add_float_column("a", fs(&[1.0, 2.0]));
    ds.add_float_column("b", fs(&[3.0, 4.0]));
    ds.add_float_column("y", fs(&[0.0, 1.0]));
    session.dataset = Some(ds);
    match handle_data(&args("data features a b"), &mut session) {
        DataReply::Text(t) => assert_eq!(t, "Feature columns: [\"a\", \"b\"]"),
        _ => panic!("nothing is to be read"),
    }
    handle_data(&args("data target y"), &mut session);
    match handle_data(&args("data columns"), &mut session) {
        DataReply::Text(t) => {
            assert_eq!(t, "  a: f32 [feature]\n  b: f32 [feature]\n  y: f32 [target]")
        }
        _ => panic!("nothing is to be read"),
    }
    match handle_train(&args("train 3 0.5"), &session) {
        TrainPlan::Ready { epochs, lr, inputs, targets } => {
            assert_eq!(epochs, 3);
            assert_eq!(lr.0, 0.5);
            assert_eq!(raw(&inputs.data), vec![1.0, 3.0, 2.0, 4.0]);
            assert_eq!(raw(&targets.data), vec![0.0, 1.0]);
        }
        TrainPlan::Refused(t) => panic!("{t}"),
    }
    match handle_predict(&args("predict 1"), &session) {
        PredictReply::Row { row, values } => {
            assert_eq!(row, 1);
            assert_eq!(values.len(), 3);
        }
        PredictReply::Refused(t) => panic!("{t}"),
    }
    assert!(handle_info(&session).contains("Features: [\"a\", \"b\"]\n    Target: y"));
    assert!(train_head(3, F(0.5)).contains("3 epochs, lr=0.5"));
    assert_eq!(epoch_line(&fs(&[2.0])), "  Epoch   1: loss =     2.0000 █");
    assert!(train_end(&fs(&[2.0, 0.25])).contains("Final loss: 0.2500"));
}

// ---- Teachers and students

fn batch_losses(
    distiller: &Distiller<F, Sequential<Layer<F>>>,
    student: &Sequential<Layer<F>>,
    inputs: &Tensor<F>,
    targets: &Tensor<F>,
    epochs: usize,
) -> Vec<Vec<F>> {
    (0..epochs).map(|_| vec![distiller.batch_loss(student, inputs, targets, &None).data[0]]).collect()
}

#[test]
fn distiller_generates_smaller_student() {
    let teacher = model_of(&[(32, 128), (128, 128), (128, 64), (64, 10)], 1);
    let teacher_params = parameter_count(&teacher);
    let distiller = Distiller::new(teacher, DistillConfig::default());
    let student = distiller.generate_student(32, 10, &mut draws(2, 100000));
    let student_params = parameter_count(&student);
    assert!(
        student_params < teacher_params,
        "student should be smaller: {} vs {}",
        student_params,
        teacher_params
    );
}

#[test]
fn distill_config_builder() {
    let cfg = DistillConfig::default()
        .with_temperature(F(2.0))
        .with_weights(F(0.5), F(0.3), F(0.2));
    assert_eq!(cfg.temperature.0, 2.0);
    assert_eq!(cfg.alpha.0, 0.5);
    assert_eq!(cfg.beta.0, 0.3);
    assert_eq!(cfg.gamma.0, 0.2);
}

#[test]
fn distillation_runs_and_reduces_loss() {
    let teacher = model_of(&[(8, 32), (32, 4)], 1);
    let inputs = randn(2, &[64, 8]);
    let targets = one_hot(64, 4);
    let config =
        DistillConfig { epochs: 5, batch_size: 16, lr: F(0.01), ..DistillConfig::default() };
    let distiller = Distiller::new(teacher, config);
    let student = distiller.generate_student(8, 4, &mut draws(3, 100000));
    let losses = batch_losses(&distiller, &student, &inputs, &targets, 5);
    let result = distiller.distill(student, &inputs, &targets, &losses);
    assert!(result.compression_ratio.0 > 1.0, "student should be compressed");
    assert!(!result.loss_history.is_empty(), "should have loss history");
}

#[test]
fn softmax_temp_sums_to_one() {
    let logits = tensor(&[1.0, 2.0, 3.0, 4.0, 5.0, 6.0], &[2, 3]);
    let p = raw(&softmax_temp(&logits, F(2.0)).data);
    let row0_sum = p[0] + p[1] + p[2];
    assert!((row0_sum - 1.0).abs() < 1e-5, "softmax row should sum to 1: {}", row0_sum);
}

#[test]
fn accuracy_computes_correctly() {
    let model = model_of(&[(4, 3)], 1);
    let inputs = randn(2, &[4, 4]);
    let targets = tensor(
        &[1.0, 0.0, 0.0, 0.0, 1.0, 0.0, 0.0, 0.0, 1.0, 0.0, 0.0, 0.0],
        &[4, 3],
    );
    let acc = compute_accuracy(&model, &inputs, &targets);
    assert!((0.0..=1.0).contains(&acc.0));
}

#[test]
fn progressive_distiller_creates_chain() {
    let teacher = model_of(&[(8, 64), (64, 4)], 1);
    let inputs = randn(2, &[32, 8]);
    let targets = one_hot(32, 4);
    let config =
        DistillConfig { epochs: 3, batch_size: 16, lr: F(0.01), ..DistillConfig::default() };
    let prog = ProgressiveDistiller::new(config, 2);
    let rounds = (0..2)
        .map(|i| Round {
            student: model_of(&[(8, 16), (16, 4)], i + 5),
            epochs: vec![vec![F(1.0)]; 3],
        })
        .collect();
    let results = prog.distill(&teacher, &inputs, &targets, rounds);
    assert_eq!(results.len(), 2, "should have 2 rounds");
    assert_close(results[1].compression_ratio.0, 1.0, 1e-6, "the second is as large as the first");
}

#[test]
fn distill_result_has_valid_metrics() {
    let teacher = model_of(&[(8, 32), (32, 4)], 1);
    let inputs = randn(2, &[16, 8]);
    let targets = repeat_rows(&tensor(&[1.0, 0.0, 0.0, 0.0], &[1, 4]), 16);
    let config = DistillConfig { epochs: 2, batch_size: 8, ..DistillConfig::default() };
    let distiller = Distiller::new(teacher, config);
    let student = distiller.generate_student(8, 4, &mut draws(3, 100000));
    let losses = batch_losses(&distiller, &student, &inputs, &targets, 2);
    let result = distiller.distill(student, &inputs, &targets, &losses);
    assert!(result.teacher_accuracy.0 >= 0.0 && result.teacher_accuracy.0 <= 1.0);
    assert!(result.student_accuracy.0 >= 0.0 && result.student_accuracy.0 <= 1.0);
    assert!(result.compression_ratio.0 > 0.0);
}

// ---- Adapters and training runs

#[test]
fn lora_forward_shape() {
    let lora = LoraAdapter::new(64, 32, 8, F(16.0), &mut draws(1, 10000));
    let x = randn(2, &[4, 64]);
    let y = lora.forward(&x);
    assert_eq!(y.shape(), vec![4, 32]);
}

#[test]
fn lora_zero_init_no_change() {
    let lora = LoraAdapter::new(8, 4, 2, F(4.0), &mut draws(1, 1000));
    let delta = lora.weight_delta();
    for v in raw(&delta.data) {
        assert!(v.abs() < 1e-6, "weight delta should be zero at init, got {v}");
    }
}

#[test]
fn lora_merge_matches_forward() {
    let mut lora = LoraAdapter::new(8, 4, 2, F(4.0), &mut draws(1, 1000));
    for v in &mut lora.lora_b.data {
        *v = F(0.1);
    }
    let merged = lora.merge();
    let x = randn(2, &[2, 8]);
    let y_lora = lora.forward(&x);
    let y_merged = x.matmul(&merged.transpose());
    let y_merged = if let Some(b) = &lora.bias { y_merged.add(b) } else { y_merged };
    for (a, b) in raw(&y_lora.data).iter().zip(raw(&y_merged.data).iter()) {
        assert!((a - b).abs() < 0.1, "lora forward should match merged, diff: {}", (a - b).abs());
    }
}

#[test]
fn lora_trainable_params_small() {
    let lora = LoraAdapter::new(256, 256, 8, F(16.0), &mut draws(1, 100000));
    let trainable_count: usize = lora.trainable_parameters().iter().map(|t| t.len()).sum();
    let full_count = 256 * 256;
    assert!(trainable_count < full_count / 10, "LoRA should have << full params");
}

#[test]
fn lr_schedule_constant() {
    let s: LrSchedule<F> = LrSchedule::Constant;
    assert!((s.lr(0).0 - 0.001).abs() < 1e-6);
    assert!((s.lr(1000).0 - 0.001).abs() < 1e-6);
}

#[test]
fn lr_schedule_warmup() {
    let s = LrSchedule::Warmup { warmup_steps: 100, base_lr: F(0.01) };
    assert!(s.lr(0).0 < 0.001, "lr(0) should be near 0");
    assert!((s.lr(100).0 - 0.01).abs() < 1e-6, "lr(100) should be base_lr");
    assert!((s.lr(500).0 - 0.01).abs() < 1e-6, "lr(500) should stay at base_lr");
}

#[test]
fn lr_schedule_cosine() {
    let s = LrSchedule::CosineWithWarmup {
        warmup_steps: 10,
        total_steps: 100,
        base_lr: F(0.01),
        min_lr: F(0.001),
    };
    assert!(s.lr(5).0 < s.lr(10).0);
    assert!((s.lr(10).0 - 0.01).abs() < 1e-6);
    assert!(s.lr(50).0 < 0.01);
    assert!(s.lr(99).0 > 0.0009, "lr(99) should be near min_lr, got {}", s.lr(99).0);
}

fn batches(n: usize, model: &Sequential<Layer<F>>, inputs: &Tensor<F>, targets: &Tensor<F>) -> Vec<
    BatchDone<F>,
> {
    (0..n)
        .map(|i| BatchDone {
            loss: MSELoss.forward(&model.forward(inputs), targets).data[0],
            input_len: inputs.len(),
            elapsed_secs: F(i as f32),
        })
        .collect()
}

#[test]
fn fast_trainer_trains() {
    let model = model_of(&[(4, 16), (16, 1)], 1);
    let config = FastTrainConfig {
        epochs: 5,
        micro_batch_size: 16,
        grad_accum_steps: 1,
        base_lr: F(0.01),
        lr_schedule: LrSchedule::Warmup { warmup_steps: 2, base_lr: F(0.01) },
        grad_clip: F(1.0),
        use_lora: false,
        lora_rank: 0,
        lora_alpha: F(0.0),
        log_every: 100,
    };
    let done = batches(4, &model, &randn(2, &[16, 4]), &randn(3, &[16, 1]));
    let mut trainer = FastTrainer::new(model, config);
    let history = trainer.fit(&vec![done; 5]);
    assert_eq!(history.len(), trainer.history().len());
    assert_eq!(trainer.total_steps(), 20);
}

#[test]
fn fast_trainer_grad_accumulation() {
    let model = model_of(&[(4, 2)], 1);
    let config = FastTrainConfig {
        epochs: 2,
        micro_batch_size: 8,
        grad_accum_steps: 4,
        base_lr: F(0.01),
        lr_schedule: LrSchedule::Constant,
        grad_clip: F(0.0),
        use_lora: false,
        lora_rank: 0,
        lora_alpha: F(0.0),
        log_every: 100,
    };
    let done = batches(4, &model, &randn(2, &[8, 4]), &randn(3, &[8, 2]));
    let mut trainer = FastTrainer::new(model, config);
    let mut state = trainer.start_epoch(0, 0);
    assert!(!trainer.finish_batch(&mut state, done[0]).step);
    assert!(!trainer.finish_batch(&mut state, done[1]).step);
    assert!(!trainer.finish_batch(&mut state, done[2]).step);
    assert!(trainer.finish_batch(&mut state, done[3]).step);
    assert!(trainer.total_steps() > 0);
}

#[test]
fn fast_train_config_builder() {
    let cfg = FastTrainConfig::default()
        .with_lora(16, F(32.0))
        .with_accum(8)
        .with_grad_clip(F(5.0));
    assert!(cfg.use_lora);
    assert_eq!(cfg.lora_rank, 16);
    assert_eq!(cfg.grad_accum_steps, 8);
    assert_eq!(cfg.grad_clip.0, 5.0);
    assert_eq!(cfg.effective_batch_size(), 32 * 8);
}

#[test]
fn adapters_alone_are_trained() {
    let model = model_of(&[(3, 2), (2, 2)], 1);
    let x = randn(2, &[4, 3]);
    let before = raw(&model.forward(&x).data);
    let weight = raw(&model.parameters()[0].data);
    let mut trainer =
        FastTrainer::new_lora(model, 1, F(2.0), FastTrainConfig::default(), &mut draws(3, 100));
    assert!(trainer.config.use_lora);
    assert_eq!(raw(&trainer.model.forward(&x).data), before);
    let mut params = trainer.model.parameters();
    assert_eq!(params.iter().map(|p| p.shape()).collect::<Vec<_>>(), vec![
        vec![1, 3],
        vec![2, 1],
        vec![1, 2],
        vec![2, 1]
    ]);
    params[1].data = fs(&[1.0, -1.0]);
    trainer.model.load_adapters(&params);
    assert_eq!(raw(&trainer.model.parameters()[1].data), vec![1.0, -1.0]);
    match &trainer.model.layers[0] {
        Adapted::Adapter(l) => assert_eq!(raw(&l.frozen_weight.data), weight),
        Adapted::Frozen(_) => panic!("an adapter was expected"),
    }
}

#[test]
fn every_step_has_the_rate_of_the_schedule() {
    let model = model_of(&[(4, 2)], 1);
    let done = batches(2, &model, &randn(2, &[8, 4]), &randn(3, &[8, 2]));
    let config = FastTrainConfig {
        grad_accum_steps: 2,
        lr_schedule: LrSchedule::Warmup { warmup_steps: 10, base_lr: F(1.0) },
        ..FastTrainConfig::default()
    };
    let mut trainer = FastTrainer::new(model, config);
    let mut state = trainer.start_epoch(0, 3);
    assert!(trainer.finish_batch(&mut state, done[0]).rate.is_none());
    assert_close(trainer.finish_epoch(&state).0.rate.unwrap().0, 0.3, 1e-6, "the rest");
    let deed = trainer.finish_batch(&mut state, done[1]);
    assert_close(deed.rate.unwrap().0, 0.3, 1e-6, "the fourth step");
    assert_close(trainer.step_rate(&state).0, 0.4, 1e-6, "the fifth step");
    assert!(trainer.finish_epoch(&state).0.rate.is_none());
}

#[test]
fn lora_from_linear() {
    let layer = Linear::new(32, 16, true, &mut draws(1, 512));
    let adapter = LoraAdapter::from_linear(&layer, 4, F(8.0), &mut draws(2, 1000));
    assert_eq!(adapter.rank, 4);
    assert_eq!(adapter.in_features, 32);
    assert_eq!(adapter.out_features, 16);
    assert_eq!(raw(&layer.weight.data), raw(&adapter.frozen_weight.data));
}

#[test]
fn clip_grad_norm_works() {
    let mut t = tensor(&[3.0, 4.0], &[2]);
    t.grad = Some(fs(&[10.0, 10.0]));
    let mut all = vec![t];
    clip_grad_norm(&mut all, F(1.0));
    let g = raw(all[0].grad.as_ref().unwrap());
    let norm = (g[0] * g[0] + g[1] * g[1]).sqrt();
    assert!(norm <= 1.01, "clipped norm should be <= 1.0, got {norm}");
}

// ---- Disks

fn small_config(budget: usize) -> OffloadConfig {
    OffloadConfig { ram_budget_bytes: budget, ssd_dir: "/tmp/t".into(), hot_cache_size: 10 }
}

fn written(actions: &[DiskAction]) -> Vec<(String, Vec<u8>)> {
    actions
        .iter()
        .filter_map(|a| match a {
            DiskAction::Write { path, bytes } => Some((path.clone(), bytes.clone())),
            DiskAction::Remove { .. } => None,
        })
        .collect()
}

#[test]
fn ssd_tensor_roundtrip() {
    let original = tensor(&[1.0, 2.0, 3.0, 4.0, 5.0, 6.0], &[2, 3]);
    let (ssd, bytes) = SsdTensor::write(&original, "/tmp/t", 7);
    assert_eq!(ssd.shape(), &vec![2, 3]);
    let loaded: Tensor<F> = SsdTensor::load(&bytes).unwrap();
    assert_eq!(raw(&original.data), raw(&loaded.data));
    assert_eq!(loaded.shape(), vec![2, 3]);
    assert!(SsdTensor::load::<F>(&bytes[..3]).is_err());
}

#[test]
fn ssd_tensor_large() {
    let original = randn(1, &[128, 256]);
    let (_, bytes) = SsdTensor::write(&original, "/tmp/t", 8);
    let loaded: Tensor<F> = SsdTensor::load(&bytes).unwrap();
    assert_eq!(loaded.shape(), vec![128, 256]);
    assert_eq!(raw(&original.data), raw(&loaded.data));
}

#[test]
fn tiered_tensor_offload_load() {
    let mut tiered = TieredTensor::from_tensor(tensor(&[10.0, 20.0, 30.0], &[3]), 1);
    assert_eq!(tiered.tier(), MemoryTier::Ram);
    let actions = tiered.offload_to_ssd("/tmp/t", 1);
    assert_eq!(tiered.tier(), MemoryTier::Ssd);
    let (path, bytes) = &written(&actions)[0];
    assert_eq!(tiered.needs_load(), Some(path.as_str()));
    tiered.load_to_ram(SsdTensor::load(bytes).unwrap(), 2);
    assert_eq!(tiered.tier(), MemoryTier::Ram);
    let t = tiered.get(3);
    assert!((t.data[0].0 - 10.0).abs() < 1e-5);
}

#[test]
fn tiered_store_eviction() {
    let mut store = TieredStore::new(OffloadConfig { hot_cache_size: 1, ..small_config(120) });
    store.insert("a", tensor(&[1.0; 20], &[20]), 1);
    store.insert("b", tensor(&[2.0; 20], &[20]), 2);
    let (ram, ssd) = store.tier_counts();
    assert!(ssd >= 1, "at least 1 tensor should be on SSD, got RAM:{ram} SSD:{ssd}");
    assert!(store.ram_usage() <= 120, "RAM should be under budget");
    assert!(store.needs_load("a").is_some());
    assert!(store.needs_load("b").is_none());
}

#[test]
fn no_more_tensors_stay_than_may_be_hot() {
    let mut store = TieredStore::new(OffloadConfig { hot_cache_size: 1, ..small_config(0) });
    assert!(written(&store.insert("a", tensor(&[1.0], &[1]), 1)).is_empty());
    let files = written(&store.insert("b", tensor(&[2.0], &[1]), 2));
    assert_eq!(files.len(), 1);
    assert_eq!(store.tier_counts(), (1, 1));
    let a: Tensor<F> = SsdTensor::load(&files[0].1).unwrap();
    let (t, out) = store.get("a", Some(a), 3).unwrap();
    assert_eq!(raw(&t.data), vec![1.0]);
    assert_eq!(written(&out).len(), 1);
    assert!(store.needs_load("b").is_some() && store.needs_load("a").is_none());
}

#[test]
fn tiered_store_get_loads_from_ssd() {
    let mut store = TieredStore::new(small_config(0));
    store.insert("x", tensor(&[42.0, 43.0], &[2]), 1);
    let actions = store.offload("x");
    let loaded: Tensor<F> = SsdTensor::load(&written(&actions)[0].1).unwrap();
    let (t, _) = store.get("x", Some(loaded), 2).unwrap();
    assert!((t.data[0].0 - 42.0).abs() < 1e-5);
}

#[test]
fn offload_model_roundtrip() {
    let model = model_of(&[(8, 16), (16, 4)], 1);
    let (mut offloaded, first) = OffloadModel::new(model, small_config(0), 1, 0);
    assert!(written(&first).is_empty());
    let files = written(&offloaded.offload());
    assert!(offloaded.ssd_usage() > 0);
    assert_eq!(offloaded.ram_usage(), 0);
    let loaded: Vec<Tensor<F>> = offloaded
        .store
        .pending()
        .iter()
        .map(|p| SsdTensor::load(&files.iter().find(|f| f.0 == *p).unwrap().1).unwrap())
        .collect();
    let x = randn(2, &[2, 8]);
    let y = offloaded.forward(&x, Some(loaded), 9);
    assert_eq!(y.shape(), vec![2, 4]);
    assert!(!offloaded.offloaded);
    assert_eq!(offloaded.ssd_usage(), 0);
}

#[test]
fn memory_report_displays() {
    let model = model_of(&[(4, 8)], 1);
    let (offloaded, _) = OffloadModel::new(model, OffloadConfig::for_home(None), 1, 0);
    let report = offloaded.memory_report();
    assert!(report.contains("RAM"));
    assert!(report.contains("tensors"));
    assert_eq!(
        report,
        "OffloadModel memory: 2 tensors (RAM: 2, SSD: 0), RAM: 0.0 MB, SSD: 0.0 MB"
    );
}

#[test]
fn offload_config_builder() {
    let config = OffloadConfig::for_home(Some("/home/x")).with_ram_budget_gb(F(8.0)).with_hot_cache(64);
    assert_eq!(config.ram_budget_bytes, 8 * 1024 * 1024 * 1024);
    assert_eq!(config.hot_cache_size, 64);
    assert!(config.ssd_dir.starts_with("/home/x"));
}

// ---- Positions

#[test]
fn rope_preserves_shape() {
    let rope: RoPE<F> = RoPE::new(16, 64);
    let x = randn(1, &[2, 8, 16]);
    let y = rope.apply(&x);
    assert_eq!(y.shape(), vec![2, 8, 16]);
}

#[test]
fn rope_preserves_norm() {
    let rope: RoPE<F> = RoPE::new(8, 32);
    let x = tensor(&[3.0, 4.0, 0.0, 0.0, 0.0, 0.0, 0.0, 0.0], &[1, 8]);
    let yd = raw(&rope.apply(&x).data);
    let norm = (yd[0] * yd[0] + yd[1] * yd[1]).sqrt();
    assert_close(norm, 5.0, 1e-4, "RoPE must preserve pair norm");
}

#[test]
fn rope_position_zero_is_identity() {
    let rope: RoPE<F> = RoPE::new(8, 32);
    let given = [1.0, 2.0, 3.0, 4.0, 5.0, 6.0, 7.0, 8.0];
    let x = tensor(&given, &[1, 8]);
    let yd = raw(&rope.apply(&x).data);
    for i in 0..8 {
        assert_close(yd[i], given[i], 1e-6, "pos 0 identity");
    }
}

#[test]
fn rope_yarn_extends_context() {
    let yarn = RoPE::yarn(8, 32, F(10000.0), F(4.0));
    assert_eq!(yarn.scale.0, 4.0);
    let x = randn(1, &[1, 16, 8]);
    let y = yarn.apply(&x);
    assert_eq!(y.shape(), vec![1, 16, 8]);
    assert!(raw(&y.data).iter().all(|v| v.is_finite()));
}

#[test]
fn rope_extend_grows_tables() {
    let mut rope: RoPE<F> = RoPE::new(8, 16);
    assert_eq!(rope.max_seq_len, 16);
    rope.extend(64);
    assert_eq!(rope.max_seq_len, 64);
    let x = randn(1, &[1, 32, 8]);
    let y = rope.apply(&x);
    assert_eq!(y.shape(), vec![1, 32, 8]);
}

#[test]
fn carope_preserves_shape() {
    let rope = CARoPE::new(16, 32, 64, &mut draws(1, 10000));
    let emb = randn(2, &[2, 8, 32]);
    let x = randn(3, &[2, 4, 8, 16]);
    let y = rope.apply(&x, &emb);
    assert_eq!(y.shape(), vec![2, 4, 8, 16]);
}

#[test]
fn carope_different_from_static_rope() {
    let static_rope: RoPE<F> = RoPE::new(8, 16);
    let carope = CARoPE::new(8, 16, 16, &mut draws(1, 10000)).with_spread(F(0.5));
    let emb = tensor(&[1.0; 32], &[2, 16]);
    let x = tensor(
        &[1.0, 0.0, 1.0, 0.0, 1.0, 0.0, 1.0, 0.0, 1.0, 0.0, 1.0, 0.0, 1.0, 0.0, 1.0, 0.0],
        &[2, 8],
    );
    let sd = raw(&static_rope.apply(&x).data);
    let cd = raw(&carope.apply(&x, &emb).data);
    let any_diff = (8..16).any(|i| (sd[i] - cd[i]).abs() > 1e-4);
    assert!(
        any_diff,
        "CARoPE should differ from static RoPE at pos >= 1 with non-zero embeddings"
    );
}

#[test]
fn carope_has_parameters() {
    let rope = CARoPE::new(16, 32, 64, &mut draws(1, 10000));
    assert_eq!(rope.parameters().len(), 1, "CARoPE should expose the freq_proj parameter");
}

#[test]
fn alibi_diagonal_is_zero() {
    let alibi: AlibiBias<F> = AlibiBias::new(4);
    let bias = raw(&alibi.bias_matrix(8));
    let seq = 8;
    for h in 0..4 {
        for i in 0..seq {
            assert_close(bias[h * seq * seq + i * seq + i], 0.0, 1e-8, "ALiBi diagonal must be 0");
        }
    }
}

#[test]
fn alibi_farther_is_more_negative() {
    let alibi: AlibiBias<F> = AlibiBias::new(4);
    let bias = raw(&alibi.bias_matrix(8));
    let near = bias[1];
    let far = bias[7];
    assert!(far < near, "ALiBi: farther distance should be more negative");
}

#[test]
fn alibi_slopes_decreasing() {
    let slopes: Vec<F> = alibi_slopes(8);
    for i in 0..7 {
        assert!(slopes[i].0 > slopes[i + 1].0, "ALiBi slopes should be decreasing per head");
    }
    for s in &slopes {
        assert!(s.0 > 0.0 && s.0 < 1.0, "ALiBi slope {} out of range (0,1)", s.0);
    }
}

#[test]
fn sinusoidal_pe_correct_values() {
    let pe: SinusoidalPE<F> = SinusoidalPE::new(4, 10);
    let td = raw(&pe.table().data);
    assert_close(td[0], 0.0, 1e-6, "sin(0)");
    assert_close(td[1], 1.0, 1e-6, "cos(0)");
    assert_close(td[2], 0.0, 1e-6, "sin(0)");
    assert_close(td[3], 1.0, 1e-6, "cos(0)");
    assert_close(td[4], 1.0f32.sin(), 1e-6, "sin(1)");
}

#[test]
fn learned_pe_is_trainable() {
    let pe: LearnedPE<F> = LearnedPE::new(8, 16);
    assert_eq!(pe.parameters().len(), 1);
    let x = randn(1, &[2, 4, 8]);
    let y = pe.apply(&x);
    assert_eq!(y.shape(), vec![2, 4, 8]);
}

#[test]
fn learned_pe_init_sinusoidal() {
    let pe: LearnedPE<F> = LearnedPE::new(8, 16).init_sinusoidal();
    let td = raw(&pe.table.data);
    assert_close(td[0], 0.0, 1e-6, "init_sinusoidal pos 0");
    assert_close(td[1], 1.0, 1e-6, "init_sinusoidal pos 0");
}

#[test]
fn positional_encoding_enum() {
    let pe: PositionalEncoding<F> = PositionalEncoding::Learned(LearnedPE::new(8, 16));
    let x = randn(1, &[1, 4, 8]);
    let y = pe.apply(&x);
    assert_eq!(y.shape(), vec![1, 4, 8]);
    assert!(!pe.parameters().is_empty());
    let none: PositionalEncoding<F> = PositionalEncoding::Absent;
    let y2 = none.apply(&x);
    assert_eq!(raw(&y2.data), raw(&x.data), "None PE should be identity");
}

// ---- Larger models

#[test]
fn heads_come_back_together() {
    let m = MultiHeadAttention::new(4, 2, &mut draws(1, 64));
    let x = randn(2, &[6, 4]);
    let split = m.split_heads(&x, 2, 3);
    assert_eq!(split.shape(), vec![4, 3, 2]);
    assert_eq!(raw(&m.merge_heads(&split, 2, 3).data), raw(&x.data));
    assert_eq!(m.forward(&randn(3, &[2, 3, 4])).shape(), vec![2, 3, 4]);
}

#[test]
fn loops_stop_at_the_threshold() {
    let t = LoopedTransformer::new(3, 4, 2, 8, 2, 5, &mut draws(1, 10000));
    let x = randn(2, &[1, 3, 3]);
    let (y, loops) = t.forward_with_loops(&x);
    assert_eq!(y.shape(), vec![1, 3, 2]);
    assert_eq!(loops, 5);
    let lazy = LoopedTransformer::new(3, 4, 2, 8, 2, 5, &mut draws(1, 10000))
        .with_adaptive_halting(F(0.0));
    assert_eq!(lazy.forward_with_loops(&x).1, 1);
    let mut even = LoopedTransformer::new(3, 4, 2, 8, 2, 5, &mut draws(1, 10000))
        .with_adaptive_halting(F(0.5));
    even.halt_unit.weight = Tensor::zeros(&[1, 4]);
    even.halt_unit.bias = Some(Tensor::zeros(&[1]));
    assert_eq!(even.forward_with_loops(&x).1, 2);
    let full = Transformer::new(3, 4, 2, 8, 2, 2, &mut draws(1, 10000));
    assert_eq!(full.forward(&x).shape(), vec![1, 3, 2]);
}

#[test]
fn loops_add_what_the_block_makes() {
    let t = LoopedTransformer::new(3, 4, 2, 8, 2, 1, &mut draws(1, 10000));
    let x = randn(2, &[1, 3, 3]);
    let h = t.embed.forward(&x);
    let number = t.time_proj.forward(&sinusoidal_embedding(F(0.0), 4)).reshape(&[4]);
    let after = h.add(&t.block.forward(&h.add(&number)));
    let want = t.head.forward(&t.ln_final.forward(&after));
    assert_eq!(raw(&t.forward(&x).data), raw(&want.data));
}

#[test]
fn convolutions_look_back() {
    let x = tensor(&[1.0, 2.0, 3.0], &[1, 3, 1]);
    let w = tensor(&[10.0, 1.0], &[1, 2]);
    let y = raw(&conv1d_causal(&x, &w).data);
    assert_eq!(y[0] + y[1] + y[2], 36.0);
    assert_eq!(y.iter().filter(|v| **v == 1.0).count(), 1);
}

#[test]
fn state_spaces_keep_the_width() {
    let b = MambaBlock::new(4, 3, 2, 3, &mut draws(1, 10000));
    assert_eq!(b.forward(&randn(2, &[1, 5, 4])).shape(), vec![1, 5, 4]);
    let m = Mamba::new(4, 3, 2, 3, 2, &mut draws(1, 10000));
    assert_eq!(m.forward(&randn(3, &[1, 5, 4])).shape(), vec![1, 5, 4]);
}

#[test]
fn noise_grows_along_the_schedule() {
    let s: NoiseSchedule<F> = NoiseSchedule::new(ScheduleType::Linear, 10);
    assert_eq!(s.betas.len(), 10);
    assert_close(s.betas[0].0, 0.0001, 1e-7, "first");
    assert_close(s.betas[9].0, 0.02, 1e-6, "last");
    for i in 1..10 {
        assert!(s.alpha_cumprod[i].0 < s.alpha_cumprod[i - 1].0);
    }
    let c: NoiseSchedule<F> = NoiseSchedule::new(ScheduleType::Cosine, 10);
    assert!(c.betas.iter().all(|b| b.0 > 0.0 && b.0 < 1.0));
    let e: Tensor<F> = sinusoidal_embedding(F(0.0), 4);
    assert_eq!(e.data.len(), 4);
    assert!(raw(&e.data).iter().all(|v| *v == 0.0 || *v == 1.0));
}

#[test]
fn noise_is_mixed_in_and_guessed() {
    let d = DDPM::new(2, 8, 5, ScheduleType::Linear, &mut draws(1, 10000));
    let x = tensor(&[1.0, -1.0], &[1, 2]);
    let n = tensor(&[0.0, 0.0], &[1, 2]);
    let q = raw(&d.q_sample(&x, 0, &n).data);
    assert_close(q[0], (1.0f32 - 0.0001).sqrt(), 1e-5, "nearly unchanged");
    let (loss, mean) = d.train_batch_with(&x, 2, &n);
    assert_eq!(loss.shape(), vec![1]);
    assert!(mean.0 >= 0.0);
    assert_eq!(d.predict_noise(&x, 3).shape(), vec![1, 2]);
    assert_eq!(d.sample(3).shape(), vec![3, 2]);
    assert_eq!(d.train_batch(&x).0.shape(), vec![1]);
}

#[test]
fn reasoning_keeps_the_width() {
    let s = SwiReasoning::new(4, 3, F(0.5), &mut draws(1, 1000));
    let x = randn(2, &[1, 4]);
    assert_eq!(s.forward(&x).shape(), vec![1, 4]);
    let c = s.calculate_confidence(&x);
    assert!(c.0.is_finite());
    let m = MarkovianRSA::new(4, 2, 3, &mut draws(3, 1000));
    assert_eq!(m.forward(&x).data.len() % 4, 0);
}

#[test]
fn fixed_point_numbers_are_numbers_too() {
    let half: Fixed = Fixed::one().over(Fixed::count(2));
    assert_eq!(half.plus(half).whole(), 1);
    assert!(half.below(Fixed::one()));
    let text: String = half.show_places(2).iter().collect();
    assert_eq!(text, "0.50");
    let read = Fixed::read(&['-', '1', '.', '5']).unwrap();
    assert_eq!(read.times(Fixed::count(2)).whole(), -3);
}

#[test]
fn state_spaces_look_back() {
    let m = MambaBlock::new(4, 3, 2, 3, &mut draws(1, 10000));
    let x = randn(2, &[1, 5, 4]);
    let mut later = raw(&x.data);
    for v in later[12..].iter_mut() {
        *v += 1.0;
    }
    let (a, b) = (m.forward(&x), m.forward(&tensor(&later, &[1, 5, 4])));
    assert_eq!(raw(&a.data)[..12], raw(&b.data)[..12]);
    assert_ne!(raw(&a.data)[12..], raw(&b.data)[12..]);
}

#[test]
fn a_fresh_adapter_merges_to_what_stays() {
    let lora = LoraAdapter::new(6, 4, 2, F(4.0), &mut draws(3, 1000));
    assert_eq!(raw(&lora.merge().data), raw(&lora.frozen_weight.data));
}

#[test]
fn dropout_between_layers_works_by_chance() {
    let mut draws = draws(5, 1000);
    let model = Sequential::new()
        .add(Layer::Linear(Linear::new(4, 200, true, &mut draws)))
        .add(Layer::Dropout(Dropout::new(F(0.5))));
    let x = randn(3, &[1, 4]);
    let y = raw(&model.forward_random(&x).data);
    let zeros = y.iter().filter(|v| **v == 0.0).count();
    assert!(zeros > 20 && zeros < 180, "{zeros} of 200 dropped");
    let mut calm = model.clone();
    calm.set_training(false);
    assert_eq!(raw(&calm.forward_random(&x).data), raw(&calm.forward(&x).data));
}

// ---- What the parts promise

#[test]
fn exactly_the_smallest_half_is_pruned() {
    let ps = ProgressiveShrinking {
        target_sparsity: F(0.5),
        current_sparsity: F(0.5),
        total_steps: 100,
        current_step: 100,
        warmup_steps: 10,
    };
    let pruned = ps.apply_soft_prune(&tensor(&[1.0, -2.0, 3.0, -4.0], &[4]));
    assert_eq!(pruned.shape(), vec![4]);
    assert_eq!(raw(&pruned.data), vec![0.0, 0.0, 3.0, -4.0]);
    let same = ps.apply_soft_prune(&tensor(&[2.0, 2.0, -2.0, 2.0], &[4]));
    assert_eq!(raw(&same.data), vec![0.0, 0.0, -2.0, 2.0]);
    assert!(ps.apply_soft_prune(&tensor(&[], &[0])).data.is_empty());
}

#[test]
fn rate_stays_at_its_least() {
    let s = LrSchedule::CosineWithWarmup {
        warmup_steps: 10,
        total_steps: 100,
        base_lr: F(0.01),
        min_lr: F(0.001),
    };
    assert_eq!(s.lr(100).0, 0.001);
    assert_eq!(s.lr(190).0, 0.001);
    assert_close(s.lr(55).0, 0.0055, 1e-6, "half way");
}

#[test]
fn only_columns_of_numbers_are_in_a_tensor() {
    let mut ds = Dataset::new("t");
    ds.add_float_column("a", fs(&[1.0, 2.0]));
    ds.add_text_column("n", vec!["x".into(), "y".into()]);
    let t = ds.to_tensor(&["a", "n"]);
    assert_eq!(t.shape(), vec![2, 1]);
    assert_eq!(raw(&t.data), vec![1.0, 2.0]);
    assert_eq!(ds.to_tensor(&["none", "n"]).shape(), vec![2, 0]);
}

#[test]
fn any_text_is_kept() {
    let mut ds: Dataset<F> = Dataset::new("from \"there\" \\");
    ds.add_text_column("say \"it\"", vec!["he said \\\"hi\\\"\\".into(), "\\".into()]);
    ds.add_text_column("back\\", vec!["\\\"".into(), "".into()]);
    ds.add_float_column("x", fs(&[0.5, -2.0]));
    let kept = dataset_to_cache_json(&ds);
    let back: Dataset<F> = dataset_from_cache_json(&kept, "again").unwrap();
    assert_eq!(back.num_rows, 2);
    for name in ["say \"it\"", "back\\"] {
        assert_eq!(back.get_text(name), ds.get_text(name));
    }
    assert_eq!(raw(back.get_float("x").unwrap()), vec![0.5, -2.0]);
}

fn carry_out(disk: &mut std::collections::HashMap<String, Vec<u8>>, actions: &[DiskAction]) {
    for action in actions {
        match action {
            DiskAction::Write { path, bytes } => {
                disk.insert(path.clone(), bytes.clone());
            }
            DiskAction::Remove { path } => {
                disk.remove(path);
            }
        }
    }
}

#[test]
fn put_away_tensors_come_back() {
    let mut disk = std::collections::HashMap::new();
    let mut store: TieredStore<F> = TieredStore::new(small_config(0));
    for i in 0..5 {
        let t = tensor(&[i as f32, 10.0 + i as f32], &[2]);
        carry_out(&mut disk, &store.insert(&format!("t{i}"), t, i as u64));
    }
    let used = store.ram_usage();
    carry_out(&mut disk, &store.offload_all());
    assert_eq!(store.ram_usage(), 0);
    assert_eq!(store.tier_counts(), (0, 5));
    assert_eq!(disk.len(), 5);
    let loaded =
        store.pending().iter().map(|p| SsdTensor::load(&disk[p]).unwrap()).collect::<Vec<_>>();
    store.load_all(loaded, 9);
    assert_eq!(store.tier_counts(), (5, 0));
    assert_eq!(store.ram_usage(), used);
    assert_eq!(store.ssd_usage(), 0);
    for i in 0..5 {
        let (t, _) = store.get(&format!("t{i}"), None, 10).unwrap();
        assert_eq!(raw(&t.data), vec![i as f32, 10.0 + i as f32]);
    }
    // Again, with other files: the old ones go.
    carry_out(&mut disk, &store.offload_all());
    assert_eq!(disk.len(), 5);
    assert!(store.pending().iter().all(|p| disk.contains_key(p)));
    // A tensor that is replaced takes its file with it.
    let path = store.needs_load("t3").unwrap().to_string();
    carry_out(&mut disk, &store.insert("t3", tensor(&[1.0], &[1]), 11));
    assert!(!disk.contains_key(&path));
    assert_eq!(store.tier_counts(), (1, 4));
    carry_out(&mut disk, &store.cleanup());
    assert!(disk.is_empty());
}

#[test]
fn stores_share_a_count() {
    let mut a: TieredStore<F> = TieredStore::new(small_config(0));
    let mut b: TieredStore<F> = TieredStore::new(small_config(0));
    a.insert("x", tensor(&[1.0], &[1]), 1);
    b.insert("x", tensor(&[2.0], &[1]), 1);
    let first = written(&a.offload("x"));
    b.number_from(a.next_file);
    let second = written(&b.offload("x"));
    assert_eq!(first[0].0, "/tmp/t/tensor_0.bin");
    assert_eq!(second[0].0, "/tmp/t/tensor_1.bin");
    b.number_from(0);
    assert_eq!(b.next_file, 2);
}

#[test]
fn loss_follows_the_teacher() {
    let config = DistillConfig::<F>::default()
        .with_temperature(F(1.0))
        .with_weights(F(0.0), F(1.0), F(0.5));
    let even = tensor(&[0.0, 0.0], &[1, 2]);
    let sure = tensor(&[3.0f32.ln(), 0.0], &[1, 2]);
    let labels = tensor(&[1.0, 0.0], &[1, 2]);
    assert_close(distill_loss(&config, &sure, &sure, &labels, &None).data[0].0, 0.0, 1e-6, "same");
    // Three quarters and one quarter, from one half each.
    let want = 0.75 * 1.5f32.ln() + 0.25 * 0.5f32.ln();
    let got = distill_loss(&config, &even, &sure, &labels, &None).data[0].0;
    assert_close(got, want, 1e-5, "divergence");
    let features =
        Some(Features { student: tensor(&[1.0, 2.0], &[1, 2]), teacher: tensor(&[3.0, 2.0], &[1, 2]) });
    let more = distill_loss(&config, &even, &sure, &labels, &features).data[0].0;
    assert_close(more, want + 0.5 * 2.0, 1e-5, "features");
    let hot = config.with_temperature(F(2.0)).with_weights(F(1.0), F(0.0), F(0.0));
    assert_close(
        distill_loss(&hot, &even, &sure, &labels, &None).data[0].0,
        2.0f32.ln(),
        1e-5,
        "labels",
    );
}

#[test]
fn features_are_those_before_the_last_layer() {
    let student = model_of(&[(4, 8), (8, 3)], 1);
    let wide = model_of(&[(4, 16), (16, 3)], 2);
    let same = model_of(&[(4, 8), (8, 3)], 3);
    let x = randn(4, &[2, 4]);
    assert!(hidden_features(&student, &wide, &x).is_none());
    let f = hidden_features(&student, &same, &x).unwrap();
    assert_eq!(f.student.shape(), vec![2, 8]);
    assert_eq!(f.teacher.shape(), vec![2, 8]);
    assert!(raw(&f.student.data).iter().all(|v| *v >= 0.0));
}

#[test]
fn student_is_a_power_of_two_wide() {
    for (teacher, width) in [(100, 64), (90, 32), (96, 32), (256, 128), (20, 16)] {
        let t = model_of(&[(4, teacher), (teacher, 8), (8, 8), (8, 2)], 1);
        let student = Distiller::new(t, DistillConfig::default()).generate_student(
            4,
            2,
            &mut draws(2, 100000),
        );
        assert_eq!(student.parameters()[0].shape(), vec![width, 4], "teacher of {teacher}");
    }
}

#[test]
fn student_is_also_given_in_eight_bits() {
    let teacher = model_of(&[(8, 32), (32, 4)], 1);
    let inputs = randn(2, &[6, 8]);
    let targets = one_hot(6, 4);
    let config = DistillConfig { epochs: 1, ..DistillConfig::default() };
    let student = model_of(&[(8, 16), (16, 4)], 5);
    let plain = Distiller::new(teacher.clone(), config);
    let result = plain.distill(student.clone(), &inputs, &targets, &[vec![F(1.0)]]);
    assert!(result.quantized.is_none());
    let small = Distiller::new(teacher, config.quantize());
    let result = small.distill(student, &inputs, &targets, &[vec![F(1.0)]]);
    let q = result.quantized.unwrap();
    assert_eq!(q.layers.len(), 2);
    assert_eq!(q.layers[0].weight.data.len(), 16 * 8);
    let back = q.layers[0].weight.dequantize();
    for (a, b) in back.data.iter().zip(result.student.parameters()[0].data.iter()) {
        assert_close(a.0, b.0, 0.02, "nearly the same");
    }
}

#[test]
fn normal_numbers_come_from_pairs() {
    assert_eq!(normal_number(F(0.0), F(0.3)).0, 0.0);
    let u = 1.0 - (-0.5f32).exp();
    assert_close(normal_number(F(u), F(0.0)).0, 1.0, 1e-5, "one");
    assert_close(normal_number(F(u), F(0.5)).0, -1.0, 1e-5, "minus one");
    assert_close(normal_number(F(u), F(0.25)).0, 0.0, 1e-5, "zero");
}

#[test]
fn factors_hold_the_table() {
    let table = tensor(&[1.0, 2.0, 4.0, 2.0, 4.0, 8.0], &[2, 3]);
    let e = CompressedEmbedding::from_table(&table, 1);
    assert_eq!(raw(&e.reconstruct().data), raw(&table.data));
    let table = randn(1, &[4, 5]);
    let e = CompressedEmbedding::from_table(&table, 4);
    let whole = e.reconstruct();
    for (a, b) in whole.data.iter().zip(table.data.iter()) {
        assert_close(a.0, b.0, 1e-4, "nearly the table");
    }
    for token in 0..4 {
        let row = e.lookup(token);
        assert_eq!(raw(&row.data), raw(&whole.data[token * 5..token * 5 + 5]));
    }
    let none = CompressedEmbedding::from_table(&tensor(&[0.0; 6], &[2, 3]), 2);
    assert!(raw(&none.reconstruct().data).iter().all(|v| *v == 0.0));
}
