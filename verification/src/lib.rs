//! Verified kernels and bookkeeping of a small neural network library.
pub mod activations;
pub mod adding;
pub mod blas;
pub mod bytes;
pub mod cache;
pub mod circling;
pub mod compiled;
pub mod compression;
pub mod data;
pub mod denoising;
pub mod descent;
pub mod diffusion;
pub mod distill;
pub mod distributed;
pub mod error;
pub mod exact;
pub mod finetune;
pub mod fixed;
pub mod format;
pub mod fused;
pub mod gathering;
pub mod gpu;
pub mod gpu_kernels;
pub mod grpo;
pub mod gui;
pub mod hub;
pub mod ideal;
pub mod int8;
pub mod interactive;
pub mod json;
pub mod judging;
pub mod leveling;
pub mod linear_attention;
pub mod looped_transformer;
pub mod loss;
pub mod mamba;
pub mod multiplying;
pub mod nn;
pub mod number;
pub mod offload;
pub mod optim;
pub mod pacing;
pub mod position;
pub mod quant;
pub mod quantize;
pub mod random;
pub mod ranking;
pub mod reasoning;
pub mod repo_graph;
pub mod response;
pub mod short;
pub mod signal;
pub mod stepping;
pub mod table;
pub mod tensor;
pub mod text;
pub mod turning;
pub mod ways;
pub mod weighing;
