# rust_nn

Neural networks in Rust, verified with Verus.

`src/` is the library. Its numbers are abstract: `number::Number` and `number::Real` name the
operations, and every contract says which operations are applied in which order. `fixed::Fixed`
is a type of fixed-point numbers, and `short::Short` one of 32 bits; `i32` stands for exact arithmetic modulo two to the power of 32,
and `exact` and `turning` state what the matrix products, the exchange of gradients and the
rotations come to on it.

| modules | what they hold |
| --- | --- |
| `number`, `fixed`, `short`, `format`, `bytes`, `text`, `table`, `json`, `error`, `random` | the ground |
| `tensor`, `blas`, `ways`, `exact`, `int8`, `quantize`, `quant`, `turning` | tensors, products, quantization |
| `activations`, `nn`, `loss`, `optim`, `position`, `fused`, `compiled` | layers and training |
| `linear_attention`, `looped_transformer`, `mamba`, `diffusion`, `reasoning` | models |
| `finetune`, `distill`, `compression`, `grpo`, `distributed`, `offload` | training and running at scale |
| `data`, `cache`, `hub`, `repo_graph`, `gui`, `interactive` | datasets, pages, sessions |
| `gpu`, `gpu_kernels` | what is launched on a graphics processor |

What is drawn at random or comes from outside (initial weights, the time, replies of a hub, bytes
of a device) is an argument of the library, or comes in through the few functions of `random`.

`app/` is ordinary Rust around the library: files, the network, the terminal, the graphics
processor, and training runs in single precision. `tests/` runs the library in single precision.
