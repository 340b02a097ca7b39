# dezero

A small deep-learning framework: tensors, automatic differentiation of any order, layers,
models, optimizers, data sets and data loaders. The library is written in Verus, and what it
does is stated in the contracts of its functions and proved.

- `src/` is the library. Elements are any `Scalar`; nothing is assumed of their arithmetic
  where a contract says what a function computes, so that rounding numbers are elements too.
  Laws that need algebra (that an operation passes gradients back as the transpose of how
  changes spread forward, and that a backward pass therefore computes the derivative) are
  proved where the elements form a `Ring`, such as `i64` with wrap-around.
- `app/` is ordinary Rust around it: floating-point elements and `ndarray` arrays, one graph
  for each thread, operators on variables, files on disk.
- `tests/` runs the library, over floating-point numbers and over integers.

Where to look first:

| What | Where |
| --- | --- |
| arrays and how their elements are found | `src/index.rs`, `src/tensor.rs`, `src/remap.rs` |
| what each operation computes and passes back | `src/engine/rule.rs` |
| the graph, recording, the backward pass | `src/engine/graph.rs`, `function.rs`, `backward.rs` |
| the order of a backward pass | `src/engine/schedule.rs` |
| the derivative | `src/engine/perturb.rs`, `tangent.rs`, `transpose.rs`, `derivative.rs` |
| convolution, pooling, matrix products | `src/functions/` |
| layers, models, optimizers | `src/layers/`, `src/models/`, `src/optim/` |
| archives, data sets, batches | `src/data/` |

Three things are taken on trust: unpacking a gzip container (`gunzip` in
`src/data/idx.rs`), quoting a string (`quote` in `src/layers/save.rs`), and that turning
a value into its own type leaves it as it is (`From::from`, in `src/utils/conv.rs`).
