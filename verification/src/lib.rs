//! Dense matrix multiplication over a pluggable compute backend.
//!
//! The library provides a `Matrix` container generic over a [`Backend`]:
//! a capability set (allocate, upload, download, gemm) that any compute
//! substrate must supply. Three CPU kernels implement it — a naive
//! triple loop, a cache-blocked transpose kernel, and an eight-lane
//! SIMD kernel — together with an accelerated-backend stub. All kernels
//! are proved to compute the same matrix product.

pub mod backend;
pub mod cpu;
pub mod cpu_blocked;
pub mod cpu_naive;
pub mod gpu;
pub mod matrix;
pub mod scalar;
pub mod sums;
pub mod text;
pub mod tiling;

pub use backend::Backend;
pub use backend::BackendFailure;
pub use cpu::CPU;
pub use cpu_blocked::CPUBlocked;
pub use cpu_naive::CPUNaive;
pub use gpu::GpuContext;
pub use gpu::GPU;
pub use matrix::Dot;
pub use matrix::Matrix;
pub use matrix::MatrixError;
