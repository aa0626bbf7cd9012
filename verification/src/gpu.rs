//! The accelerated backend stub.
//!
//! A capability-complete implementation for a hardware-accelerated
//! substrate that is not implemented yet: every operation
//! deterministically fails with an unsupported-backend report instead
//! of aborting. Because allocation and upload always fail, no buffer
//! of this backend ever exists, and `supported()` is false, so none of
//! the success obligations of the `Backend` contract apply.

use vstd::prelude::*;

use crate::backend::{Backend, BackendFailure};

verus! {

/// A handle to device-resident storage. Never constructed while the
/// substrate is unimplemented.
pub struct GpuBuffer {
    handle: usize,
}

/// The per-device configuration handle.
pub struct GpuContext;

/// The accelerated backend: an unimplemented stub with the same
/// contract as the CPU kernels.
pub struct GPU;

impl Backend for GPU {
    type Buf = GpuBuffer;

    type Ctx = GpuContext;

    type Err = BackendFailure;

    open spec fn buf_view(buf: GpuBuffer) -> Seq<i32> {
        Seq::empty()
    }

    open spec fn supported() -> bool {
        false
    }

    fn allocate(_ctx: &GpuContext, size: usize) -> (r: Result<GpuBuffer, BackendFailure>) {
        Err(BackendFailure::Unsupported)
    }

    fn upload(_ctx: &GpuContext, host: &[i32]) -> (r: Result<GpuBuffer, BackendFailure>) {
        Err(BackendFailure::Unsupported)
    }

    fn download(_ctx: &GpuContext, device: &GpuBuffer, host: &mut Vec<i32>) -> (r: Result<
        (),
        BackendFailure,
    >) {
        Err(BackendFailure::Unsupported)
    }

    fn gemm(
        _ctx: &GpuContext,
        m: usize,
        k: usize,
        n: usize,
        a: &GpuBuffer,
        b: &GpuBuffer,
        c: &mut GpuBuffer,
    ) -> (r: Result<(), BackendFailure>) {
        Err(BackendFailure::Unsupported)
    }
}

} // verus!
