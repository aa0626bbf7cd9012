//! The backend capability interface.
//!
//! A backend is a compute substrate that can allocate buffers, move
//! element data in and out of them, and run the matrix product (gemm)
//! on them. The matrix container is generic over a backend and never
//! looks inside a buffer itself; `buf_view` is the specification-level
//! window through which the contracts speak about buffer contents.

use vstd::prelude::*;

use crate::scalar::wmul;
use crate::sums::wsum;

verus! {

/// The products reduced by output cell `(i, j)`: the `k` pairwise
/// products of row `i` of `a` (an `m x k` matrix) with column `j` of
/// `b` (a `k x n` matrix), both in row-major layout.
pub open spec fn cell_terms(a: Seq<i32>, b: Seq<i32>, k: int, n: int, i: int, j: int) -> Seq<i32> {
    Seq::new(k as nat, |t: int| wmul(a[i * k + t], b[t * n + j]))
}

/// The value of output cell `(i, j)`: the wrapping sum of its products.
pub open spec fn gemm_cell(a: Seq<i32>, b: Seq<i32>, k: int, n: int, i: int, j: int) -> i32 {
    wsum(cell_terms(a, b, k, n, i, j))
}

/// The full `m x n` matrix product in row-major layout.
pub open spec fn gemm_spec(a: Seq<i32>, b: Seq<i32>, m: int, k: int, n: int) -> Seq<i32> {
    Seq::new((m * n) as nat, |p: int| gemm_cell(a, b, k, n, p / n, p % n))
}

/// A row-major index stays inside the buffer.
pub proof fn lemma_row_major_index(i: int, j: int, rows: int, cols: int)
    requires
        0 <= i < rows,
        0 <= j < cols,
    ensures
        0 <= i * cols,
        i * cols + j < rows * cols,
{
    assert(0 <= i * cols && i * cols + j < rows * cols) by (nonlinear_arith)
        requires
            0 <= i < rows,
            0 <= j < cols,
    ;
}

/// The failure report of the built-in backends. The CPU kernels never
/// fail; the accelerated stub reports every operation as unsupported.
#[derive(Clone, Copy, Debug, PartialEq, Eq, Structural)]
pub enum BackendFailure {
    /// The backend is not implemented on this substrate.
    Unsupported,
}

/// The capability set a compute substrate must provide to back a
/// `Matrix`: allocation, host round-trip, and the product operation.
pub trait Backend {
    /// Backend-owned storage for a row-major run of elements.
    type Buf;

    /// Per-backend configuration handle, passed to every operation.
    type Ctx;

    /// The backend's own failure report.
    type Err;

    /// The elements a buffer holds, in row-major order.
    spec fn buf_view(buf: Self::Buf) -> Seq<i32>;

    /// Whether this backend's operations are implemented and owe
    /// success; an unimplemented substrate reports every call as failed.
    spec fn supported() -> bool;

    /// Returns a zero-initialized buffer of exactly `size` elements;
    /// an unsupported substrate deterministically fails.
    fn allocate(ctx: &Self::Ctx, size: usize) -> (r: Result<Self::Buf, Self::Err>)
        ensures
            Self::supported() ==> r is Ok,
            !Self::supported() ==> r is Err,
            r matches Ok(buf) ==> Self::buf_view(buf) == Seq::new(
                size as nat,
                |i: int| 0i32,
            ),
    ;

    /// Copies host-resident elements into a newly allocated buffer;
    /// an unsupported substrate deterministically fails.
    fn upload(ctx: &Self::Ctx, host: &[i32]) -> (r: Result<Self::Buf, Self::Err>)
        ensures
            Self::supported() ==> r is Ok,
            !Self::supported() ==> r is Err,
            r matches Ok(buf) ==> Self::buf_view(buf) == host@,
    ;

    /// Copies buffer contents into caller-provided host storage, whose
    /// length must equal the buffer's length.
    fn download(ctx: &Self::Ctx, device: &Self::Buf, host: &mut Vec<i32>) -> (r: Result<
        (),
        Self::Err,
    >)
        requires
            old(host)@.len() == Self::buf_view(*device).len(),
        ensures
            Self::supported() ==> r is Ok,
            !Self::supported() ==> r is Err,
            r is Ok ==> final(host)@ == Self::buf_view(*device),
            r is Err ==> final(host)@.len() == old(host)@.len(),
    ;

    /// Computes the product of the `m x k` matrix in `a` and the
    /// `k x n` matrix in `b`, overwriting every element of `c` with the
    /// `m x n` result; on failure `c` is left unchanged — the operation
    /// never hands back a partial result.
    fn gemm(
        ctx: &Self::Ctx,
        m: usize,
        k: usize,
        n: usize,
        a: &Self::Buf,
        b: &Self::Buf,
        c: &mut Self::Buf,
    ) -> (r: Result<(), Self::Err>)
        requires
            1 <= m,
            1 <= k,
            1 <= n,
            Self::buf_view(*a).len() == m * k,
            Self::buf_view(*b).len() == k * n,
            Self::buf_view(*old(c)).len() == m * n,
        ensures
            Self::supported() ==> r is Ok,
            !Self::supported() ==> r is Err,
            r is Ok ==> Self::buf_view(*final(c)) == gemm_spec(
                Self::buf_view(*a),
                Self::buf_view(*b),
                m as int,
                k as int,
                n as int,
            ),
            r is Err ==> Self::buf_view(*final(c)) == Self::buf_view(*old(c)),
    ;
}

} // verus!

