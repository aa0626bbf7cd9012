//! The matrix container and the product operation.
//!
//! A `Matrix<B>` owns a backend-allocated buffer of `rows * cols`
//! elements in row-major layout. Construction rejects zero-sized and
//! jagged inputs, the buffer length always equals `rows * cols`, and
//! the product operation validates shape compatibility before it asks
//! the backend to run the kernel.

use vstd::prelude::*;

use crate::backend::{gemm_spec, Backend, BackendFailure};
use crate::cpu::CPU;
use crate::cpu_blocked::CPUBlocked;
use crate::cpu_naive::CPUNaive;

verus! {

/// The recoverable failures of the library.
#[derive(Debug, PartialEq, Eq)]
pub enum MatrixError<E> {
    /// A malformed numeric token, at this row and column of the parsed
    /// text (both 0-based, rows counted among non-blank lines).
    Parse { row: usize, col: usize },
    /// Zero rows or columns, jagged rows of unequal length, or a
    /// dimension mismatch between the operands of the product.
    Shape,
    /// A failure reported by the compute substrate.
    Backend(E),
}

/// A 2-D array of elements in row-major layout, owned by backend `B`.
pub struct Matrix<B: Backend> {
    buf: B::Buf,
    rows: usize,
    cols: usize,
}

/// A well-formed grid of rows: at least one row, at least one column,
/// and every row of the same length.
pub open spec fn rows_wf(g: Seq<Seq<i32>>) -> bool {
    &&& g.len() >= 1
    &&& g[0].len() >= 1
    &&& forall|r: int| 0 <= r < g.len() ==> (#[trigger] g[r]).len() == g[0].len()
}

/// The row-major flattening of a grid of rows.
pub open spec fn flatten_grid(g: Seq<Seq<i32>>) -> Seq<i32>
    decreases g.len(),
{
    if g.len() == 0 {
        Seq::empty()
    } else {
        flatten_grid(g.drop_last()) + g.last()
    }
}

impl<B: Backend> Matrix<B> {
    /// The elements this matrix holds, in row-major order.
    pub closed spec fn view_data(&self) -> Seq<i32> {
        B::buf_view(self.buf)
    }

    /// The number of rows.
    pub closed spec fn spec_rows(&self) -> int {
        self.rows as int
    }

    /// The number of columns.
    pub closed spec fn spec_cols(&self) -> int {
        self.cols as int
    }

    /// The container invariant: both dimensions are positive, their
    /// product fits the machine, and the buffer holds exactly
    /// `rows * cols` elements.
    pub open spec fn wf(&self) -> bool {
        &&& self.spec_rows() >= 1
        &&& self.spec_cols() >= 1
        &&& self.spec_rows() * self.spec_cols() <= usize::MAX
        &&& self.view_data().len() == self.spec_rows() * self.spec_cols()
    }

    /// Builds a zero-filled `rows x cols` matrix through the backend.
    pub fn new_zeros(ctx: &B::Ctx, rows: usize, cols: usize) -> (r: Result<
        Self,
        MatrixError<B::Err>,
    >)
        requires
            rows * cols <= usize::MAX,
        ensures
            (rows == 0 || cols == 0) <==> r matches Err(MatrixError::Shape),
            B::supported() && rows >= 1 && cols >= 1 ==> r is Ok,
            r matches Ok(mat) ==> {
                &&& mat.wf()
                &&& mat.spec_rows() == rows
                &&& mat.spec_cols() == cols
                &&& mat.view_data() == Seq::new((rows * cols) as nat, |i: int| 0i32)
            },
            rows >= 1 && cols >= 1 && r is Err ==> r matches Err(MatrixError::Backend(_)),
    {
        if rows == 0 || cols == 0 {
            return Err(MatrixError::Shape);
        }
        let size: usize = rows * cols;
        match B::allocate(ctx, size) {
            Ok(buf) => Ok(Matrix { buf, rows, cols }),
            Err(e) => Err(MatrixError::Backend(e)),
        }
    }

    /// Uploads a host-resident row-major array of exactly
    /// `rows * cols` elements into a fresh matrix.
    pub fn from_host(ctx: &B::Ctx, rows: usize, cols: usize, data: &[i32]) -> (r: Result<
        Self,
        MatrixError<B::Err>,
    >)
        requires
            data@.len() == rows * cols,
        ensures
            (rows == 0 || cols == 0) <==> r matches Err(MatrixError::Shape),
            B::supported() && rows >= 1 && cols >= 1 ==> r is Ok,
            r matches Ok(mat) ==> {
                &&& mat.wf()
                &&& mat.spec_rows() == rows
                &&& mat.spec_cols() == cols
                &&& mat.view_data() == data@
            },
            rows >= 1 && cols >= 1 && r is Err ==> r matches Err(MatrixError::Backend(_)),
    {
        if rows == 0 || cols == 0 {
            return Err(MatrixError::Shape);
        }
        let _len: usize = data.len();
        match B::upload(ctx, data) {
            Ok(buf) => Ok(Matrix { buf, rows, cols }),
            Err(e) => Err(MatrixError::Backend(e)),
        }
    }

    /// Downloads the matrix contents into a fresh host vector.
    pub fn to_host(&self, ctx: &B::Ctx) -> (r: Result<Vec<i32>, MatrixError<B::Err>>)
        requires
            self.wf(),
        ensures
            B::supported() ==> r is Ok,
            r matches Ok(v) ==> v@ == self.view_data(),
            r is Err ==> r matches Err(MatrixError::Backend(_)),
    {
        let size: usize = self.rows * self.cols;
        let mut out: Vec<i32> = vec![0i32; size];
        match B::download(ctx, &self.buf, &mut out) {
            Ok(()) => Ok(out),
            Err(e) => Err(MatrixError::Backend(e)),
        }
    }

    /// The dimensions, as `(rows, cols)`.
    pub fn shape(&self) -> (r: (usize, usize))
        ensures
            r.0 == self.spec_rows(),
            r.1 == self.spec_cols(),
    {
        (self.rows, self.cols)
    }

    /// Validates a grid of rows (at least one row, at least one
    /// column, no jagged rows), flattens it in row-major order and
    /// uploads it. The shape check comes first: a jagged or empty grid
    /// is rejected before the backend is asked for anything.
    pub fn from_rows(ctx: &B::Ctx, value: &Vec<Vec<i32>>) -> (r: Result<Self, MatrixError<B::Err>>)
        ensures
            !rows_wf(value@.map_values(|row: Vec<i32>| row@)) <==> r matches Err(
                MatrixError::Shape,
            ),
            B::supported() && rows_wf(value@.map_values(|row: Vec<i32>| row@)) ==> r is Ok,
            r matches Ok(mat) ==> {
                &&& mat.wf()
                &&& mat.spec_rows() == value@.len()
                &&& mat.spec_cols() == value@[0]@.len()
                &&& mat.view_data() == flatten_grid(value@.map_values(|row: Vec<i32>| row@))
            },
            rows_wf(value@.map_values(|row: Vec<i32>| row@)) && r is Err ==> r matches Err(
                MatrixError::Backend(_),
            ),
    {
        let ghost grid = value@.map_values(|row: Vec<i32>| row@);
        let rows: usize = value.len();
        if rows == 0 {
            return Err(MatrixError::Shape);
        }
        let cols: usize = value[0].len();
        proof {
            assert(grid[0] == value@[0]@);
        }
        if cols == 0 {
            return Err(MatrixError::Shape);
        }
        let mut flat: Vec<i32> = Vec::new();
        let mut r: usize = 0;
        while r < rows
            invariant
                0 <= r <= rows,
                rows == grid.len(),
                grid == value@.map_values(|row: Vec<i32>| row@),
                cols == grid[0].len(),
                cols >= 1,
                forall|q: int| 0 <= q < r ==> (#[trigger] grid[q]).len() == cols,
                flat@ == flatten_grid(grid.take(r as int)),
                flat@.len() == r * cols,
            decreases rows - r,
        {
            if value[r].len() != cols {
                proof {
                    assert(grid[r as int] == value@[r as int]@);
                }
                return Err(MatrixError::Shape);
            }
            proof {
                assert(grid[r as int] == value@[r as int]@);
            }
            flat.extend_from_slice(value[r].as_slice());
            proof {
                assert(grid.take(r + 1).drop_last() =~= grid.take(r as int));
                assert(grid.take(r + 1).last() == grid[r as int]);
                assert((r + 1) * cols == r * cols + cols) by (nonlinear_arith);
            }
            r = r + 1;
        }
        proof {
            assert(grid.take(rows as int) =~= grid);
        }
        match Self::from_host(ctx, rows, cols, flat.as_slice()) {
            Ok(mat) => Ok(mat),
            Err(MatrixError::Shape) => Err(MatrixError::Shape),
            Err(e) => Err(e),
        }
    }
}

impl Matrix<CPU> {
    /// Builds a zero-filled matrix on the SIMD CPU backend, whose
    /// context is the unit value.
    pub fn new(rows: usize, cols: usize) -> (r: Result<Self, MatrixError<BackendFailure>>)
        requires
            rows * cols <= usize::MAX,
        ensures
            (rows == 0 || cols == 0) <==> r matches Err(MatrixError::Shape),
            rows >= 1 && cols >= 1 ==> r is Ok,
            r matches Ok(mat) ==> {
                &&& mat.wf()
                &&& mat.spec_rows() == rows
                &&& mat.spec_cols() == cols
                &&& mat.view_data() == Seq::new((rows * cols) as nat, |i: int| 0i32)
            },
    {
        Self::new_zeros(&(), rows, cols)
    }

    /// Validates and uploads a grid of rows; rejects empty or jagged
    /// grids with a shape error.
    pub fn try_from(value: Vec<Vec<i32>>) -> (r: Result<Self, MatrixError<BackendFailure>>)
        ensures
            !rows_wf(value@.map_values(|row: Vec<i32>| row@)) <==> r matches Err(
                MatrixError::Shape,
            ),
            rows_wf(value@.map_values(|row: Vec<i32>| row@)) ==> r is Ok,
            r matches Ok(mat) ==> {
                &&& mat.wf()
                &&& mat.spec_rows() == value@.len()
                &&& mat.spec_cols() == value@[0]@.len()
                &&& mat.view_data() == flatten_grid(value@.map_values(|row: Vec<i32>| row@))
            },
    {
        Self::from_rows(&(), &value)
    }

    /// Host matrices already live where the CPU computes, so there is
    /// nothing to move.
    pub fn to_device(&self) {
    }
}

impl Matrix<CPUNaive> {
    /// Builds a zero-filled matrix on the naive CPU backend, whose
    /// context is the unit value.
    pub fn new(rows: usize, cols: usize) -> (r: Result<Self, MatrixError<BackendFailure>>)
        requires
            rows * cols <= usize::MAX,
        ensures
            (rows == 0 || cols == 0) <==> r matches Err(MatrixError::Shape),
            rows >= 1 && cols >= 1 ==> r is Ok,
            r matches Ok(mat) ==> {
                &&& mat.wf()
                &&& mat.spec_rows() == rows
                &&& mat.spec_cols() == cols
                &&& mat.view_data() == Seq::new((rows * cols) as nat, |i: int| 0i32)
            },
    {
        Self::new_zeros(&(), rows, cols)
    }
}

impl Matrix<CPUBlocked> {
    /// Builds a zero-filled matrix on the cache-blocked CPU backend,
    /// whose context is the unit value.
    pub fn new(rows: usize, cols: usize) -> (r: Result<Self, MatrixError<BackendFailure>>)
        requires
            rows * cols <= usize::MAX,
        ensures
            (rows == 0 || cols == 0) <==> r matches Err(MatrixError::Shape),
            rows >= 1 && cols >= 1 ==> r is Ok,
            r matches Ok(mat) ==> {
                &&& mat.wf()
                &&& mat.spec_rows() == rows
                &&& mat.spec_cols() == cols
                &&& mat.view_data() == Seq::new((rows * cols) as nat, |i: int| 0i32)
            },
    {
        Self::new_zeros(&(), rows, cols)
    }
}

impl PartialEq for Matrix<CPU> {
    /// Two CPU matrices are equal when they have the same shape and
    /// their buffers hold the same elements in the same order.
    fn eq(&self, other: &Self) -> (r: bool) {
        let r = self.rows == other.rows && self.cols == other.cols && self.buf == other.buf;
        proof {
            if self.buf@.len() == other.buf@.len() && (forall|i: int|
                0 <= i < self.buf@.len() ==> self.buf@[i] == other.buf@[i]) {
                assert(self.buf@ =~= other.buf@);
            }
        }
        r
    }
}

impl vstd::std_specs::cmp::PartialEqSpecImpl for Matrix<CPU> {
    open spec fn obeys_eq_spec() -> bool {
        true
    }

    open spec fn eq_spec(&self, other: &Self) -> bool {
        &&& self.spec_rows() == other.spec_rows()
        &&& self.spec_cols() == other.spec_cols()
        &&& self.view_data() == other.view_data()
    }
}

/// The product operation: `a.dot(ctx, b)` computes the matrix product
/// `a x b` over the chosen context.
pub trait Dot<T> {
    type Err;

    type Output;

    /// What a caller must establish before asking for the product.
    spec fn dot_req(&self, other: &Self) -> bool;

    /// What the product operation promises about its result.
    spec fn dot_post(&self, other: &Self, r: Result<Self::Output, Self::Err>) -> bool;

    /// Computes the product of `self` and `other`.
    fn dot(&self, ctx: T, other: &Self) -> (r: Result<Self::Output, Self::Err>)
        requires
            self.dot_req(other),
        ensures
            self.dot_post(other, r),
    ;
}

impl<'c, B: Backend> Dot<&'c B::Ctx> for Matrix<B> {
    type Err = MatrixError<B::Err>;

    type Output = Matrix<B>;

    /// Both operands are well formed and the output fits the machine.
    open spec fn dot_req(&self, other: &Self) -> bool {
        &&& self.wf()
        &&& other.wf()
        &&& self.spec_rows() * other.spec_cols() <= usize::MAX
    }

    /// The product of an `m x k` by a `k x n` matrix is the `m x n`
    /// matrix `gemm_spec` describes; incompatible shapes fail with a
    /// shape error and nothing else does.
    open spec fn dot_post(&self, other: &Self, r: Result<Matrix<B>, MatrixError<B::Err>>) -> bool {
        &&& (self.spec_cols() != other.spec_rows() <==> r matches Err(MatrixError::Shape))
        &&& (B::supported() && self.spec_cols() == other.spec_rows() ==> r is Ok)
        &&& (r matches Ok(out) ==> {
            &&& out.wf()
            &&& out.spec_rows() == self.spec_rows()
            &&& out.spec_cols() == other.spec_cols()
            &&& out.view_data() == gemm_spec(
                self.view_data(),
                other.view_data(),
                self.spec_rows(),
                self.spec_cols(),
                other.spec_cols(),
            )
        })
        &&& (self.spec_cols() == other.spec_rows() && r is Err ==> r matches Err(
            MatrixError::Backend(_),
        ))
    }

    fn dot(&self, ctx: &'c B::Ctx, other: &Self) -> (r: Result<Matrix<B>, MatrixError<B::Err>>) {
        if self.cols != other.rows {
            return Err(MatrixError::Shape);
        }
        match Matrix::new_zeros(ctx, self.rows, other.cols) {
            Err(e) => Err(e),
            Ok(mut out) => {
                match B::gemm(
                    ctx,
                    self.rows,
                    self.cols,
                    other.cols,
                    &self.buf,
                    &other.buf,
                    &mut out.buf,
                ) {
                    Ok(()) => Ok(out),
                    Err(e) => Err(MatrixError::Backend(e)),
                }
            },
        }
    }
}

} // verus!
