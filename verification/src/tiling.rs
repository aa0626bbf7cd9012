//! The transpose preprocessing step shared by the optimized kernels.
//!
//! Naive access to the right operand strides by `n` per inner step,
//! defeating cache locality. Both optimized kernels first build a
//! transposed copy (`k x n` to `n x k`), so that the per-cell reduction
//! walks two contiguous spans.

use vstd::prelude::*;

use crate::backend::lemma_row_major_index;

verus! {

/// Builds the transposed copy: element `(t, j)` of the `k x n` input
/// becomes element `(j, t)` of the `n x k` output.
pub fn transpose(b: &Vec<i32>, k: usize, n: usize) -> (bt: Vec<i32>)
    requires
        1 <= k,
        1 <= n,
        b@.len() == k * n,
    ensures
        bt@.len() == n * k,
        forall|j: int, t: int|
            0 <= j < n && 0 <= t < k ==> #[trigger] bt@[j * k + t] == b@[t * n + j],
{
    let ghost bv = b@;
    let _blen: usize = b.len();
    let mut bt: Vec<i32> = Vec::new();
    let mut j: usize = 0;
    while j < n
        invariant
            0 <= j <= n,
            1 <= k,
            1 <= n,
            bv == b@,
            bv.len() == k * n,
            k * n <= usize::MAX,
            bt@.len() == j * k,
            forall|j2: int, t2: int|
                0 <= j2 < j && 0 <= t2 < k ==> #[trigger] bt@[j2 * k + t2] == bv[t2 * n + j2],
        decreases n - j,
    {
        let mut t: usize = 0;
        while t < k
            invariant
                0 <= t <= k,
                0 <= j < n,
                1 <= k,
                1 <= n,
                bv == b@,
                bv.len() == k * n,
                k * n <= usize::MAX,
                bt@.len() == j * k + t,
                forall|j2: int, t2: int|
                    0 <= j2 < j && 0 <= t2 < k ==> #[trigger] bt@[j2 * k + t2] == bv[t2 * n + j2],
                forall|t2: int| 0 <= t2 < t ==> #[trigger] bt@[j * k + t2] == bv[t2 * n + j],
            decreases k - t,
        {
            proof {
                lemma_row_major_index(t as int, j as int, k as int, n as int);
                lemma_row_major_index(j as int, t as int, n as int, k as int);
            }
            bt.push(b[t * n + j]);
            proof {
                assert forall|j2: int, t2: int| 0 <= j2 < j && 0 <= t2 < k implies #[trigger] bt@[j2
                    * k + t2] == bv[t2 * n + j2] by {
                    lemma_row_major_index(j2, t2, j as int, k as int);
                }
            }
            t = t + 1;
        }
        proof {
            assert((j + 1) * k == j * k + k) by (nonlinear_arith);
        }
        j = j + 1;
    }
    proof {
        assert(n * k == k * n) by (nonlinear_arith);
    }
    bt
}

} // verus!
