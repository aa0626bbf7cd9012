//! The naive CPU kernel: the correctness oracle.
//!
//! An unoptimized scalar triple loop. Each output cell accumulates its
//! products left to right into a zero-initialized scalar, exactly in
//! the order of the `gemm_cell` specification.

use vstd::prelude::*;

use crate::backend::{cell_terms, gemm_spec, lemma_row_major_index, Backend, BackendFailure};
use crate::scalar::{lemma_wrapping_add_matches, lemma_wrapping_mul_matches};
use crate::sums::{lemma_wsum_take_all, lemma_wsum_take_step};

verus! {

/// The reference CPU backend: host-memory buffers, scalar arithmetic,
/// no data-reuse optimization.
pub struct CPUNaive;

impl Backend for CPUNaive {
    type Buf = Vec<i32>;

    type Ctx = ();

    type Err = BackendFailure;

    open spec fn buf_view(buf: Vec<i32>) -> Seq<i32> {
        buf@
    }

    open spec fn supported() -> bool {
        true
    }

    fn allocate(_ctx: &(), size: usize) -> (r: Result<Vec<i32>, BackendFailure>) {
        let v: Vec<i32> = vec![0i32; size];
        proof {
            assert(v@ =~= Seq::new(size as nat, |i: int| 0i32));
        }
        Ok(v)
    }

    fn upload(_ctx: &(), host: &[i32]) -> (r: Result<Vec<i32>, BackendFailure>) {
        Ok(vstd::slice::slice_to_vec(host))
    }

    fn download(_ctx: &(), device: &Vec<i32>, host: &mut Vec<i32>) -> (r: Result<
        (),
        BackendFailure,
    >) {
        host.clear();
        host.extend_from_slice(device.as_slice());
        proof {
            assert(host@ =~= device@);
        }
        Ok(())
    }

    fn gemm(
        _ctx: &(),
        m: usize,
        k: usize,
        n: usize,
        a: &Vec<i32>,
        b: &Vec<i32>,
        c: &mut Vec<i32>,
    ) -> (r: Result<(), BackendFailure>) {
        let ghost av = a@;
        let ghost bv = b@;
        let ghost out = gemm_spec(av, bv, m as int, k as int, n as int);
        let _alen: usize = a.len();
        let _blen: usize = b.len();
        let _clen: usize = c.len();
        let mut i: usize = 0;
        while i < m
            invariant
                0 <= i <= m,
                1 <= k,
                1 <= n,
                av == a@,
                bv == b@,
                av.len() == m * k,
                bv.len() == k * n,
                m * k <= usize::MAX,
                k * n <= usize::MAX,
                c@.len() == m * n,
                m * n <= usize::MAX,
                out == gemm_spec(av, bv, m as int, k as int, n as int),
                forall|p: int| 0 <= p < i * n ==> c@[p] == out[p],
            decreases m - i,
        {
            let mut j: usize = 0;
            while j < n
                invariant
                    0 <= i < m,
                    0 <= j <= n,
                    1 <= k,
                    1 <= n,
                    av == a@,
                    bv == b@,
                    av.len() == m * k,
                    bv.len() == k * n,
                    m * k <= usize::MAX,
                    k * n <= usize::MAX,
                    c@.len() == m * n,
                    m * n <= usize::MAX,
                    out == gemm_spec(av, bv, m as int, k as int, n as int),
                    forall|p: int| 0 <= p < i * n + j ==> c@[p] == out[p],
                decreases n - j,
            {
                let ghost terms = cell_terms(av, bv, k as int, n as int, i as int, j as int);
                let mut acc: i32 = 0;
                let mut t: usize = 0;
                proof {
                    assert(terms.take(0) =~= Seq::<i32>::empty());
                }
                while t < k
                    invariant
                        0 <= t <= k,
                        0 <= i < m,
                        0 <= j < n,
                        av == a@,
                        bv == b@,
                        av.len() == m * k,
                        bv.len() == k * n,
                        m * k <= usize::MAX,
                        k * n <= usize::MAX,
                        terms == cell_terms(av, bv, k as int, n as int, i as int, j as int),
                        acc == crate::sums::wsum(terms.take(t as int)),
                    decreases k - t,
                {
                    proof {
                        lemma_row_major_index(i as int, t as int, m as int, k as int);
                        lemma_row_major_index(t as int, j as int, k as int, n as int);
                    }
                    let x: i32 = a[i * k + t];
                    let y: i32 = b[t * n + j];
                    let prod: i32 = x.wrapping_mul(y);
                    proof {
                        lemma_wrapping_mul_matches(x, y);
                        lemma_wrapping_add_matches(acc, prod);
                        lemma_wsum_take_step(terms, t as int);
                    }
                    acc = acc.wrapping_add(prod);
                    t = t + 1;
                }
                proof {
                    lemma_wsum_take_all(terms);
                    lemma_row_major_index(i as int, j as int, m as int, n as int);
                    vstd::arithmetic::div_mod::lemma_fundamental_div_mod_converse(
                        i * n + j,
                        n as int,
                        i as int,
                        j as int,
                    );
                }
                let p: usize = i * n + j;
                c[p] = acc;
                j = j + 1;
            }
            proof {
                assert((i + 1) * n == i * n + n) by (nonlinear_arith);
            }
            i = i + 1;
        }
        proof {
            assert(c@ =~= out) by {
                assert(forall|p: int| 0 <= p < m * n ==> c@[p] == out[p]);
            }
        }
        Ok(())
    }
}

} // verus!
