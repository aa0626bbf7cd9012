//! The cache-blocked CPU kernel.
//!
//! Transposes the right operand once, then reduces each output cell
//! over two contiguous spans in fixed-width tiles: each tile's partial
//! sum is folded into a running scalar total. The tile boundary is
//! clamped at `k`, so the final, ragged tile is simply shorter.

use vstd::prelude::*;

use crate::backend::{cell_terms, gemm_spec, lemma_row_major_index, Backend, BackendFailure};
use crate::scalar::{lemma_wrapping_add_matches, lemma_wrapping_mul_matches};
use crate::sums::{lemma_wsum_concat, lemma_wsum_take_all, wsum};
use crate::tiling::transpose;

verus! {

/// The width of one reduction tile, in elements.
pub const TILE_SIZE: usize = 8;

/// The cache-blocked CPU backend: transpose-then-blocked scalar loops.
pub struct CPUBlocked;

impl Backend for CPUBlocked {
    type Buf = Vec<i32>;

    type Ctx = ();

    type Err = BackendFailure;

    open spec fn buf_view(buf: Vec<i32>) -> Seq<i32> {
        buf@
    }

    open spec fn supported() -> bool {
        true
    }

    fn allocate(_ctx: &(), size: usize) -> (r: Result<Vec<i32>, BackendFailure>) {
        let v: Vec<i32> = vec![0i32; size];
        proof {
            assert(v@ =~= Seq::new(size as nat, |i: int| 0i32));
        }
        Ok(v)
    }

    fn upload(_ctx: &(), host: &[i32]) -> (r: Result<Vec<i32>, BackendFailure>) {
        Ok(vstd::slice::slice_to_vec(host))
    }

    fn download(_ctx: &(), device: &Vec<i32>, host: &mut Vec<i32>) -> (r: Result<
        (),
        BackendFailure,
    >) {
        host.clear();
        host.extend_from_slice(device.as_slice());
        proof {
            assert(host@ =~= device@);
        }
        Ok(())
    }

    fn gemm(
        _ctx: &(),
        m: usize,
        k: usize,
        n: usize,
        a: &Vec<i32>,
        b: &Vec<i32>,
        c: &mut Vec<i32>,
    ) -> (r: Result<(), BackendFailure>) {
        let ghost av = a@;
        let ghost bv = b@;
        let ghost out = gemm_spec(av, bv, m as int, k as int, n as int);
        let _alen: usize = a.len();
        let _blen: usize = b.len();
        let _clen: usize = c.len();
        let bt: Vec<i32> = transpose(b, k, n);
        let ghost btv = bt@;
        let mut i: usize = 0;
        while i < m
            invariant
                0 <= i <= m,
                1 <= k,
                1 <= n,
                av == a@,
                bv == b@,
                btv == bt@,
                av.len() == m * k,
                bv.len() == k * n,
                btv.len() == n * k,
                m * k <= usize::MAX,
                k * n <= usize::MAX,
                forall|j2: int, t2: int|
                    0 <= j2 < n && 0 <= t2 < k ==> #[trigger] btv[j2 * k + t2] == bv[t2 * n + j2],
                c@.len() == m * n,
                m * n <= usize::MAX,
                out == gemm_spec(av, bv, m as int, k as int, n as int),
                forall|p: int| 0 <= p < i * n ==> c@[p] == out[p],
            decreases m - i,
        {
            let mut j: usize = 0;
            while j < n
                invariant
                    0 <= i < m,
                    0 <= j <= n,
                    1 <= k,
                    1 <= n,
                    av == a@,
                    bv == b@,
                    btv == bt@,
                    av.len() == m * k,
                    bv.len() == k * n,
                    btv.len() == n * k,
                    m * k <= usize::MAX,
                    k * n <= usize::MAX,
                    forall|j2: int, t2: int|
                        0 <= j2 < n && 0 <= t2 < k ==> #[trigger] btv[j2 * k + t2] == bv[t2 * n
                            + j2],
                    c@.len() == m * n,
                    m * n <= usize::MAX,
                    out == gemm_spec(av, bv, m as int, k as int, n as int),
                    forall|p: int| 0 <= p < i * n + j ==> c@[p] == out[p],
                decreases n - j,
            {
                let ghost terms = cell_terms(av, bv, k as int, n as int, i as int, j as int);
                proof {
                    assert(terms.take(0) =~= Seq::<i32>::empty());
                }
                let mut total: i32 = 0;
                let mut t: usize = 0;
                while t < k
                    invariant
                        0 <= t <= k,
                        0 <= i < m,
                        0 <= j < n,
                        1 <= k,
                        1 <= n,
                        av == a@,
                        bv == b@,
                        btv == bt@,
                        av.len() == m * k,
                        bv.len() == k * n,
                        btv.len() == n * k,
                        m * k <= usize::MAX,
                        k * n <= usize::MAX,
                        forall|j2: int, t2: int|
                            0 <= j2 < n && 0 <= t2 < k ==> #[trigger] btv[j2 * k + t2] == bv[t2 * n
                                + j2],
                        terms == cell_terms(av, bv, k as int, n as int, i as int, j as int),
                        total == wsum(terms.take(t as int)),
                    decreases k - t,
                {
                    let end: usize = if k - t < TILE_SIZE {
                        k
                    } else {
                        t + TILE_SIZE
                    };
                    let mut partial: i32 = 0;
                    let mut u: usize = t;
                    proof {
                        assert(terms.subrange(t as int, t as int) =~= Seq::<i32>::empty());
                    }
                    while u < end
                        invariant
                            t <= u <= end,
                            t < end <= k,
                            0 <= i < m,
                            0 <= j < n,
                            av == a@,
                            bv == b@,
                            btv == bt@,
                            av.len() == m * k,
                            bv.len() == k * n,
                            btv.len() == n * k,
                            m * k <= usize::MAX,
                            k * n <= usize::MAX,
                            forall|j2: int, t2: int|
                                0 <= j2 < n && 0 <= t2 < k ==> #[trigger] btv[j2 * k + t2] == bv[t2
                                    * n + j2],
                            terms == cell_terms(av, bv, k as int, n as int, i as int, j as int),
                            partial == wsum(terms.subrange(t as int, u as int)),
                        decreases end - u,
                    {
                        proof {
                            lemma_row_major_index(i as int, u as int, m as int, k as int);
                            lemma_row_major_index(j as int, u as int, n as int, k as int);
                            lemma_row_major_index(u as int, j as int, k as int, n as int);
                        }
                        let x: i32 = a[i * k + u];
                        let y: i32 = bt[j * k + u];
                        let prod: i32 = x.wrapping_mul(y);
                        proof {
                            lemma_wrapping_mul_matches(x, y);
                            lemma_wrapping_add_matches(partial, prod);
                            assert(terms.subrange(t as int, u + 1).drop_last() =~= terms.subrange(
                                t as int,
                                u as int,
                            ));
                            assert(terms.subrange(t as int, u + 1).last() == terms[u as int]);
                        }
                        partial = partial.wrapping_add(prod);
                        u = u + 1;
                    }
                    proof {
                        lemma_wrapping_add_matches(total, partial);
                        lemma_wsum_concat(
                            terms.take(t as int),
                            terms.subrange(t as int, end as int),
                        );
                        assert(terms.take(end as int) =~= terms.take(t as int) + terms.subrange(
                            t as int,
                            end as int,
                        ));
                    }
                    total = total.wrapping_add(partial);
                    t = end;
                }
                proof {
                    lemma_wsum_take_all(terms);
                    lemma_row_major_index(i as int, j as int, m as int, n as int);
                    vstd::arithmetic::div_mod::lemma_fundamental_div_mod_converse(
                        i * n + j,
                        n as int,
                        i as int,
                        j as int,
                    );
                }
                let p: usize = i * n + j;
                c[p] = total;
                j = j + 1;
            }
            proof {
                assert((i + 1) * n == i * n + n) by (nonlinear_arith);
            }
            i = i + 1;
        }
        proof {
            assert(c@ =~= out) by {
                assert(forall|p: int| 0 <= p < m * n ==> c@[p] == out[p]);
            }
        }
        Ok(())
    }
}

} // verus!
