//! The SIMD CPU kernel.
//!
//! Same transpose strategy as the blocked kernel, but the per-cell
//! reduction loads each eight-wide tile of the two spans into
//! eight-lane vector registers of the `wide` crate, multiply-adds them
//! into a per-cell vector accumulator, and horizontally sums the eight
//! lanes at the end. The final, ragged tile is loaded from a slice
//! shorter than the vector width; the load zero-fills the missing
//! lanes, which leaves the sum unchanged.
//!
//! The vector operations are trusted: each wrapper states, over the
//! uninterpreted lane view `simd_lanes`, what the `wide` crate
//! documents. Everything around them — tiling, padding, and the claim
//! that the horizontally-summed lanes equal the scalar reduction — is
//! proved.

use vstd::prelude::*;

use crate::backend::{cell_terms, gemm_spec, lemma_row_major_index, Backend, BackendFailure};
use crate::scalar::{lemma_wmul_zero, wadd, wmul};
use crate::sums::{lane_slice, lane_totals, lemma_wsum_lanes, lemma_wsum_pad, wsum};
use crate::tiling::transpose;

verus! {

/// The number of vector lanes, equal to the reduction tile width.
pub const LANES: usize = 8;

#[verifier::external_type_specification]
#[verifier::external_body]
pub struct ExI32x8(wide::i32x8);

/// The eight lanes of a vector register, in order.
pub uninterp spec fn simd_lanes(v: wide::i32x8) -> Seq<i32>;

/// Relies on `wide::i32x8::splat`: every lane holds the given element.
#[verifier::external_body]
fn simd_zero() -> (r: wide::i32x8)
    ensures
        simd_lanes(r) == Seq::new(8, |l: int| 0i32),
{
    wide::i32x8::splat(0)
}

/// Relies on wide's `From<&[i32]>` impl for `i32x8`: the lanes take
/// the slice's elements in order and zero-fill past its end; the
/// conversion panics only on a slice of more than eight elements.
#[verifier::external_body]
fn simd_load(s: &[i32]) -> (r: wide::i32x8)
    requires
        s@.len() <= 8,
    ensures
        simd_lanes(r) == Seq::new(
            8,
            |l: int|
                if l < s@.len() {
                    s@[l]
                } else {
                    0i32
                },
        ),
{
    wide::i32x8::from(s)
}

/// Relies on wide's `Mul` and `Add` impls for `i32x8`: lane-wise
/// wrapping multiplication and addition.
#[verifier::external_body]
fn simd_mul_add(x: wide::i32x8, y: wide::i32x8, acc: wide::i32x8) -> (r: wide::i32x8)
    requires
        simd_lanes(x).len() == 8,
        simd_lanes(y).len() == 8,
        simd_lanes(acc).len() == 8,
    ensures
        simd_lanes(r) == Seq::new(
            8,
            |l: int| wadd(wmul(simd_lanes(x)[l], simd_lanes(y)[l]), simd_lanes(acc)[l]),
        ),
{
    x * y + acc
}

/// Relies on `wide::i32x8::to_array`: hands the eight lanes out in order.
#[verifier::external_body]
fn simd_to_vec(v: wide::i32x8) -> (r: Vec<i32>)
    ensures
        r@ == simd_lanes(v),
        r@.len() == 8,
{
    v.to_array().to_vec()
}

/// The first `len` terms of `s`, zero-filled past its end: the terms
/// the vector loop actually reduces once the span is padded to a whole
/// number of tiles.
pub open spec fn padded_terms(s: Seq<i32>, len: int) -> Seq<i32> {
    Seq::new(
        len as nat,
        |p: int|
            if p < s.len() {
                s[p]
            } else {
                0i32
            },
    )
}

/// The SIMD CPU backend: transpose-then-tiled vector reduction.
pub struct CPU;

impl Backend for CPU {
    type Buf = Vec<i32>;

    type Ctx = ();

    type Err = BackendFailure;

    open spec fn buf_view(buf: Vec<i32>) -> Seq<i32> {
        buf@
    }

    open spec fn supported() -> bool {
        true
    }

    fn allocate(_ctx: &(), size: usize) -> (r: Result<Vec<i32>, BackendFailure>) {
        let v: Vec<i32> = vec![0i32; size];
        proof {
            assert(v@ =~= Seq::new(size as nat, |i: int| 0i32));
        }
        Ok(v)
    }

    fn upload(_ctx: &(), host: &[i32]) -> (r: Result<Vec<i32>, BackendFailure>) {
        Ok(vstd::slice::slice_to_vec(host))
    }

    fn download(_ctx: &(), device: &Vec<i32>, host: &mut Vec<i32>) -> (r: Result<
        (),
        BackendFailure,
    >) {
        host.clear();
        host.extend_from_slice(device.as_slice());
        proof {
            assert(host@ =~= device@);
        }
        Ok(())
    }

    fn gemm(
        _ctx: &(),
        m: usize,
        k: usize,
        n: usize,
        a: &Vec<i32>,
        b: &Vec<i32>,
        c: &mut Vec<i32>,
    ) -> (r: Result<(), BackendFailure>) {
        let ghost av = a@;
        let ghost bv = b@;
        let ghost out = gemm_spec(av, bv, m as int, k as int, n as int);
        let _alen: usize = a.len();
        let _blen: usize = b.len();
        let _clen: usize = c.len();
        let bt: Vec<i32> = transpose(b, k, n);
        let ghost btv = bt@;
        let mut i: usize = 0;
        while i < m
            invariant
                0 <= i <= m,
                1 <= k,
                1 <= n,
                av == a@,
                bv == b@,
                btv == bt@,
                av.len() == m * k,
                bv.len() == k * n,
                btv.len() == n * k,
                m * k <= usize::MAX,
                k * n <= usize::MAX,
                forall|j2: int, t2: int|
                    0 <= j2 < n && 0 <= t2 < k ==> #[trigger] btv[j2 * k + t2] == bv[t2 * n + j2],
                c@.len() == m * n,
                m * n <= usize::MAX,
                out == gemm_spec(av, bv, m as int, k as int, n as int),
                forall|p: int| 0 <= p < i * n ==> c@[p] == out[p],
            decreases m - i,
        {
            let mut j: usize = 0;
            while j < n
                invariant
                    0 <= i < m,
                    0 <= j <= n,
                    1 <= k,
                    1 <= n,
                    av == a@,
                    bv == b@,
                    btv == bt@,
                    av.len() == m * k,
                    bv.len() == k * n,
                    btv.len() == n * k,
                    m * k <= usize::MAX,
                    k * n <= usize::MAX,
                    forall|j2: int, t2: int|
                        0 <= j2 < n && 0 <= t2 < k ==> #[trigger] btv[j2 * k + t2] == bv[t2 * n
                            + j2],
                    c@.len() == m * n,
                    m * n <= usize::MAX,
                    out == gemm_spec(av, bv, m as int, k as int, n as int),
                    forall|p: int| 0 <= p < i * n + j ==> c@[p] == out[p],
                decreases n - j,
            {
                let ghost terms = cell_terms(av, bv, k as int, n as int, i as int, j as int);
                let mut acc: wide::i32x8 = simd_zero();
                let ghost mut tiles: int = 0;
                let mut t: usize = 0;
                proof {
                    assert forall|l: int| 0 <= l < 8 implies simd_lanes(acc)[l] == wsum(
                        lane_slice(padded_terms(terms, 0), 8, 0, l),
                    ) by {
                        assert(lane_slice(padded_terms(terms, 0), 8, 0, l) =~= Seq::<i32>::empty());
                    }
                }
                while t < k
                    invariant
                        0 <= t <= k,
                        0 <= i < m,
                        0 <= j < n,
                        1 <= k,
                        1 <= n,
                        av == a@,
                        bv == b@,
                        btv == bt@,
                        av.len() == m * k,
                        bv.len() == k * n,
                        btv.len() == n * k,
                        m * k <= usize::MAX,
                        k * n <= usize::MAX,
                        forall|j2: int, t2: int|
                            0 <= j2 < n && 0 <= t2 < k ==> #[trigger] btv[j2 * k + t2] == bv[t2 * n
                                + j2],
                        terms == cell_terms(av, bv, k as int, n as int, i as int, j as int),
                        terms.len() == k,
                        tiles >= 0,
                        t <= 8 * tiles,
                        t == 8 * tiles || t == k,
                        simd_lanes(acc).len() == 8,
                        forall|l: int|
                            0 <= l < 8 ==> #[trigger] simd_lanes(acc)[l] == wsum(
                                lane_slice(padded_terms(terms, 8 * tiles), 8, tiles, l),
                            ),
                    decreases k - t,
                {
                    let end: usize = if k - t < LANES {
                        k
                    } else {
                        t + LANES
                    };
                    proof {
                        lemma_row_major_index(i as int, t as int, m as int, k as int);
                        lemma_row_major_index(j as int, t as int, n as int, k as int);
                        assert(i * k + end <= (i + 1) * k <= m * k) by (nonlinear_arith)
                            requires
                                0 <= i < m,
                                end <= k,
                        ;
                        assert(j * k + end <= (j + 1) * k <= n * k) by (nonlinear_arith)
                            requires
                                0 <= j < n,
                                end <= k,
                        ;
                    }
                    let sa: &[i32] = vstd::slice::slice_subrange(a.as_slice(), i * k + t, i * k
                        + end);
                    let sb: &[i32] = vstd::slice::slice_subrange(bt.as_slice(), j * k + t, j * k
                        + end);
                    let va: wide::i32x8 = simd_load(sa);
                    let vb: wide::i32x8 = simd_load(sb);
                    let ghost prev = acc;
                    acc = simd_mul_add(va, vb, acc);
                    proof {
                        let p0 = padded_terms(terms, 8 * tiles);
                        let p1 = padded_terms(terms, 8 * (tiles + 1));
                        assert forall|l: int| 0 <= l < 8 implies #[trigger] simd_lanes(acc)[l]
                            == wsum(lane_slice(p1, 8, tiles + 1, l)) by {
                            let pos = 8 * tiles + l;
                            if pos < k {
                                assert(simd_lanes(va)[l] == av[i * k + pos]);
                                assert(simd_lanes(vb)[l] == btv[j * k + pos]);
                                assert(btv[j * k + pos] == bv[pos * n + j]);
                                assert(wmul(simd_lanes(va)[l], simd_lanes(vb)[l]) == terms[pos]);
                            } else {
                                lemma_wmul_zero(0i32);
                                assert(simd_lanes(va)[l] == 0i32);
                                assert(simd_lanes(vb)[l] == 0i32);
                            }
                            assert(simd_lanes(acc)[l] == wadd(p1[pos], simd_lanes(prev)[l]));
                            assert(lane_slice(p1, 8, tiles + 1, l) =~= lane_slice(
                                p0,
                                8,
                                tiles,
                                l,
                            ).push(p1[pos]));
                            let ls = lane_slice(p0, 8, tiles, l).push(p1[pos]);
                            assert(ls.drop_last() =~= lane_slice(p0, 8, tiles, l));
                        }
                        tiles = tiles + 1;
                    }
                    t = end;
                }
                let lanes: Vec<i32> = simd_to_vec(acc);
                let ghost padded = padded_terms(terms, 8 * tiles);
                proof {
                    assert(lanes@ =~= lane_totals(padded, 8, tiles));
                    lemma_wsum_lanes(padded, 8, tiles);
                    assert(padded =~= terms + Seq::new(
                        (8 * tiles - k) as nat,
                        |q: int| 0i32,
                    ));
                    lemma_wsum_pad(terms, (8 * tiles - k) as nat);
                }
                let mut sum: i32 = 0;
                let mut l: usize = 0;
                proof {
                    assert(lanes@.take(0) =~= Seq::<i32>::empty());
                }
                while l < 8
                    invariant
                        0 <= l <= 8,
                        lanes@.len() == 8,
                        sum == wsum(lanes@.take(l as int)),
                    decreases 8 - l,
                {
                    proof {
                        crate::scalar::lemma_wrapping_add_matches(sum, lanes@[l as int]);
                        crate::sums::lemma_wsum_take_step(lanes@, l as int);
                    }
                    sum = sum.wrapping_add(lanes[l]);
                    l = l + 1;
                }
                proof {
                    assert(lanes@.take(8) =~= lanes@);
                    lemma_row_major_index(i as int, j as int, m as int, n as int);
                    vstd::arithmetic::div_mod::lemma_fundamental_div_mod_converse(
                        i * n + j,
                        n as int,
                        i as int,
                        j as int,
                    );
                }
                let p: usize = i * n + j;
                c[p] = sum;
                j = j + 1;
            }
            proof {
                assert((i + 1) * n == i * n + n) by (nonlinear_arith);
            }
            i = i + 1;
        }
        proof {
            assert(c@ =~= out) by {
                assert(forall|p: int| 0 <= p < m * n ==> c@[p] == out[p]);
            }
        }
        Ok(())
    }
}

} // verus!
