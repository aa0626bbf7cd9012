//! Wrapping sums of element sequences, and the reassociation theorems.
//!
//! Every kernel reduces the same sequence of per-cell products, but in
//! a different order: the naive kernel folds left to right, the blocked
//! kernel adds one partial sum per tile, and the SIMD kernel keeps one
//! accumulator per vector lane and sums the lanes at the end. Because
//! wrapping addition is associative and commutative, all three orders
//! give the same value; the lemmas here state that once and for all,
//! and each kernel's proof leans on them.

use vstd::prelude::*;

use crate::scalar::{
    lemma_wadd_pairs, lemma_wadd_zero, lemma_wrap32_absorb_left, lemma_wrap32_absorb_right, wadd,
};

verus! {

/// The wrapping sum of a sequence of elements, folded left to right.
pub open spec fn wsum(s: Seq<i32>) -> i32
    decreases s.len(),
{
    if s.len() == 0 {
        0i32
    } else {
        wadd(wsum(s.drop_last()), s.last())
    }
}

/// The pointwise wrapping sum of two sequences of equal length.
pub open spec fn zipw(a: Seq<i32>, b: Seq<i32>) -> Seq<i32> {
    Seq::new(a.len(), |i: int| wadd(a[i], b[i]))
}

/// One more term extends a prefix sum by one wrapping addition.
pub proof fn lemma_wsum_take_step(s: Seq<i32>, t: int)
    requires
        0 <= t < s.len(),
    ensures
        wsum(s.take(t + 1)) == wadd(wsum(s.take(t)), s[t]),
{
    assert(s.take(t + 1).drop_last() =~= s.take(t));
    assert(s.take(t + 1).last() == s[t]);
}

/// A sequence is the prefix of itself.
pub proof fn lemma_wsum_take_all(s: Seq<i32>)
    ensures
        wsum(s.take(s.len() as int)) == wsum(s),
{
    assert(s.take(s.len() as int) =~= s);
}

/// Summing a concatenation equals adding the two partial sums: the
/// justification for folding tile partials into a running total.
pub proof fn lemma_wsum_concat(s1: Seq<i32>, s2: Seq<i32>)
    ensures
        wsum(s1 + s2) == wadd(wsum(s1), wsum(s2)),
    decreases s2.len(),
{
    if s2.len() == 0 {
        assert(s1 + s2 =~= s1);
        lemma_wadd_zero(wsum(s1));
    } else {
        assert((s1 + s2).drop_last() =~= s1 + s2.drop_last());
        assert((s1 + s2).last() == s2.last());
        lemma_wsum_concat(s1, s2.drop_last());
        lemma_wrap32_absorb_left(
            wsum(s1) as int + wsum(s2.drop_last()) as int,
            s2.last() as int,
        );
        lemma_wrap32_absorb_right(wsum(s1) as int, wsum(s2.drop_last()) as int + s2.last() as int);
    }
}

/// A sequence of zeros sums to zero.
pub proof fn lemma_wsum_zeros(n: nat)
    ensures
        wsum(Seq::new(n, |i: int| 0i32)) == 0i32,
    decreases n,
{
    let s = Seq::new(n, |i: int| 0i32);
    if n > 0 {
        assert(s.drop_last() =~= Seq::new((n - 1) as nat, |i: int| 0i32));
        lemma_wsum_zeros((n - 1) as nat);
        lemma_wadd_zero(0i32);
    }
}

/// Padding a sequence with zeros does not change its sum.
pub proof fn lemma_wsum_pad(s: Seq<i32>, n: nat)
    ensures
        wsum(s + Seq::new(n, |i: int| 0i32)) == wsum(s),
{
    lemma_wsum_concat(s, Seq::new(n, |i: int| 0i32));
    lemma_wsum_zeros(n);
    lemma_wadd_zero(wsum(s));
}

/// Summing pointwise sums equals adding the two sums.
pub proof fn lemma_wsum_zip(a: Seq<i32>, b: Seq<i32>)
    requires
        a.len() == b.len(),
    ensures
        wsum(zipw(a, b)) == wadd(wsum(a), wsum(b)),
    decreases a.len(),
{
    if a.len() == 0 {
        lemma_wadd_zero(0i32);
    } else {
        assert(zipw(a, b).drop_last() =~= zipw(a.drop_last(), b.drop_last()));
        assert(zipw(a, b).last() == wadd(a.last(), b.last()));
        lemma_wsum_zip(a.drop_last(), b.drop_last());
        lemma_wadd_pairs(wsum(a.drop_last()), wsum(b.drop_last()), a.last(), b.last());
        lemma_wadd_pairs(wsum(a.drop_last()), a.last(), wsum(b.drop_last()), b.last());
    }
}

/// The sequence of terms that one vector lane accumulates: every
/// `w`-th term of `s`, starting at lane position `l`, over `t_count` tiles.
pub open spec fn lane_slice(s: Seq<i32>, w: int, t_count: int, l: int) -> Seq<i32> {
    Seq::new(t_count as nat, |t: int| s[t * w + l])
}

/// One final accumulator per lane: the wrapping sum of each lane's terms.
pub open spec fn lane_totals(s: Seq<i32>, w: int, t_count: int) -> Seq<i32> {
    Seq::new(w as nat, |l: int| wsum(lane_slice(s, w, t_count, l)))
}

/// The lane-interchange theorem: summing the per-lane accumulators of a
/// sequence whose length is a whole number of `w`-wide tiles gives the
/// same value as summing the sequence in order. This is why the SIMD
/// kernel's horizontally-summed lane accumulators equal the scalar sum.
pub proof fn lemma_wsum_lanes(s: Seq<i32>, w: int, t_count: int)
    requires
        w >= 1,
        t_count >= 0,
        s.len() == w * t_count,
    ensures
        wsum(lane_totals(s, w, t_count)) == wsum(s),
    decreases t_count,
{
    if t_count == 0 {
        assert(lane_totals(s, w, 0) =~= Seq::new(w as nat, |l: int| 0i32)) by {
            assert forall|l: int| 0 <= l < w implies lane_totals(s, w, 0)[l] == 0i32 by {
                assert(lane_slice(s, w, 0, l) =~= Seq::<i32>::empty());
            }
        }
        lemma_wsum_zeros(w as nat);
        assert(w * 0 == 0) by (nonlinear_arith);
        assert(s =~= Seq::<i32>::empty());
    } else {
        let prev = (t_count - 1) as int;
        let cut = w * prev;
        assert(cut >= 0 && cut + w == s.len()) by (nonlinear_arith)
            requires
                w >= 1,
                prev >= 0,
                t_count == prev + 1,
                s.len() == w * t_count,
                cut == w * prev,
        ;
        let s0 = s.take(cut);
        let block = s.subrange(cut, s.len() as int);
        assert(s =~= s0 + block);
        assert forall|l: int| 0 <= l < w implies #[trigger] lane_slice(s, w, t_count, l)
            == lane_slice(s0, w, prev, l).push(block[l]) by {
            assert forall|t: int| 0 <= t < prev implies lane_slice(s0, w, prev, l)[t] == s[t * w
                + l] by {
                assert(0 <= t * w + l < cut) by (nonlinear_arith)
                    requires
                        0 <= t < prev,
                        0 <= l < w,
                        cut == w * prev,
                ;
            }
            assert(prev * w == cut) by (nonlinear_arith)
                requires
                    cut == w * prev,
            ;
            assert(block[l] == s[prev * w + l]);
            assert(lane_slice(s, w, t_count, l) =~= lane_slice(s0, w, prev, l).push(block[l]));
        }
        assert(lane_totals(s, w, t_count) =~= zipw(lane_totals(s0, w, prev), block)) by {
            assert forall|l: int| 0 <= l < w implies lane_totals(s, w, t_count)[l] == wadd(
                lane_totals(s0, w, prev)[l],
                block[l],
            ) by {
                let ls = lane_slice(s0, w, prev, l).push(block[l]);
                assert(ls.drop_last() =~= lane_slice(s0, w, prev, l));
                assert(ls.last() == block[l]);
            }
        }
        lemma_wsum_zip(lane_totals(s0, w, prev), block);
        lemma_wsum_lanes(s0, w, prev);
        lemma_wsum_concat(s0, block);
    }
}

} // verus!
