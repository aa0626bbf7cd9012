//! The element type of the matrices and its arithmetic.
//!
//! Elements are 32-bit integers combined with wrapping addition and
//! multiplication. Both operations are images of exact integer
//! arithmetic under reduction modulo 2^32, which makes the element
//! a commutative ring: the reassociated reductions of the blocked and
//! SIMD kernels provably compute the same sums as the naive kernel.

use vstd::prelude::*;
use vstd::arithmetic::div_mod::{
    lemma_fundamental_div_mod, lemma_mod_add_multiples_vanish, lemma_mod_multiples_vanish,
    lemma_small_mod,
};

verus! {

/// The modulus of the 32-bit element type.
pub open spec fn elem_modulus() -> int {
    0x1_0000_0000
}

/// The representative of `x` modulo 2^32 within the `i32` range.
pub open spec fn wrap32(x: int) -> i32 {
    vstd::wrapping::i32_specs::signed_crop(x)
}

/// Wrapping addition of two elements, as a mathematical function.
pub open spec fn wadd(x: i32, y: i32) -> i32 {
    wrap32(x + y)
}

/// Wrapping multiplication of two elements, as a mathematical function.
pub open spec fn wmul(x: i32, y: i32) -> i32 {
    wrap32(x * y)
}

/// Reduction leaves a value that is already in range untouched.
pub proof fn lemma_wrap32_small(x: int)
    requires
        i32::MIN <= x <= i32::MAX,
    ensures
        wrap32(x) == x,
{
    let r = elem_modulus();
    if x >= 0 {
        lemma_small_mod(x as nat, r as nat);
    } else {
        lemma_mod_add_multiples_vanish(x, r);
        lemma_small_mod((x + r) as nat, r as nat);
    }
}

/// Adding any multiple of the modulus does not change the reduction.
pub proof fn lemma_wrap32_multiples_vanish(x: int, k: int)
    ensures
        wrap32(x + elem_modulus() * k) == wrap32(x),
{
    lemma_mod_multiples_vanish(k, x, elem_modulus());
}

/// A value and its reduction differ by a multiple of the modulus, so
/// reducing one addend before an addition does not change the reduced sum.
pub proof fn lemma_wrap32_absorb_left(x: int, y: int)
    ensures
        wrap32(wrap32(x) + y) == wrap32(x + y),
{
    let r = elem_modulus();
    lemma_fundamental_div_mod(x, r);
    let q = if x % r > i32::MAX { x / r + 1 } else { x / r };
    assert(wrap32(x) == x - r * q);
    assert(wrap32(x) + y == (x + y) + r * (-q));
    lemma_wrap32_multiples_vanish(x + y, -q);
}

/// The mirror image of `lemma_wrap32_absorb_left`.
pub proof fn lemma_wrap32_absorb_right(x: int, y: int)
    ensures
        wrap32(x + wrap32(y)) == wrap32(x + y),
{
    lemma_wrap32_absorb_left(y, x);
    assert(wrap32(x + wrap32(y)) == wrap32(wrap32(y) + x));
}

/// A sum of two wrapped pairs reduces to the wrapped four-term sum,
/// whichever way the four terms are paired.
pub proof fn lemma_wadd_pairs(a: i32, b: i32, c: i32, d: i32)
    ensures
        wadd(wadd(a, b), wadd(c, d)) == wrap32(a + b + c + d),
{
    lemma_wrap32_absorb_left(a + b, wadd(c, d) as int);
    lemma_wrap32_absorb_right(a + b, c + d);
}

/// Zero is the identity of wrapping addition.
pub proof fn lemma_wadd_zero(a: i32)
    ensures
        wadd(a, 0i32) == a,
        wadd(0i32, a) == a,
{
    lemma_wrap32_small(a as int);
}

/// Multiplication by zero gives zero.
pub proof fn lemma_wmul_zero(a: i32)
    ensures
        wmul(a, 0i32) == 0i32,
        wmul(0i32, a) == 0i32,
{
    lemma_wrap32_small(0);
}

/// The standard library's wrapping addition computes `wadd`.
pub proof fn lemma_wrapping_add_matches(x: i32, y: i32)
    ensures
        vstd::wrapping::i32_specs::wrapping_add(x, y) == wadd(x, y),
{
    let r = elem_modulus();
    let s = x + y;
    if s > i32::MAX {
        lemma_small_mod(s as nat, r as nat);
    } else if s < i32::MIN {
        lemma_mod_add_multiples_vanish(s, r);
        lemma_small_mod((s + r) as nat, r as nat);
    } else {
        lemma_wrap32_small(s);
    }
}

/// The standard library's wrapping multiplication computes `wmul`.
pub proof fn lemma_wrapping_mul_matches(x: i32, y: i32)
    ensures
        vstd::wrapping::i32_specs::wrapping_mul(x, y) == wmul(x, y),
{
}

} // verus!

