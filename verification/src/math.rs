//! Fixed point arithmetic on 8-bit color components

use vstd::prelude::*;

verus! {

/// `a * b / 255` rounded to the nearest integer
pub open spec fn mul_div255(a: int, b: int) -> int {
    (2 * a * b + 255) / 510
}

/// Multiply two u8 values using fixed point math
pub fn multiply_u8(a: u8, b: u8) -> (r: u8)
    ensures
        r == mul_div255(a as int, b as int),
{
    let a: u32 = a as u32;
    let b: u32 = b as u32;
    assert(a * b <= 255 * 255) by (nonlinear_arith)
        requires a < 256, b < 256;
    let t: u32 = a * b + 128;
    assert(t >> 8u32 <= t) by (bit_vector);
    let tt: u32 = ((t >> 8u32) + t) >> 8u32;
    assert(tt == (2 * a * b + 255) / 510 && tt < 256) by (bit_vector)
        requires a < 256, b < 256, t == a * b + 128, tt == (((t >> 8u32) + t) as u32) >> 8u32;
    tt as u8
}

} // verus!

verus! {

/// `p + a * (q - p) / 255` rounded to the nearest integer
pub open spec fn lerp_spec(p: int, q: int, a: int) -> int {
    (2 * (255 * p + a * (q - p)) + 255) / 510
}

/// Interpolate a value between two end points using fixed point math
pub fn lerp_u8(p: u8, q: u8, a: u8) -> (r: u8)
    ensures
        r == lerp_spec(p as int, q as int, a as int),
{
    let v: i32 = if p > q { 1 } else { 0 };
    let q: i32 = q as i32;
    let p: i32 = p as i32;
    let a: i32 = a as i32;
    assert(-255 * 255 <= (q - p) * a <= 255 * 255) by (nonlinear_arith)
        requires 0 <= a < 256, 0 <= p < 256, 0 <= q < 256;
    let n: i32 = (q - p) * a;
    let t0: i32 = n + 128 - v;
    assert(-65536 <= (t0 >> 8i32) <= 256) by (bit_vector)
        requires -65536 <= t0 <= 65536;
    let t1: i32 = ((t0 >> 8i32) + t0) >> 8i32;
    if p > q {
        assert(n <= 0) by (nonlinear_arith) requires n == (q - p) * a, p > q, a >= 0;
        assert(t1 == (2 * n + 255) / 510) by (bit_vector)
            requires -65025 <= n <= 0, t0 == n + 127, t1 == (((t0 >> 8i32) + t0) as i32) >> 8i32;
    } else {
        assert(n >= 0) by (nonlinear_arith) requires n == (q - p) * a, p <= q, a >= 0;
        assert(t1 == (2 * n + 255) / 510) by (bit_vector)
            requires 0 <= n <= 65025, t0 == n + 128, t1 == (((t0 >> 8i32) + t0) as i32) >> 8i32;
    }
    assert(p + (2 * n + 255) / 510 == (2 * (255 * p + n) + 255) / 510) by (nonlinear_arith)
        requires -65025 <= n <= 65025;
    assert(0 <= p + (2 * n + 255) / 510 < 256) by (nonlinear_arith)
        requires 0 <= p < 256, 0 <= q < 256, 0 <= a < 256, n == (q - p) * a;
    (p + t1) as u8
}

} // verus!

verus! {

/// `p + q - p * a / 255`, rounded to the nearest integer and limited to 255
pub open spec fn prelerp_spec(p: int, q: int, a: int) -> int {
    let v = p + q - mul_div255(p, a);
    if v > 255 { 255 } else { v }
}

/// Interpolator a value between two end points pre-calculated by alpha
///
/// p + q - (p*a)
pub fn prelerp_u8(p: u8, q: u8, a: u8) -> (r: u8)
    ensures
        r == prelerp_spec(p as int, q as int, a as int),
{
    let m: u8 = multiply_u8(p, a);
    assert(mul_div255(p as int, a as int) <= p) by (nonlinear_arith)
        requires 0 <= p < 256, 0 <= a < 256;
    let s: u16 = p as u16 + q as u16 - m as u16;
    if s > 255 {
        255
    } else {
        s as u8
    }
}

} // verus!

verus! {

/// `multiply_u8` rounds to the nearest integer: `255 * r` is within half of
/// 255 from `a * b`
pub proof fn lemma_multiply_nearest(a: u8, b: u8)
    ensures
        -255 <= 510 * mul_div255(a as int, b as int) - 2 * a * b <= 255,
{
    let r = mul_div255(a as int, b as int);
    assert(510 * r <= 2 * a * b + 255 < 510 * r + 510) by (nonlinear_arith)
        requires r == (2 * a * b + 255) / 510, a >= 0, b >= 0;
}

/// Full alpha keeps a component, zero alpha clears it
pub proof fn lemma_multiply_ends(a: u8)
    ensures
        mul_div255(a as int, 255) == a,
        mul_div255(a as int, 0) == 0,
{
    assert((2 * a * 255 + 255) / 510 == a) by (nonlinear_arith) requires 0 <= a < 256;
}

/// `lerp_u8` rounds to the nearest integer: `255 * r` is within half of 255
/// from `255 * p + a * (q - p)`
pub proof fn lemma_lerp_nearest(p: u8, q: u8, a: u8)
    ensures
        -255 <= 510 * lerp_spec(p as int, q as int, a as int) - 2 * (255 * p + a * (q - p)) <= 255,
{
    let n = 255 * p + a * (q - p);
    let r = lerp_spec(p as int, q as int, a as int);
    assert(510 * r <= 2 * n + 255 < 510 * r + 510) by (nonlinear_arith)
        requires r == (2 * n + 255) / 510;
}

/// Interpolating by zero alpha gives the start, by full alpha the end
pub proof fn lemma_lerp_ends(p: u8, q: u8)
    ensures
        lerp_spec(p as int, q as int, 0) == p,
        lerp_spec(p as int, q as int, 255) == q,
{
    assert((2 * (255 * p + 0 * (q - p)) + 255) / 510 == p) by (nonlinear_arith) requires 0 <= p < 256;
    assert((2 * (255 * p + 255 * (q - p)) + 255) / 510 == q) by (nonlinear_arith) requires 0 <= q < 256;
}

/// `prelerp_u8` rounds `p + q - p * a / 255` to the nearest integer, up to 255
pub proof fn lemma_prelerp_nearest(p: u8, q: u8, a: u8)
    ensures
        prelerp_spec(p as int, q as int, a as int) == 255
            || -255 <= 510 * prelerp_spec(p as int, q as int, a as int) - 2 * (255 * (p + q) - p * a) <= 255,
        prelerp_spec(p as int, q as int, a as int) <= 255,
{
    lemma_multiply_nearest(p, a);
    assert(2 * p * a == 2 * (p * a)) by (nonlinear_arith);
}

/// Composing over with zero alpha adds the (premultiplied) color; with
/// full alpha and a full color the result is the color
pub proof fn lemma_prelerp_ends(p: u8, q: u8)
    ensures
        prelerp_spec(p as int, q as int, 0) == (if p + q > 255 { 255 } else { p + q }),
        prelerp_spec(p as int, q as int, 255) == q,
{
    lemma_multiply_ends(p);
}

} // verus!
