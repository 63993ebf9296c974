//! Integer helpers shared by the interpolators: truncating division and
//! arithmetic shifts on signed values

use vstd::prelude::*;

verus! {

/// Division rounding toward zero, as Rust's `/` on signed integers (for `b > 0`)
pub open spec fn tdiv(a: int, b: int) -> int {
    if a >= 0 { a / b } else { -((-a) / b) }
}

/// Division rounding toward zero for a divisor of either sign
pub open spec fn tquot(a: int, b: int) -> int {
    if b > 0 { tdiv(a, b) } else { -tdiv(a, -b) }
}

/// Remainder matching `tdiv`, as Rust's `%` on signed integers (for `b > 0`)
pub open spec fn trem(a: int, b: int) -> int {
    if a >= 0 { a % b } else { -((-a) % b) }
}

/// The floor of `x / d` is the `q` with `q * d <= x < q * d + d`
pub proof fn lemma_floor_unique(x: int, d: int, q: int)
    requires
        d > 0,
        q * d <= x < q * d + d,
    ensures
        x / d == q,
{
    vstd::arithmetic::div_mod::lemma_fundamental_div_mod_converse(x, d, q, x - q * d);
}

pub proof fn lemma_tdiv_bounds(a: int, b: int)
    requires
        b > 0,
    ensures
        a >= 0 ==> 0 <= trem(a, b) < b,
        a < 0 ==> -b < trem(a, b) <= 0,
        a >= 0 ==> 0 <= tdiv(a, b) <= a,
        a < 0 ==> a <= tdiv(a, b) <= 0,
        b * tdiv(a, b) + trem(a, b) == a,
{
    if a >= 0 {
        vstd::arithmetic::div_mod::lemma_fundamental_div_mod(a, b);
        vstd::arithmetic::div_mod::lemma_div_pos_is_pos(a, b);
        vstd::arithmetic::div_mod::lemma_div_is_ordered_by_denominator(a, 1, b);
    } else {
        vstd::arithmetic::div_mod::lemma_fundamental_div_mod(-a, b);
        vstd::arithmetic::div_mod::lemma_div_pos_is_pos(-a, b);
        vstd::arithmetic::div_mod::lemma_div_is_ordered_by_denominator(-a, 1, b);
        assert(b * (-((-a) / b)) == -(b * ((-a) / b))) by (nonlinear_arith);
    }
}

/// `x >> 1` for signed 64-bit values: the floor of `x / 2`
pub proof fn lemma_shr1(x: i64)
    ensures
        x >> 1i64 == x / 2,
{
    assert((x >> 1i64) * 2 <= x < (x >> 1i64) * 2 + 2) by (bit_vector);
    lemma_floor_unique(x as int, 2, (x >> 1i64) as int);
}

/// `x >> 8` for signed 64-bit values: the floor of `x / 256`
pub proof fn lemma_shr8(x: i64)
    ensures
        (x >> 8i64) * 256 <= x < (x >> 8i64) * 256 + 256,
        x >> 8i64 == x / 256,
{
    assert((x >> 8i64) * 256 <= x < (x >> 8i64) * 256 + 256) by (bit_vector);
    lemma_floor_unique(x as int, 256, (x >> 8i64) as int);
}

/// `x >> 9` for signed 64-bit values: the floor of `x / 512`
pub proof fn lemma_shr9(x: i64)
    ensures
        (x >> 9i64) * 512 <= x < (x >> 9i64) * 512 + 512,
        x >> 9i64 == x / 512,
{
    assert((x >> 9i64) * 512 <= x < (x >> 9i64) * 512 + 512) by (bit_vector);
    lemma_floor_unique(x as int, 512, (x >> 9i64) as int);
}

/// `x >> 16` for signed 64-bit values: the floor of `x / 65536`
pub proof fn lemma_shr16(x: i64)
    ensures
        (x >> 16i64) * 65536 <= x < (x >> 16i64) * 65536 + 65536,
        x >> 16i64 == x / 65536,
{
    assert((x >> 16i64) * 65536 <= x < (x >> 16i64) * 65536 + 65536) by (bit_vector);
    lemma_floor_unique(x as int, 65536, (x >> 16i64) as int);
}

/// `x >> 4` for signed 64-bit values: the floor of `x / 16`
pub proof fn lemma_shr4(x: i64)
    ensures
        (x >> 4i64) * 16 <= x < (x >> 4i64) * 16 + 16,
        x >> 4i64 == x / 16,
{
    assert((x >> 4i64) * 16 <= x < (x >> 4i64) * 16 + 16) by (bit_vector);
    lemma_floor_unique(x as int, 16, (x >> 4i64) as int);
}

/// `x << 8` for signed 64-bit values in range multiplies by 256
pub proof fn lemma_shl8(x: i64)
    requires
        -0x40_0000_0000_0000 <= x < 0x40_0000_0000_0000,
    ensures
        x << 8i64 == x * 256,
{
    assert(x << 8i64 == x * 256) by (bit_vector)
        requires -0x40_0000_0000_0000 <= x < 0x40_0000_0000_0000;
}

/// `x << 9` for signed 64-bit values in range multiplies by 512
pub proof fn lemma_shl9(x: i64)
    requires
        -0x20_0000_0000_0000 <= x < 0x20_0000_0000_0000,
    ensures
        x << 9i64 == x * 512,
{
    assert(x << 9i64 == x * 512) by (bit_vector)
        requires
            -0x20_0000_0000_0000 <= x < 0x20_0000_0000_0000;
}

/// `x << 4` for signed 64-bit values in range multiplies by 16
pub proof fn lemma_shl4(x: i64)
    requires
        -0x400_0000_0000_0000 <= x < 0x400_0000_0000_0000,
    ensures
        x << 4i64 == x * 16,
{
    assert(x << 4i64 == x * 16) by (bit_vector)
        requires -0x400_0000_0000_0000 <= x < 0x400_0000_0000_0000;
}

} // verus!

verus! {

pub open spec fn iabs(v: int) -> int {
    if v < 0 { -v } else { v }
}

/// Bound on a product from bounds on its factors
pub proof fn lemma_mul_bound(a: int, b: int, ba: int, bb: int)
    requires
        iabs(a) <= ba,
        iabs(b) <= bb,
    ensures
        iabs(a * b) <= ba * bb,
        -(ba * bb) <= a * b <= ba * bb,
{
    assert(iabs(a * b) == iabs(a) * iabs(b)) by (nonlinear_arith);
    assert(iabs(a) * iabs(b) <= ba * bb) by (nonlinear_arith)
        requires iabs(a) <= ba, iabs(b) <= bb, 0 <= iabs(a), 0 <= iabs(b);
}

} // verus!

verus! {

/// Clearing the low 8 bits rounds down to a multiple of 256
pub proof fn lemma_mask8(x: i64)
    ensures
        x & !255i64 == (x >> 8i64) * 256,
        x & !255i64 == (x / 256) * 256,
{
    assert(x & !255i64 == (x >> 8i64) * 256) by (bit_vector);
    lemma_shr8(x);
}

} // verus!
