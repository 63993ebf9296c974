//! Renderers and the integer interpolators they use

use vstd::prelude::*;
use crate::fixed::{tdiv, trem, lemma_tdiv_bounds};
use crate::fits_i64;
use vstd::arithmetic::power2::pow2;

verus! {

/// Line Interpolator using a Digital differential analyzer (DDA)
///
/// The running value `y * count + xmod` advances by `left * count + rem`
/// on each `inc`, and `y` is that value divided by `count`, rounded so that
/// `xmod` stays in its range.
#[derive(Debug)]
pub struct LineInterpolator {
    pub count: i64,
    pub left: i64,
    pub rem: i64,
    pub xmod: i64,
    pub y: i64,
}

/// One forward step on the fields `(count, left, rem, xmod, y)`
pub open spec fn dda_inc(f: (int, int, int, int, int)) -> (int, int, int, int, int) {
    let (count, left, rem, xmod, y) = f;
    if xmod + rem > 0 {
        (count, left, rem, xmod + rem - count, y + left + 1)
    } else {
        (count, left, rem, xmod + rem, y + left)
    }
}

/// One backward step on the fields `(count, left, rem, xmod, y)`
pub open spec fn dda_dec(f: (int, int, int, int, int)) -> (int, int, int, int, int) {
    let (count, left, rem, xmod, y) = f;
    if xmod <= rem {
        (count, left, rem, xmod + count - rem, y - 1 - left)
    } else {
        (count, left, rem, xmod - rem, y - left)
    }
}

/// `n` forward steps
pub open spec fn dda_inc_n(f: (int, int, int, int, int), n: nat) -> (int, int, int, int, int)
    decreases n,
{
    if n == 0 { f } else { dda_inc(dda_inc_n(f, (n - 1) as nat)) }
}

/// The running value `y * count + xmod` of the fields
pub open spec fn dda_value(f: (int, int, int, int, int)) -> int {
    f.4 * f.0 + f.3
}

/// `xmod` lies in `(-count, 0]` and `rem` in `(0, count]`
pub open spec fn dda_forward(f: (int, int, int, int, int)) -> bool {
    &&& f.0 > 0
    &&& 0 < f.2 <= f.0
    &&& -f.0 < f.3 <= 0
}

/// `xmod` lies in `(0, count]` and `rem` in `(0, count]`
pub open spec fn dda_backward(f: (int, int, int, int, int)) -> bool {
    &&& f.0 > 0
    &&& 0 < f.2 <= f.0
    &&& 0 < f.3 <= f.0
}

/// Each forward step adds `left * count + rem` to the running value, and a
/// well-formed state stays well formed.
pub proof fn lemma_dda_inc(f: (int, int, int, int, int))
    requires
        dda_forward(f),
    ensures
        dda_forward(dda_inc(f)),
        dda_value(dda_inc(f)) == dda_value(f) + f.1 * f.0 + f.2,
        dda_inc(f).0 == f.0 && dda_inc(f).1 == f.1 && dda_inc(f).2 == f.2,
{
    let g = dda_inc(f);
    if f.3 + f.2 > 0 {
        assert((f.4 + f.1 + 1) * f.0 == f.4 * f.0 + f.1 * f.0 + f.0) by (nonlinear_arith);
    } else {
        assert((f.4 + f.1) * f.0 == f.4 * f.0 + f.1 * f.0) by (nonlinear_arith);
    }
}

/// Each backward step subtracts `left * count + rem` from the running value,
/// and a state well formed backward stays so.
pub proof fn lemma_dda_dec(f: (int, int, int, int, int))
    requires
        f.0 > 0,
    ensures
        dda_value(dda_dec(f)) == dda_value(f) - f.1 * f.0 - f.2,
        dda_backward(f) ==> dda_backward(dda_dec(f)),
        dda_dec(f).0 == f.0 && dda_dec(f).1 == f.1 && dda_dec(f).2 == f.2,
{
    if f.3 <= f.2 {
        assert((f.4 - 1 - f.1) * f.0 == f.4 * f.0 - f.0 - f.1 * f.0) by (nonlinear_arith);
    } else {
        assert((f.4 - f.1) * f.0 == f.4 * f.0 - f.1 * f.0) by (nonlinear_arith);
    }
}

/// A step backward undoes a step forward on the running value
pub proof fn lemma_dda_inc_dec(f: (int, int, int, int, int))
    requires
        dda_forward(f),
    ensures
        dda_value(dda_dec(dda_inc(f))) == dda_value(f),
        dda_dec(dda_inc(f)).0 == f.0,
{
    lemma_dda_inc(f);
    lemma_dda_dec(dda_inc(f));
}

/// A new interpolator is well formed and steps by `y2 - y1` (for `count > 0`)
pub proof fn lemma_dda_new(y1: int, y2: int, count: int)
    requires
        count > 0,
    ensures
        dda_forward(LineInterpolator::new_spec(y1, y2, count)),
        LineInterpolator::new_spec(y1, y2, count).1 * count + LineInterpolator::new_spec(y1, y2, count).2
            == y2 - y1,
        dda_value(LineInterpolator::new_spec(y1, y2, count)) == y1 * count
            + LineInterpolator::new_spec(y1, y2, count).3,
        LineInterpolator::new_spec(y1, y2, count).0 == count,
{
    lemma_tdiv_bounds(y2 - y1, count);
    let f = LineInterpolator::new_spec(y1, y2, count);
    if trem(y2 - y1, count) <= 0 {
        assert((tdiv(y2 - y1, count) - 1) * count == tdiv(y2 - y1, count) * count - count)
            by (nonlinear_arith);
    }
    assert(count * tdiv(y2 - y1, count) == tdiv(y2 - y1, count) * count) by (nonlinear_arith);
}

/// After `n` forward steps the running value has advanced by `n` steps
pub proof fn lemma_dda_inc_n(f: (int, int, int, int, int), n: nat)
    requires
        dda_forward(f),
    ensures
        dda_forward(dda_inc_n(f, n)),
        dda_value(dda_inc_n(f, n)) == dda_value(f) + n * (f.1 * f.0 + f.2),
        dda_inc_n(f, n).0 == f.0 && dda_inc_n(f, n).1 == f.1 && dda_inc_n(f, n).2 == f.2,
    decreases n,
{
    if n > 0 {
        lemma_dda_inc_n(f, (n - 1) as nat);
        lemma_dda_inc(dda_inc_n(f, (n - 1) as nat));
        assert(((n - 1) as nat) * (f.1 * f.0 + f.2) + (f.1 * f.0 + f.2) == n * (f.1 * f.0 + f.2))
            by (nonlinear_arith) requires n > 0;
    }
}

/// An interpolator from `y1` to `y2` in `count` steps reaches `y2` after
/// exactly `count` steps.
pub proof fn lemma_dda_reaches_end(y1: int, y2: int, count: int)
    requires
        count > 0,
    ensures
        dda_inc_n(LineInterpolator::new_spec(y1, y2, count), count as nat).4 == y2,
{
    let f = LineInterpolator::new_spec(y1, y2, count);
    lemma_dda_new(y1, y2, count);
    lemma_dda_inc_n(f, count as nat);
    let g = dda_inc_n(f, count as nat);
    // g.4 * count + g.3 == y1 * count + f.3 + count * (y2 - y1)
    assert(count * (y2 - y1) + y1 * count == y2 * count) by (nonlinear_arith);
    assert((g.4 - y2) * count == f.3 - g.3) by (nonlinear_arith)
        requires g.4 * count + g.3 == y2 * count + f.3;
    if g.4 > y2 {
        assert((g.4 - y2) * count >= count) by (nonlinear_arith) requires g.4 - y2 >= 1, count > 0;
    }
    if g.4 < y2 {
        assert((g.4 - y2) * count <= -count) by (nonlinear_arith) requires g.4 - y2 <= -1, count > 0;
    }
}

/// Bounds on the fields after `n` forward steps from any state
pub proof fn lemma_dda_inc_n_bounds(f: (int, int, int, int, int), n: nat)
    ensures
        crate::fixed::iabs(dda_inc_n(f, n).4 - f.4) <= n * (crate::fixed::iabs(f.1) + 1),
        crate::fixed::iabs(dda_inc_n(f, n).3 - f.3) <= n * (crate::fixed::iabs(f.2) + crate::fixed::iabs(f.0)),
        dda_inc_n(f, n).0 == f.0 && dda_inc_n(f, n).1 == f.1 && dda_inc_n(f, n).2 == f.2,
    decreases n,
{
    if n > 0 {
        lemma_dda_inc_n_bounds(f, (n - 1) as nat);
        let a = crate::fixed::iabs(f.1) + 1;
        let b = crate::fixed::iabs(f.2) + crate::fixed::iabs(f.0);
        assert(((n - 1) as nat) * a + a == n * a) by (nonlinear_arith) requires n > 0;
        assert(((n - 1) as nat) * b + b == n * b) by (nonlinear_arith) requires n > 0;
    }
}

/// Moving the remainder of `new_back_adjusted_2(y, count)` to the forward
/// range gives `new(0, y, count)`, for a positive count
pub proof fn lemma_back_adjusted_forward(y: int, count: int)
    requires
        count >= 1,
    ensures
        ({
            let b = LineInterpolator::back_spec(y, count);
            (b.0, b.1, b.2, b.3 - b.0, b.4) == LineInterpolator::new_spec(0, y, count)
        }),
{
}

/// On a back-adjusted interpolator, a step forward then a step back
/// returns it to the same fields
pub proof fn lemma_dda_dec_after_inc(f: (int, int, int, int, int))
    requires
        dda_backward(f),
    ensures
        dda_dec(dda_inc(f)) == f,
{
}

/// `new_back_adjusted_2(y, count)` is back-adjusted, for a positive count
pub proof fn lemma_back_adjusted(y: int, count: int)
    requires
        count >= 1,
    ensures
        dda_backward(LineInterpolator::back_spec(y, count)),
{
    lemma_tdiv_bounds(y, count);
}

/// Longest line, in subpixels, that the outline renderers draw in one piece
pub const LINE_MAX_LENGTH: i64 = 0x4_0000;

/// Bound on the values of the interpolators that walk outline lines
///
/// A single step needs only that its sums fit in 64 bits; the outline
/// interpolators keep every value of the line walk within this bound, which
/// lines between points in range never approach, so that every step of a
/// whole walk fits.
pub const DDA_LIMIT: i64 = 0x10_0000_0000_0000;

impl LineInterpolator {
    /// The fields that `new(y1, y2, count)` produces
    pub open spec fn new_spec(y1: int, y2: int, count: int) -> (int, int, int, int, int) {
        let cnt = if count < 1 { 1 } else { count };
        let left = tdiv(y2 - y1, cnt);
        let rem = trem(y2 - y1, cnt);
        if rem <= 0 {
            // (count, left, rem, xmod, y)
            (cnt, left - 1, rem + count, rem, y1)
        } else {
            (cnt, left, rem, rem - count, y1)
        }
    }

    /// The fields that `new_back_adjusted_2(y, count)` produces
    pub open spec fn back_spec(y: int, count: int) -> (int, int, int, int, int) {
        let cnt = if count < 1 { 1 } else { count };
        let left = tdiv(y, cnt);
        let rem = trem(y, cnt);
        if rem <= 0 {
            (cnt, left - 1, rem + count, rem + count, 0)
        } else {
            (cnt, left, rem, rem, 0)
        }
    }

    pub open spec fn fields(&self) -> (int, int, int, int, int) {
        (self.count as int, self.left as int, self.rem as int, self.xmod as int, self.y as int)
    }

    /// The running value: `y` in units of `1 / count`
    pub open spec fn value(&self) -> int {
        self.y * self.count + self.xmod
    }

    /// The amount `value` advances on each step
    pub open spec fn delta(&self) -> int {
        self.left * self.count + self.rem
    }

    /// Well formed in the forward direction: `xmod` in `(-count, 0]`
    pub open spec fn forward(&self) -> bool {
        &&& self.count > 0
        &&& 0 < self.rem <= self.count
        &&& -self.count < self.xmod <= 0
    }

    /// Well formed in the backward direction: `xmod` in `(0, count]`
    pub open spec fn backward(&self) -> bool {
        &&& self.count > 0
        &&& 0 < self.rem <= self.count
        &&& 0 < self.xmod <= self.count
    }

    /// No step from this state can leave the 64-bit range
    pub open spec fn in_range(&self) -> bool {
        &&& -DDA_LIMIT <= self.y <= DDA_LIMIT
        &&& -DDA_LIMIT <= self.left <= DDA_LIMIT
        &&& -DDA_LIMIT <= self.rem <= DDA_LIMIT
        &&& -DDA_LIMIT <= self.xmod <= DDA_LIMIT
        &&& -DDA_LIMIT <= self.count <= DDA_LIMIT
    }

    /// The fields after one `inc`
    pub open spec fn inc_spec(&self) -> (int, int, int, int, int) {
        dda_inc(self.fields())
    }

    /// The fields after one `dec`
    pub open spec fn dec_spec(&self) -> (int, int, int, int, int) {
        dda_dec(self.fields())
    }

    /// Create an interpolator from `y1` to `y2` in `count` steps
    // Values should be in Subpixel coordinates
    pub fn new(y1: i64, y2: i64, count: i64) -> (s: Self)
        requires
            i64::MIN < y2 - y1 <= i64::MAX,
        ensures
            s.fields() == Self::new_spec(y1 as int, y2 as int, count as int),
    {
        let cnt: i64 = if count < 1 { 1 } else { count };
        proof { lemma_tdiv_bounds(y2 - y1, cnt as int); }
        let mut left: i64 = (y2 - y1) / cnt;
        let mut rem: i64 = (y2 - y1) % cnt;
        let mut xmod: i64 = rem;
        let y: i64 = y1;
        if xmod <= 0 {
            xmod += count;
            rem += count;
            left -= 1;
        }
        xmod -= count;
        LineInterpolator { y, left, rem, xmod, count: cnt }
    }

    /// Move the remainder from the backward range to the forward range
    pub fn adjust_forward(&mut self)
        requires
            fits_i64(old(self).xmod - old(self).count),
        ensures
            final(self).fields() == (old(self).count as int, old(self).left as int, old(self).rem as int,
                old(self).xmod - old(self).count, old(self).y as int),
    {
        self.xmod -= self.count;
    }

    /// Same as `new`
    pub fn new_foward_adjusted(y1: i64, y2: i64, count: i64) -> (s: Self)
        requires
            i64::MIN < y2 - y1 <= i64::MAX,
        ensures
            s.fields() == Self::new_spec(y1 as int, y2 as int, count as int),
    {
        Self::new(y1, y2, count)
    }

    /// Create an interpolator from 0 to `y` in `count` steps, with the
    /// remainder in the backward range
    pub fn new_back_adjusted_2(y: i64, count: i64) -> (s: Self)
        requires
            i64::MIN < y,
        ensures
            s.fields() == Self::back_spec(y as int, count as int),
    {
        let cnt: i64 = if count < 1 { 1 } else { count };
        proof { lemma_tdiv_bounds(y as int, cnt as int); }
        let mut left: i64 = y / cnt;
        let mut rem: i64 = y % cnt;
        let mut xmod: i64 = rem;
        let m_y: i64 = 0;
        if xmod <= 0 {
            xmod += count;
            rem += count;
            left -= 1;
        }
        LineInterpolator { y: m_y, left, rem, xmod, count: cnt }
    }

    /// Step forward
    pub fn inc(&mut self)
        requires
            fits_i64(old(self).xmod + old(self).rem),
            fits_i64(old(self).y + old(self).left),
            old(self).xmod + old(self).rem > 0 ==> fits_i64(old(self).xmod + old(self).rem - old(self).count)
                && fits_i64(old(self).y + old(self).left + 1),
        ensures
            final(self).fields() == old(self).inc_spec(),
    {
        self.xmod += self.rem;
        self.y += self.left;
        if self.xmod > 0 {
            self.xmod -= self.count;
            self.y += 1;
        }
    }

    /// Step backward
    pub fn dec(&mut self)
        requires
            old(self).xmod <= old(self).rem ==> fits_i64(old(self).xmod + old(self).count)
                && fits_i64(old(self).xmod + old(self).count - old(self).rem)
                && fits_i64(old(self).y - 1) && fits_i64(old(self).y - 1 - old(self).left),
            old(self).xmod > old(self).rem ==> fits_i64(old(self).xmod - old(self).rem)
                && fits_i64(old(self).y - old(self).left),
        ensures
            final(self).fields() == old(self).dec_spec(),
    {
        if self.xmod <= self.rem {
            self.xmod += self.count;
            self.y -= 1;
        }
        self.xmod -= self.rem;
        self.y -= self.left;
    }
}

} // verus!

verus! {

/// `n` backward steps
pub open spec fn dda_dec_n(f: (int, int, int, int, int), n: nat) -> (int, int, int, int, int)
    decreases n,
{
    if n == 0 { f } else { dda_dec(dda_dec_n(f, (n - 1) as nat)) }
}

/// After `n` backward steps the running value has gone back by `n` steps,
/// and a state well formed backward stays so
pub proof fn lemma_dda_dec_n(f: (int, int, int, int, int), n: nat)
    requires
        dda_backward(f),
    ensures
        dda_backward(dda_dec_n(f, n)),
        dda_value(dda_dec_n(f, n)) == dda_value(f) - n * (f.1 * f.0 + f.2),
        dda_dec_n(f, n).0 == f.0 && dda_dec_n(f, n).1 == f.1 && dda_dec_n(f, n).2 == f.2,
    decreases n,
{
    if n > 0 {
        lemma_dda_dec_n(f, (n - 1) as nat);
        lemma_dda_dec(dda_dec_n(f, (n - 1) as nat));
        assert(((n - 1) as nat) * (f.1 * f.0 + f.2) + (f.1 * f.0 + f.2) == n * (f.1 * f.0 + f.2))
            by (nonlinear_arith) requires n > 0;
    }
}

/// Stepping forward `k` times from `new(y1, y2, count)` follows the line
/// from `y1` to `y2`: `count` times the value is within `count` of
/// `k * (y2 - y1)` past `count * y1`, and after `count` steps it is `y2`
pub proof fn lemma_dda_forward_walk(y1: int, y2: int, count: int, k: nat)
    requires
        count >= 1,
    ensures
        ({
            let g = dda_inc_n(LineInterpolator::new_spec(y1, y2, count), k);
            crate::fixed::iabs(count * (g.4 - y1) - k * (y2 - y1)) < count
        }),
        dda_inc_n(LineInterpolator::new_spec(y1, y2, count), count as nat).4 == y2,
{
    let f = LineInterpolator::new_spec(y1, y2, count);
    lemma_dda_new(y1, y2, count);
    lemma_dda_inc_n(f, k);
    lemma_dda_reaches_end(y1, y2, count);
    let g = dda_inc_n(f, k);
    assert(count * (g.4 - y1) - k * (y2 - y1) == f.3 - g.3) by (nonlinear_arith)
        requires g.4 * count + g.3 == y1 * count + f.3 + k * (y2 - y1);
}

/// Stepping backward `k` times from `new_back_adjusted_2(y, count)` walks
/// the line from `0` to `-y`: `count` times the value is within `count` of
/// `-k * y`, and after `count` steps it is `-y`
pub proof fn lemma_dda_backward_walk(y: int, count: int, k: nat)
    requires
        count >= 1,
    ensures
        crate::fixed::iabs(count * dda_dec_n(LineInterpolator::back_spec(y, count), k).4 + k * y) < count,
        dda_dec_n(LineInterpolator::back_spec(y, count), count as nat).4 == -y,
{
    let f = LineInterpolator::back_spec(y, count);
    lemma_back_adjusted(y, count);
    lemma_tdiv_bounds(y, count);
    assert(f.1 * f.0 + f.2 == y) by (nonlinear_arith)
        requires f.0 == count, (trem(y, count) <= 0 ==> f.1 == tdiv(y, count) - 1 && f.2 == trem(y, count) + count),
            (trem(y, count) > 0 ==> f.1 == tdiv(y, count) && f.2 == trem(y, count)),
            tdiv(y, count) * count + trem(y, count) == y;
    lemma_dda_dec_n(f, k);
    lemma_dda_dec_n(f, count as nat);
    let g = dda_dec_n(f, k);
    assert(count * g.4 + k * y == f.3 - g.3) by (nonlinear_arith)
        requires g.4 * count + g.3 == 0 * count + f.3 - k * y;
    let e = dda_dec_n(f, count as nat);
    assert((e.4 + y) * count == f.3 - e.3) by (nonlinear_arith)
        requires e.4 * count + e.3 == 0 * count + f.3 - count * y;
    if e.4 + y > 0 {
        assert((e.4 + y) * count >= count) by (nonlinear_arith) requires e.4 + y >= 1, count > 0;
    }
    if e.4 + y < 0 {
        assert((e.4 + y) * count <= -count) by (nonlinear_arith) requires e.4 + y <= -1, count > 0;
    }
}

/// Bounds on the fields after `n` backward steps from any state
pub proof fn lemma_dda_dec_n_bounds(f: (int, int, int, int, int), n: nat)
    ensures
        crate::fixed::iabs(dda_dec_n(f, n).4 - f.4) <= n * (crate::fixed::iabs(f.1) + 1),
        crate::fixed::iabs(dda_dec_n(f, n).3 - f.3) <= n * (crate::fixed::iabs(f.2) + crate::fixed::iabs(f.0)),
        dda_dec_n(f, n).0 == f.0 && dda_dec_n(f, n).1 == f.1 && dda_dec_n(f, n).2 == f.2,
    decreases n,
{
    if n > 0 {
        lemma_dda_dec_n_bounds(f, (n - 1) as nat);
        let a = crate::fixed::iabs(f.1) + 1;
        let b = crate::fixed::iabs(f.2) + crate::fixed::iabs(f.0);
        assert(((n - 1) as nat) * a + a == n * a) by (nonlinear_arith) requires n > 0;
        assert(((n - 1) as nat) * b + b == n * b) by (nonlinear_arith) requires n > 0;
    }
}

} // verus!

verus! {

/// Gradient along x: the color index is the x position
#[derive(Debug)]
pub struct GradientX {}

impl GradientX {
    pub fn calculate(&self, x: i64, _y: i64, _d: i64) -> (r: i64)
        ensures
            r == x,
    {
        x
    }
}

/// The scanline handed to a renderer
#[derive(Debug)]
pub struct RenderData {
    pub sl: crate::scan::ScanlineU8,
}

impl RenderData {
    pub fn new() -> (s: Self)
        ensures
            s.sl.spans@.len() == 0,
            s.sl.covers@ == Map::<i64, u64>::empty(),
            s.sl.y == 0,
            s.sl.last_x == crate::scan::LAST_X,
            s.sl.min_x == 0,
    {
        Self { sl: crate::scan::ScanlineU8::new() }
    }
}

/// Steps along a line one pixel at a time in its major direction, the
/// other coordinate following a DDA
#[derive(Debug)]
pub struct BresehamInterpolator {
    /// First point, x position
    pub x1: i64,
    /// First point, y position
    pub y1: i64,
    /// Second point, x position
    pub x2: i64,
    /// Second point, y position
    pub y2: i64,
    /// Line is primarilly vertical
    pub ver: bool,
    pub len: i64,
    pub inc: i64,
    pub func: LineInterpolator,
}

impl BresehamInterpolator {
    /// The interpolator between the subpixel points (`x1_hr`,`y1_hr`) and
    /// (`x2_hr`,`y2_hr`); the DDA runs over the minor coordinate in
    /// subpixels, in as many steps as the major coordinate spans pixels
    pub fn new(x1_hr: crate::outline::Subpixel, y1_hr: crate::outline::Subpixel,
               x2_hr: crate::outline::Subpixel, y2_hr: crate::outline::Subpixel) -> (s: Self)
        requires
            crate::fixed::iabs(x2_hr.0 - x1_hr.0) <= i64::MAX,
            crate::fixed::iabs(y2_hr.0 - y1_hr.0) <= i64::MAX,
        ensures
            ({
                let x1 = x1_hr.0 / 256;
                let y1 = y1_hr.0 / 256;
                let x2 = x2_hr.0 / 256;
                let y2 = y2_hr.0 / 256;
                let dx = crate::fixed::iabs(x2 - x1);
                let dy = crate::fixed::iabs(y2 - y1);
                let ver = dy > dx;
                let len = if ver { dy } else { dx };
                let (z1, z2) = if ver { (x1_hr.0, x2_hr.0) } else { (y1_hr.0, y2_hr.0) };
                &&& s.x1 == x1 && s.y1 == y1
                &&& s.ver == ver
                &&& s.len == len
                &&& s.inc == (if ver { if y2 > y1 { 1int } else { -1 } }
                        else { if x2 > x1 { 1int } else { -1 } })
                &&& s.func.fields() == LineInterpolator::new_spec(z1 as int, z2 as int, len)
                &&& s.x2 == z1 / 256
                &&& s.y2 == z1 / 256
            }),
    {
        let x1: i64 = i64::from(x1_hr);
        let x2: i64 = i64::from(x2_hr);
        let y1: i64 = i64::from(y1_hr);
        let y2: i64 = i64::from(y2_hr);
        let dy: i64 = if y2 >= y1 { y2 - y1 } else { y1 - y2 };
        let dx: i64 = if x2 >= x1 { x2 - x1 } else { x1 - x2 };
        let ver = dy > dx;
        let len: i64 = if ver { dy } else { dx };
        let inc: i64 = if ver {
            if y2 > y1 { 1 } else { -1 }
        } else {
            if x2 > x1 { 1 } else { -1 }
        };
        let (z1, z2) = if ver { (x1_hr, x2_hr) } else { (y1_hr, y2_hr) };
        let func = LineInterpolator::new(z1.value(), z2.value(), len);
        proof { crate::fixed::lemma_shr8(func.y); }
        let y2: i64 = func.y >> 8i64;
        let x2: i64 = func.y >> 8i64;
        Self { x1, y1, x2, y2, ver, len, inc, func }
    }

    /// Step along y: the x position follows the DDA
    pub fn vstep(&mut self)
        requires
            fits_i64(old(self).func.xmod + old(self).func.rem),
            fits_i64(old(self).func.y + old(self).func.left),
            old(self).func.xmod + old(self).func.rem > 0
                ==> fits_i64(old(self).func.xmod + old(self).func.rem - old(self).func.count)
                && fits_i64(old(self).func.y + old(self).func.left + 1),
            fits_i64(old(self).y1 + old(self).inc),
        ensures
            final(self).func.fields() == old(self).func.inc_spec(),
            final(self).y1 == old(self).y1 + old(self).inc,
            final(self).x2 == old(self).func.inc_spec().4 / 256,
            final(self).x1 == old(self).x1,
            final(self).y2 == old(self).y2,
            final(self).ver == old(self).ver,
            final(self).len == old(self).len,
            final(self).inc == old(self).inc,
    {
        self.func.inc();
        self.y1 += self.inc;
        proof { crate::fixed::lemma_shr8(self.func.y); }
        self.x2 = self.func.y >> 8i64;
    }

    /// Step along x: the y position follows the DDA
    pub fn hstep(&mut self)
        requires
            fits_i64(old(self).func.xmod + old(self).func.rem),
            fits_i64(old(self).func.y + old(self).func.left),
            old(self).func.xmod + old(self).func.rem > 0
                ==> fits_i64(old(self).func.xmod + old(self).func.rem - old(self).func.count)
                && fits_i64(old(self).func.y + old(self).func.left + 1),
            fits_i64(old(self).x1 + old(self).inc),
        ensures
            final(self).func.fields() == old(self).func.inc_spec(),
            final(self).x1 == old(self).x1 + old(self).inc,
            final(self).y2 == old(self).func.inc_spec().4 / 256,
            final(self).y1 == old(self).y1,
            final(self).x2 == old(self).x2,
            final(self).ver == old(self).ver,
            final(self).len == old(self).len,
            final(self).inc == old(self).inc,
    {
        self.func.inc();
        self.x1 += self.inc;
        proof { crate::fixed::lemma_shr8(self.func.y); }
        self.y2 = self.func.y >> 8i64;
    }
}

} // verus!

verus! {

use crate::line_interp::{step_inc_x, step_dec_x, step_inc_y, step_dec_y, step_fits, mr, mr_cross, hr_cross,
                         line_mr, mr_cross_exec, hr_cross_exec};
use crate::fixed::{lemma_mul_bound, lemma_shr8, lemma_shl8, lemma_shl4};
use crate::{in_coord, in_aux, COORD_LIMIT, POLY_SUBPIXEL_SHIFT, POLY_MR_SUBPIXEL_SHIFT};

/// Distances of a pixel to a line, to its two ends and along an image
/// pattern, each kept incrementally
#[derive(Debug)]
pub struct DistanceInterpolator4 {
    pub dx: i64,
    pub dy: i64,
    pub dx_start: i64,
    pub dy_start: i64,
    pub dx_pict: i64,
    pub dy_pict: i64,
    pub dx_end: i64,
    pub dy_end: i64,
    pub dist: i64,
    pub dist_start: i64,
    pub dist_pict: i64,
    pub dist_end: i64,
    pub len: i64,
}

/// The cross product that places a pixel along an image pattern: the
/// offset of the pixel center from (`x1 - tdy`, `y1 + tdx`), crossed with
/// the pattern step (`-tdy`, `tdx`)
pub open spec fn pict_cross(x: int, y: int, x1: int, y1: int, tdx: int, tdy: int) -> int {
    (x + 128 - (x1 - tdy)) * tdx - (y + 128 - (y1 + tdx)) * (-tdy)
}

impl DistanceInterpolator4 {
    /// Distances of pixel (`x`,`y`) to the line from (`x1`,`y1`) to
    /// (`x2`,`y2`), to its start and end lines toward (`sx`,`sy`) and
    /// (`ex`,`ey`), and along an image pattern of length `len` whose step
    /// per pixel along the line is (`tdx`,`tdy`) in 1/256 pixel
    ///
    /// `len` and the step are what the pattern's scale makes of the line
    /// length and direction.
    pub fn with_pattern_step(x1: i64, y1: i64, x2: i64, y2: i64, sx: i64, sy: i64, ex: i64, ey: i64,
                             x: i64, y: i64, len: i64, tdx: i64, tdy: i64) -> (s: Self)
        requires
            in_coord(x1 as int), in_coord(y1 as int), in_coord(x2 as int), in_coord(y2 as int),
            in_coord(x as int), in_coord(y as int),
            in_aux(sx as int), in_aux(sy as int), in_aux(ex as int), in_aux(ey as int),
            -COORD_LIMIT <= tdx <= COORD_LIMIT, -COORD_LIMIT <= tdy <= COORD_LIMIT,
        ensures
            s.dx == (x2 - x1) * 256,
            s.dy == (y2 - y1) * 256,
            s.dx_start == (mr(sx as int) - mr(x1 as int)) * 16,
            s.dy_start == (mr(sy as int) - mr(y1 as int)) * 16,
            s.dx_end == (mr(ex as int) - mr(x2 as int)) * 16,
            s.dy_end == (mr(ey as int) - mr(y2 as int)) * 16,
            s.dx_pict == -tdy,
            s.dy_pict == tdx,
            s.dist == hr_cross(x as int, y as int, x2 as int, y2 as int, x2 - x1, y2 - y1),
            s.dist_start == mr_cross(x as int, y as int, sx as int, sy as int,
                mr(sx as int) - mr(x1 as int), mr(sy as int) - mr(y1 as int)),
            s.dist_end == mr_cross(x as int, y as int, ex as int, ey as int,
                mr(ex as int) - mr(x2 as int), mr(ey as int) - mr(y2 as int)),
            s.dist_pict == pict_cross(x as int, y as int, x1 as int, y1 as int, tdx as int, tdy as int) / 256,
            s.len == len,
    {
        let dx: i64 = x2 - x1;
        let dy: i64 = y2 - y1;
        let dx_start: i64 = line_mr(sx) - line_mr(x1);
        let dy_start: i64 = line_mr(sy) - line_mr(y1);
        let dx_end: i64 = line_mr(ex) - line_mr(x2);
        let dy_end: i64 = line_mr(ey) - line_mr(y2);
        let dist: i64 = hr_cross_exec(x, y, x2, y2, dx, dy);
        let dist_start: i64 = mr_cross_exec(x, y, sx, sy, dx_start, dy_start);
        let dist_end: i64 = mr_cross_exec(x, y, ex, ey, dx_end, dy_end);
        let dx_pict: i64 = -tdy;
        let dy_pict: i64 = tdx;
        let a: i64 = x + POLY_SUBPIXEL_SCALE / 2 - (x1 - tdy);
        let b: i64 = y + POLY_SUBPIXEL_SCALE / 2 - (y1 + tdx);
        proof {
            lemma_mul_bound(a as int, dy_pict as int, 0x400_0000, COORD_LIMIT as int);
            lemma_mul_bound(b as int, dx_pict as int, 0x400_0000, COORD_LIMIT as int);
        }
        let cross: i64 = a * dy_pict - b * dx_pict;
        proof {
            lemma_shr8(cross);
            lemma_shl8(dx); lemma_shl8(dy);
            lemma_shl4(dx_start); lemma_shl4(dy_start); lemma_shl4(dx_end); lemma_shl4(dy_end);
        }
        let dist_pict: i64 = cross >> POLY_SUBPIXEL_SHIFT;
        DistanceInterpolator4 {
            dx: dx << POLY_SUBPIXEL_SHIFT,
            dy: dy << POLY_SUBPIXEL_SHIFT,
            dx_start: dx_start << POLY_MR_SUBPIXEL_SHIFT,
            dy_start: dy_start << POLY_MR_SUBPIXEL_SHIFT,
            dx_pict,
            dy_pict,
            dx_end: dx_end << POLY_MR_SUBPIXEL_SHIFT,
            dy_end: dy_end << POLY_MR_SUBPIXEL_SHIFT,
            dist,
            dist_start,
            dist_pict,
            dist_end,
            len,
        }
    }

    /// No single step of any distance leaves the 64-bit range
    pub open spec fn step_ok(&self) -> bool {
        &&& step_fits(self.dist as int, self.dx as int, self.dy as int)
        &&& step_fits(self.dist_start as int, self.dx_start as int, self.dy_start as int)
        &&& step_fits(self.dist_pict as int, self.dx_pict as int, self.dy_pict as int)
        &&& step_fits(self.dist_end as int, self.dx_end as int, self.dy_end as int)
    }

    /// The increments and the length are unchanged
    pub open spec fn same_steps(&self, other: &Self) -> bool {
        &&& self.dx == other.dx && self.dy == other.dy
        &&& self.dx_start == other.dx_start && self.dy_start == other.dy_start
        &&& self.dx_pict == other.dx_pict && self.dy_pict == other.dy_pict
        &&& self.dx_end == other.dx_end && self.dy_end == other.dy_end
        &&& self.len == other.len
    }


    /// A step in -x, the row moving back by as much, undoes a step in +x:
    /// `b` is `a` after `inc_x_by(v)` and `c` is `b` after `dec_x_by(-v)`
    pub proof fn lemma_x_steps_undo(a: Self, b: Self, c: Self, v: int)
        requires
            b.same_steps(&a),
            b.dist == step_inc_x(a.dist as int, a.dx as int, a.dy as int, v),
            b.dist_start == step_inc_x(a.dist_start as int, a.dx_start as int, a.dy_start as int, v),
            b.dist_pict == step_inc_x(a.dist_pict as int, a.dx_pict as int, a.dy_pict as int, v),
            b.dist_end == step_inc_x(a.dist_end as int, a.dx_end as int, a.dy_end as int, v),
            c.same_steps(&b),
            c.dist == step_dec_x(b.dist as int, b.dx as int, b.dy as int, -v),
            c.dist_start == step_dec_x(b.dist_start as int, b.dx_start as int, b.dy_start as int, -v),
            c.dist_pict == step_dec_x(b.dist_pict as int, b.dx_pict as int, b.dy_pict as int, -v),
            c.dist_end == step_dec_x(b.dist_end as int, b.dx_end as int, b.dy_end as int, -v),
        ensures
            c == a,
    {
        crate::line_interp::lemma_steps_undo(a.dist as int, a.dx as int, a.dy as int, v);
        crate::line_interp::lemma_steps_undo(a.dist_start as int, a.dx_start as int, a.dy_start as int, v);
        crate::line_interp::lemma_steps_undo(a.dist_pict as int, a.dx_pict as int, a.dy_pict as int, v);
        crate::line_interp::lemma_steps_undo(a.dist_end as int, a.dx_end as int, a.dy_end as int, v);
    }

    /// A step in -y, the column moving back by as much, undoes a step in
    /// +y: `b` is `a` after `inc_y_by(v)` and `c` is `b` after `dec_y_by(-v)`
    pub proof fn lemma_y_steps_undo(a: Self, b: Self, c: Self, v: int)
        requires
            b.same_steps(&a),
            b.dist == step_inc_y(a.dist as int, a.dx as int, a.dy as int, v),
            b.dist_start == step_inc_y(a.dist_start as int, a.dx_start as int, a.dy_start as int, v),
            b.dist_pict == step_inc_y(a.dist_pict as int, a.dx_pict as int, a.dy_pict as int, v),
            b.dist_end == step_inc_y(a.dist_end as int, a.dx_end as int, a.dy_end as int, v),
            c.same_steps(&b),
            c.dist == step_dec_y(b.dist as int, b.dx as int, b.dy as int, -v),
            c.dist_start == step_dec_y(b.dist_start as int, b.dx_start as int, b.dy_start as int, -v),
            c.dist_pict == step_dec_y(b.dist_pict as int, b.dx_pict as int, b.dy_pict as int, -v),
            c.dist_end == step_dec_y(b.dist_end as int, b.dx_end as int, b.dy_end as int, -v),
        ensures
            c == a,
    {
        crate::line_interp::lemma_steps_undo(a.dist as int, a.dx as int, a.dy as int, v);
        crate::line_interp::lemma_steps_undo(a.dist_start as int, a.dx_start as int, a.dy_start as int, v);
        crate::line_interp::lemma_steps_undo(a.dist_pict as int, a.dx_pict as int, a.dy_pict as int, v);
        crate::line_interp::lemma_steps_undo(a.dist_end as int, a.dx_end as int, a.dy_end as int, v);
    }

    /// Distances whose single steps fit can take a step in any direction
    pub proof fn lemma_step_fits(&self, v: int)
        requires
            self.step_ok(),
        ensures
            self.inc_x_fits(v),
            self.dec_x_fits(v),
            self.inc_y_fits(v),
            self.dec_y_fits(v),
    {
    }

    /// A step in +x, the row having moved by `v`, stays in the 64-bit range
    pub open spec fn inc_x_fits(&self, v: int) -> bool {
        &&& fits_i64(self.dist + self.dy)
        &&& fits_i64(step_inc_x(self.dist as int, self.dx as int, self.dy as int, v))
        &&& fits_i64(self.dist_start + self.dy_start)
        &&& fits_i64(step_inc_x(self.dist_start as int, self.dx_start as int, self.dy_start as int, v))
        &&& fits_i64(self.dist_pict + self.dy_pict)
        &&& fits_i64(step_inc_x(self.dist_pict as int, self.dx_pict as int, self.dy_pict as int, v))
        &&& fits_i64(self.dist_end + self.dy_end)
        &&& fits_i64(step_inc_x(self.dist_end as int, self.dx_end as int, self.dy_end as int, v))
    }

    /// A step in -x, the row having moved by `v`, stays in the 64-bit range
    pub open spec fn dec_x_fits(&self, v: int) -> bool {
        &&& fits_i64(self.dist - self.dy)
        &&& fits_i64(step_dec_x(self.dist as int, self.dx as int, self.dy as int, v))
        &&& fits_i64(self.dist_start - self.dy_start)
        &&& fits_i64(step_dec_x(self.dist_start as int, self.dx_start as int, self.dy_start as int, v))
        &&& fits_i64(self.dist_pict - self.dy_pict)
        &&& fits_i64(step_dec_x(self.dist_pict as int, self.dx_pict as int, self.dy_pict as int, v))
        &&& fits_i64(self.dist_end - self.dy_end)
        &&& fits_i64(step_dec_x(self.dist_end as int, self.dx_end as int, self.dy_end as int, v))
    }

    /// A step in +y, the column having moved by `v`, stays in the 64-bit range
    pub open spec fn inc_y_fits(&self, v: int) -> bool {
        &&& fits_i64(self.dist - self.dx)
        &&& fits_i64(step_inc_y(self.dist as int, self.dx as int, self.dy as int, v))
        &&& fits_i64(self.dist_start - self.dx_start)
        &&& fits_i64(step_inc_y(self.dist_start as int, self.dx_start as int, self.dy_start as int, v))
        &&& fits_i64(self.dist_pict - self.dx_pict)
        &&& fits_i64(step_inc_y(self.dist_pict as int, self.dx_pict as int, self.dy_pict as int, v))
        &&& fits_i64(self.dist_end - self.dx_end)
        &&& fits_i64(step_inc_y(self.dist_end as int, self.dx_end as int, self.dy_end as int, v))
    }

    /// A step in -y, the column having moved by `v`, stays in the 64-bit range
    pub open spec fn dec_y_fits(&self, v: int) -> bool {
        &&& fits_i64(self.dist + self.dx)
        &&& fits_i64(step_dec_y(self.dist as int, self.dx as int, self.dy as int, v))
        &&& fits_i64(self.dist_start + self.dx_start)
        &&& fits_i64(step_dec_y(self.dist_start as int, self.dx_start as int, self.dy_start as int, v))
        &&& fits_i64(self.dist_pict + self.dx_pict)
        &&& fits_i64(step_dec_y(self.dist_pict as int, self.dx_pict as int, self.dy_pict as int, v))
        &&& fits_i64(self.dist_end + self.dx_end)
        &&& fits_i64(step_dec_y(self.dist_end as int, self.dx_end as int, self.dy_end as int, v))
    }

    /// Step one pixel in +x, `dy` being the change of the pixel row
    pub fn inc_x_by(&mut self, dy: i64)
        requires
            old(self).inc_x_fits(dy as int),
        ensures
            final(self).same_steps(old(self)),
            final(self).dist == step_inc_x(old(self).dist as int, old(self).dx as int, old(self).dy as int, dy as int),
            final(self).dist_start == step_inc_x(old(self).dist_start as int, old(self).dx_start as int,
                old(self).dy_start as int, dy as int),
            final(self).dist_pict == step_inc_x(old(self).dist_pict as int, old(self).dx_pict as int,
                old(self).dy_pict as int, dy as int),
            final(self).dist_end == step_inc_x(old(self).dist_end as int, old(self).dx_end as int,
                old(self).dy_end as int, dy as int),
    {
        self.dist += self.dy;
        self.dist_start += self.dy_start;
        self.dist_pict += self.dy_pict;
        self.dist_end += self.dy_end;
        if dy > 0 {
            self.dist -= self.dx;
            self.dist_start -= self.dx_start;
            self.dist_pict -= self.dx_pict;
            self.dist_end -= self.dx_end;
        }
        if dy < 0 {
            self.dist += self.dx;
            self.dist_start += self.dx_start;
            self.dist_pict += self.dx_pict;
            self.dist_end += self.dx_end;
        }
    }

    /// Step one pixel in -x, `dy` being the change of the pixel row
    pub fn dec_x_by(&mut self, dy: i64)
        requires
            old(self).dec_x_fits(dy as int),
        ensures
            final(self).same_steps(old(self)),
            final(self).dist == step_dec_x(old(self).dist as int, old(self).dx as int, old(self).dy as int, dy as int),
            final(self).dist_start == step_dec_x(old(self).dist_start as int, old(self).dx_start as int,
                old(self).dy_start as int, dy as int),
            final(self).dist_pict == step_dec_x(old(self).dist_pict as int, old(self).dx_pict as int,
                old(self).dy_pict as int, dy as int),
            final(self).dist_end == step_dec_x(old(self).dist_end as int, old(self).dx_end as int,
                old(self).dy_end as int, dy as int),
    {
        self.dist -= self.dy;
        self.dist_start -= self.dy_start;
        self.dist_pict -= self.dy_pict;
        self.dist_end -= self.dy_end;
        if dy > 0 {
            self.dist -= self.dx;
            self.dist_start -= self.dx_start;
            self.dist_pict -= self.dx_pict;
            self.dist_end -= self.dx_end;
        }
        if dy < 0 {
            self.dist += self.dx;
            self.dist_start += self.dx_start;
            self.dist_pict += self.dx_pict;
            self.dist_end += self.dx_end;
        }
    }

    /// Step one pixel in +y, `dx` being the change of the pixel column
    pub fn inc_y_by(&mut self, dx: i64)
        requires
            old(self).inc_y_fits(dx as int),
        ensures
            final(self).same_steps(old(self)),
            final(self).dist == step_inc_y(old(self).dist as int, old(self).dx as int, old(self).dy as int, dx as int),
            final(self).dist_start == step_inc_y(old(self).dist_start as int, old(self).dx_start as int,
                old(self).dy_start as int, dx as int),
            final(self).dist_pict == step_inc_y(old(self).dist_pict as int, old(self).dx_pict as int,
                old(self).dy_pict as int, dx as int),
            final(self).dist_end == step_inc_y(old(self).dist_end as int, old(self).dx_end as int,
                old(self).dy_end as int, dx as int),
    {
        self.dist -= self.dx;
        self.dist_start -= self.dx_start;
        self.dist_pict -= self.dx_pict;
        self.dist_end -= self.dx_end;
        if dx > 0 {
            self.dist += self.dy;
            self.dist_start += self.dy_start;
            self.dist_pict += self.dy_pict;
            self.dist_end += self.dy_end;
        }
        if dx < 0 {
            self.dist -= self.dy;
            self.dist_start -= self.dy_start;
            self.dist_pict -= self.dy_pict;
            self.dist_end -= self.dy_end;
        }
    }

    /// Step one pixel in -y, `dx` being the change of the pixel column
    pub fn dec_y_by(&mut self, dx: i64)
        requires
            old(self).dec_y_fits(dx as int),
        ensures
            final(self).same_steps(old(self)),
            final(self).dist == step_dec_y(old(self).dist as int, old(self).dx as int, old(self).dy as int, dx as int),
            final(self).dist_start == step_dec_y(old(self).dist_start as int, old(self).dx_start as int,
                old(self).dy_start as int, dx as int),
            final(self).dist_pict == step_dec_y(old(self).dist_pict as int, old(self).dx_pict as int,
                old(self).dy_pict as int, dx as int),
            final(self).dist_end == step_dec_y(old(self).dist_end as int, old(self).dx_end as int,
                old(self).dy_end as int, dx as int),
    {
        self.dist += self.dx;
        self.dist_start += self.dx_start;
        self.dist_pict += self.dx_pict;
        self.dist_end += self.dx_end;
        if dx > 0 {
            self.dist += self.dy;
            self.dist_start += self.dy_start;
            self.dist_pict += self.dy_pict;
            self.dist_end += self.dy_end;
        }
        if dx < 0 {
            self.dist -= self.dy;
            self.dist_start -= self.dy_start;
            self.dist_pict -= self.dy_pict;
            self.dist_end -= self.dy_end;
        }
    }
}

} // verus!

verus! {

use crate::base::RenderingBase;
use crate::color::Rgba8;

/// Aliased Renderer
#[derive(Debug)]
pub struct RenderingScanlineBinSolid<'a, T> {
    pub base: &'a mut RenderingBase<T>,
    pub color: Rgba8,
}

/// Anti-Aliased Renderer
#[derive(Debug)]
pub struct RenderingScanlineAASolid<'a, T> {
    pub base: &'a mut RenderingBase<T>,
    pub color: Rgba8,
}

impl<'a, T: crate::Pixel> RenderingScanlineBinSolid<'a, T> {
    /// Create a new Renderer from a Rendering Base, drawing in black
    pub fn with_base(base: &'a mut RenderingBase<T>) -> (s: Self)
        ensures
            *s.base == *old(base),
            *final(s.base) == *final(base),
            s.color == (Rgba8 { r: 0, g: 0, b: 0, a: 255 }),
    {
        let color = Rgba8::black();
        Self { base, color }
    }

    pub fn as_bytes(&self) -> (r: &[u8])
        ensures
            r@ == old(self.base).pixf.bytes(),
    {
        self.base.as_bytes()
    }
}

} // verus!

verus! {

use crate::pixfmt::Pixfmt;
use crate::Source;
use crate::{POLY_SUBPIXEL_MASK, POLY_SUBPIXEL_SCALE};

/// Bilinear interpolation of four component values at the subpixel
/// fractions `fx`, `fy` (each `0..256`), truncated
pub open spec fn bilinear(c00: int, c10: int, c01: int, c11: int, fx: int, fy: int) -> int {
    ((256 - fx) * (256 - fy) * c00 + fx * (256 - fy) * c10 + (256 - fx) * fy * c01 + fx * fy * c11)
        / 65536
}

/// Filter that reads a pattern at subpixel positions by bilinear interpolation
#[derive(Debug, Default)]
pub struct PatternFilterBilinear();

impl PatternFilterBilinear {
    pub fn new() -> (s: Self) {
        Self()
    }

    /// Pixels the filter reads beyond the one it is asked for
    pub fn dilation(&self) -> (r: u64)
        ensures
            r == 1,
    {
        1
    }

    /// The pixel at (`x`,`y`), in pixels
    pub fn pixel_low_res(&self, pix: &Pixfmt<Rgba8>, x: i64, y: i64) -> (c: Rgba8)
        requires
            crate::Pixel::wf(pix),
            0 <= x < pix.rbuf.width,
            0 <= y < pix.rbuf.height,
        ensures
            c == pix.source_color((x as usize, y as usize)),
    {
        pix.get((x as usize, y as usize))
    }

    /// The color at (`x`,`y`), in subpixels, interpolated between the four
    /// pixels around it
    pub fn pixel_high_res(&self, pix: &Pixfmt<Rgba8>, x: i64, y: i64) -> (c: Rgba8)
        requires
            crate::Pixel::wf(pix),
            0 <= x,
            0 <= y,
            x / 256 + 1 < pix.rbuf.width,
            y / 256 + 1 < pix.rbuf.height,
        ensures
            ({
                let xl = (x / 256) as usize;
                let yl = (y / 256) as usize;
                let fx = (x % 256) as int;
                let fy = (y % 256) as int;
                let p00 = pix.source_color((xl, yl));
                let p10 = pix.source_color(((xl + 1) as usize, yl));
                let p01 = pix.source_color((xl, (yl + 1) as usize));
                let p11 = pix.source_color(((xl + 1) as usize, (yl + 1) as usize));
                &&& c.r == bilinear(p00.r as int, p10.r as int, p01.r as int, p11.r as int, fx, fy)
                &&& c.g == bilinear(p00.g as int, p10.g as int, p01.g as int, p11.g as int, fx, fy)
                &&& c.b == bilinear(p00.b as int, p10.b as int, p01.b as int, p11.b as int, fx, fy)
                &&& c.a == bilinear(p00.a as int, p10.a as int, p01.a as int, p11.a as int, fx, fy)
            }),
    {
        let x_lr: usize = (x / 256) as usize;
        let y_lr: usize = (y / 256) as usize;
        let fx: i64 = x & POLY_SUBPIXEL_MASK;
        let fy: i64 = y & POLY_SUBPIXEL_MASK;
        assert(fx == x % 256 && fy == y % 256) by (bit_vector)
            requires x >= 0, y >= 0, fx == x & 255, fy == y & 255;
        assert(0 <= fx < 256 && 0 <= fy < 256) by (bit_vector)
            requires fx == x & 255, fy == y & 255;

        let p00 = pix.get((x_lr, y_lr));
        let p10 = pix.get((x_lr + 1, y_lr));
        let p01 = pix.get((x_lr, y_lr + 1));
        let p11 = pix.get((x_lr + 1, y_lr + 1));
        assert(0 <= (256 - fx) * (256 - fy) <= 65536 && 0 <= fx * (256 - fy) <= 65536
            && 0 <= (256 - fx) * fy <= 65536 && 0 <= fx * fy <= 65536) by (nonlinear_arith)
            requires 0 <= fx < 256, 0 <= fy < 256;
        let w00: i64 = (POLY_SUBPIXEL_SCALE - fx) * (POLY_SUBPIXEL_SCALE - fy);
        let w10: i64 = fx * (POLY_SUBPIXEL_SCALE - fy);
        let w01: i64 = (POLY_SUBPIXEL_SCALE - fx) * fy;
        let w11: i64 = fx * fy;
        proof {
            assert(0 <= w00 <= 65536 && 0 <= w10 <= 65536 && 0 <= w01 <= 65536 && 0 <= w11 <= 65536
                && w00 + w10 + w01 + w11 == 65536) by (nonlinear_arith)
                requires 0 <= fx < 256, 0 <= fy < 256,
                    w00 == (256 - fx) * (256 - fy), w10 == fx * (256 - fy),
                    w01 == (256 - fx) * fy, w11 == fx * fy;
        }
        let red = mix4(w00, w10, w01, w11, p00.r, p10.r, p01.r, p11.r);
        let green = mix4(w00, w10, w01, w11, p00.g, p10.g, p01.g, p11.g);
        let blue = mix4(w00, w10, w01, w11, p00.b, p10.b, p01.b, p11.b);
        let alpha = mix4(w00, w10, w01, w11, p00.a, p10.a, p01.a, p11.a);
        Rgba8::new(red, green, blue, alpha)
    }
}

/// Weighted sum of four components whose weights sum to `65536`, scaled back
fn mix4(w00: i64, w10: i64, w01: i64, w11: i64, c00: u8, c10: u8, c01: u8, c11: u8) -> (r: u8)
    requires
        0 <= w00 <= 65536, 0 <= w10 <= 65536, 0 <= w01 <= 65536, 0 <= w11 <= 65536,
        w00 + w10 + w01 + w11 == 65536,
    ensures
        r == (w00 * c00 + w10 * c10 + w01 * c01 + w11 * c11) / 65536,
{
    proof {
        assert(0 <= w00 * c00 <= w00 * 255) by (nonlinear_arith) requires 0 <= w00, 0 <= c00 <= 255;
        assert(0 <= w10 * c10 <= w10 * 255) by (nonlinear_arith) requires 0 <= w10, 0 <= c10 <= 255;
        assert(0 <= w01 * c01 <= w01 * 255) by (nonlinear_arith) requires 0 <= w01, 0 <= c01 <= 255;
        assert(0 <= w11 * c11 <= w11 * 255) by (nonlinear_arith) requires 0 <= w11, 0 <= c11 <= 255;
    }
    let mut acc: i64 = 0;
    acc = acc + w00 * (c00 as i64);
    acc = acc + w10 * (c10 as i64);
    acc = acc + w01 * (c01 as i64);
    acc = acc + w11 * (c11 as i64);
    proof { crate::fixed::lemma_shr16(acc); }
    (acc >> 16i64) as u8
}

} // verus!

verus! {

/// An image pattern drawn along lines, with margins of `dilation` pixels
/// around it for the filter to read
#[derive(Debug)]
pub struct LineImagePattern {
    pub pix: Pixfmt<Rgba8>,
    pub filter: PatternFilterBilinear,
    pub dilation: u64,
    pub dilation_hr: i64,
    pub width: u64,
    pub height: u64,
    pub width_hr: i64,
    pub half_height_hr: i64,
    pub offset_y_hr: i64,
}

impl LineImagePattern {
    /// An empty pattern read through `filter`
    pub fn new(filter: PatternFilterBilinear) -> (s: Self)
        ensures
            s.dilation == 2,
            s.dilation_hr == 512,
            s.width == 0 && s.height == 0,
            s.width_hr == 0 && s.half_height_hr == 0 && s.offset_y_hr == 0,
            crate::Pixel::wf(&s.pix),
            s.pix.rbuf.width == 1 && s.pix.rbuf.height == 1,
    {
        let dilation: u64 = filter.dilation() + 1;
        let dilation_hr: i64 = (dilation as i64) << 8i64;
        assert(dilation_hr == 512) by (bit_vector) requires dilation == 2u64, dilation_hr == (dilation as i64) << 8i64;
        Self { filter, dilation, dilation_hr,
               width: 0, height: 0, width_hr: 0,
               half_height_hr: 0, offset_y_hr: 0,
               pix: Pixfmt::<Rgba8>::new(1, 1) }
    }

    /// Width of the pattern, in subpixels
    pub fn pattern_width(&self) -> (r: i64)
        ensures
            r == self.width_hr,
    {
        self.width_hr
    }

    /// Half the height of the pattern, in subpixels, and half a pixel
    pub fn line_width(&self) -> (r: i64)
        ensures
            r == self.half_height_hr,
    {
        self.half_height_hr
    }

    /// Height of the pattern, in pixels
    pub fn width(&self) -> (r: u64)
        ensures
            r == self.height,
    {
        self.height
    }
}

/// The color of pixel (`px`,`py`) of a pattern made from image `src`, `w`
/// by `h` pixels, with margins of `d` pixels: inside the rows of the image,
/// the image's pixel at the column wrapped around its width (the margins
/// repeat the opposite side); transparent black in the margin rows, and
/// everywhere for an empty image
pub open spec fn dilated_color<T: Source>(src: &T, w: int, h: int, d: int, px: int, py: int) -> Rgba8 {
    if d <= py < d + h && w >= 1 {
        src.source_color((((px - d) % w) as usize, (py - d) as usize))
    } else {
        Rgba8 { r: 0, g: 0, b: 0, a: 0 }
    }
}

/// Writing pixel `q` of an image leaves the color of every other pixel
proof fn lemma_set_other(a: &Pixfmt<Rgba8>, b: &Pixfmt<Rgba8>, q: (usize, usize), c: Rgba8, p: (usize, usize))
    requires
        a.wf(),
        q.0 < a.rbuf.width && q.1 < a.rbuf.height,
        p.0 < a.rbuf.width && p.1 < a.rbuf.height,
        b.rbuf.width == a.rbuf.width && b.rbuf.height == a.rbuf.height && b.rbuf.bpp == 4,
        b.rbuf.data@ == crate::buffer::put(a.rbuf.data@,
            crate::buffer::pixel_offset(q.0 as int, q.1 as int, a.rbuf.width as int, 4), seq![c.r, c.g, c.b, c.a]),
    ensures
        b.source_color(p) == (if p == q { c } else { a.source_color(p) }),
{
    crate::buffer::lemma_put_pixel(a.rbuf.data@, a.rbuf.width as int, a.rbuf.height as int, 4,
        q.0 as int, q.1 as int, seq![c.r, c.g, c.b, c.a], p.0 as int, p.1 as int);
}

impl LineImagePattern {
    /// Make the pattern from image `src`: a copy of it with margins of
    /// `dilation` pixels, transparent above and below, repeating the
    /// opposite side of the image left and right
    #[verifier::rlimit(40)]
    pub fn create<T: Source + Pixel>(&mut self, src: &T)
        requires
            src.wf(),
            forall|x: usize, y: usize| x < src.width_spec() && y < src.height_spec()
                ==> #[trigger] src.source_ok((x, y)),
            old(self).dilation <= 0x1_0000,
            old(self).dilation_hr == old(self).dilation * 256,
            (src.width_spec() + 2 * old(self).dilation) * (src.height_spec() + 2 * old(self).dilation) * 4
                <= usize::MAX,
            src.width_spec() + 2 * old(self).dilation <= usize::MAX,
            src.height_spec() + 2 * old(self).dilation <= usize::MAX,
            src.width_spec() * 256 <= i64::MAX,
            src.height_spec() * 256 <= i64::MAX,
        ensures
            final(self).width == src.width_spec(),
            final(self).height == src.height_spec(),
            final(self).width_hr == src.width_spec() * 256,
            final(self).half_height_hr == src.height_spec() * 128 + 128,
            final(self).offset_y_hr == old(self).dilation_hr + src.height_spec() * 128 - 128,
            final(self).dilation == old(self).dilation,
            final(self).dilation_hr == old(self).dilation_hr,
            final(self).filter == old(self).filter,
            final(self).pix.wf(),
            final(self).pix.rbuf.width == src.width_spec() + 2 * old(self).dilation,
            final(self).pix.rbuf.height == src.height_spec() + 2 * old(self).dilation,
            forall|px: usize, py: usize| px < final(self).pix.rbuf.width && py < final(self).pix.rbuf.height
                ==> #[trigger] final(self).pix.source_color((px, py))
                    == dilated_color(src, src.width_spec() as int, src.height_spec() as int,
                        old(self).dilation as int, px as int, py as int),
    {
        let w: usize = src.width();
        let h: usize = src.height();
        let d: usize = self.dilation as usize;
        self.height = h as u64;
        self.width = w as u64;
        self.width_hr = w as i64 * POLY_SUBPIXEL_SCALE;
        self.half_height_hr = h as i64 * POLY_SUBPIXEL_SCALE / 2;
        self.offset_y_hr = self.dilation_hr + self.half_height_hr - POLY_SUBPIXEL_SCALE / 2;
        self.half_height_hr = self.half_height_hr + POLY_SUBPIXEL_SCALE / 2;
        let pw: usize = w + 2 * d;
        let ph: usize = h + 2 * d;
        proof {
            assert(pw * ph <= pw * ph * 4) by (nonlinear_arith) requires pw * ph >= 0;
            assert(0 <= w * d <= pw * ph) by (nonlinear_arith) requires w <= pw, d <= ph, pw == w + 2 * d, ph == h + 2 * d;
        }
        let mut pix = Pixfmt::<Rgba8>::new(pw, ph);
        let none = Rgba8::new(0, 0, 0, 0);
        let mut py: usize = 0;
        while py < ph
            invariant
                pix.wf(),
                pix.rbuf.width == pw && pix.rbuf.height == ph,
                pw == w + 2 * d && ph == h + 2 * d,
                w == src.width_spec() && h == src.height_spec(),
                d == old(self).dilation,
                py <= ph,
                w * d <= pw * ph,
                pw * ph * 4 <= usize::MAX,
                none == (Rgba8 { r: 0, g: 0, b: 0, a: 0 }),
                forall|x: usize, y: usize| x < src.width_spec() && y < src.height_spec()
                    ==> #[trigger] src.source_ok((x, y)),
                forall|qx: usize, qy: usize| qx < pw && qy < py ==> #[trigger] pix.source_color((qx, qy))
                    == dilated_color(src, w as int, h as int, d as int, qx as int, qy as int),
            decreases ph - py,
        {
            let mut px: usize = 0;
            while px < pw
                invariant
                    pix.wf(),
                    pix.rbuf.width == pw && pix.rbuf.height == ph,
                    pw == w + 2 * d && ph == h + 2 * d,
                    w == src.width_spec() && h == src.height_spec(),
                    d == old(self).dilation,
                    py < ph,
                    px <= pw,
                    w * d <= pw * ph,
                    pw * ph * 4 <= usize::MAX,
                    none == (Rgba8 { r: 0, g: 0, b: 0, a: 0 }),
                    forall|x: usize, y: usize| x < src.width_spec() && y < src.height_spec()
                        ==> #[trigger] src.source_ok((x, y)),
                    forall|qx: usize, qy: usize| qx < pw && (qy < py || (qy == py && qx < px))
                        ==> #[trigger] pix.source_color((qx, qy))
                        == dilated_color(src, w as int, h as int, d as int, qx as int, qy as int),
                decreases pw - px,
            {
                let c = if d <= py && py < d + h && w >= 1 {
                    proof {
                        assert(pw <= pw * ph) by (nonlinear_arith) requires ph >= 1, pw >= 0;
                        assert(d <= w * d) by (nonlinear_arith) requires w >= 1, d >= 0;
                    }
                    let t: usize = px + w * d - d;
                    let sx: usize = t % w;
                    proof {
                        vstd::arithmetic::div_mod::lemma_mod_multiples_vanish(d as int, px - d, w as int);
                        assert(w * d == d * w) by (nonlinear_arith);
                    }
                    assert(sx as int == (px - d) % (w as int));
                    src.get((sx, py - d))
                } else {
                    none
                };
                assert(c == dilated_color(src, w as int, h as int, d as int, px as int, py as int));
                let ghost a = pix;
                pix.set((px, py), c);
                proof {
                    assert forall|qx: usize, qy: usize| qx < pw && (qy < py || (qy == py && qx < px + 1))
                        implies #[trigger] pix.source_color((qx, qy))
                        == dilated_color(src, w as int, h as int, d as int, qx as int, qy as int) by {
                        lemma_set_other(&a, &pix, (px, py), c, (qx, qy));
                    }
                }
                px += 1;
            }
            py += 1;
        }
        self.pix = pix;
    }
}

/// The mask of the `k` low bits (`k >= 1`) is the smallest covering `w`
pub open spec fn is_width_mask(k: nat, w: int) -> bool {
    &&& k >= 1
    &&& pow2(k) - 1 >= w
    &&& (k == 1 || pow2((k - 1) as nat) - 1 < w)
}

/// An image pattern whose width in subpixels is rounded up to a power of two
#[derive(Debug)]
pub struct LineImagePatternPow2 {
    pub base: LineImagePattern,
    pub mask: u64,
}

impl LineImagePatternPow2 {
    pub fn new(filter: PatternFilterBilinear) -> (s: Self)
        ensures
            s.base.dilation == 2,
            s.base.dilation_hr == 512,
            s.base.width == 0 && s.base.height == 0,
            s.base.width_hr == 0 && s.base.half_height_hr == 0 && s.base.offset_y_hr == 0,
            crate::Pixel::wf(&s.base.pix),
            s.base.pix.rbuf.width == 1 && s.base.pix.rbuf.height == 1,
            s.mask == 255,
    {
        let base = LineImagePattern::new(filter);
        Self { base, mask: POLY_SUBPIXEL_MASK as u64 }
    }

    /// Make the pattern from image `src`, as `LineImagePattern::create`
    /// does, then round its width up for wrapping: the mask is the
    /// smallest run of low bits, at least one, covering the width in
    /// pixels, moved to subpixels, and the pattern width is one more
    #[verifier::rlimit(40)]
    pub fn create<T: Source + Pixel>(&mut self, src: &T)
        requires
            src.wf(),
            forall|x: usize, y: usize| x < src.width_spec() && y < src.height_spec()
                ==> #[trigger] src.source_ok((x, y)),
            old(self).base.dilation <= 0x1_0000,
            old(self).base.dilation_hr == old(self).base.dilation * 256,
            (src.width_spec() + 2 * old(self).base.dilation) * (src.height_spec() + 2 * old(self).base.dilation) * 4
                <= usize::MAX,
            src.width_spec() + 2 * old(self).base.dilation <= usize::MAX,
            src.height_spec() + 2 * old(self).base.dilation <= usize::MAX,
            src.width_spec() <= 0x100_0000_0000,
            src.height_spec() * 256 <= i64::MAX,
        ensures
            final(self).base.width == src.width_spec(),
            final(self).base.height == src.height_spec(),
            final(self).base.half_height_hr == src.height_spec() * 128 + 128,
            final(self).base.offset_y_hr == old(self).base.dilation_hr + src.height_spec() * 128 - 128,
            final(self).base.dilation == old(self).base.dilation,
            final(self).base.dilation_hr == old(self).base.dilation_hr,
            final(self).base.filter == old(self).base.filter,
            final(self).base.pix.wf(),
            final(self).base.pix.rbuf.width == src.width_spec() + 2 * old(self).base.dilation,
            final(self).base.pix.rbuf.height == src.height_spec() + 2 * old(self).base.dilation,
            forall|px: usize, py: usize| px < final(self).base.pix.rbuf.width && py < final(self).base.pix.rbuf.height
                ==> #[trigger] final(self).base.pix.source_color((px, py))
                    == dilated_color(src, src.width_spec() as int, src.height_spec() as int,
                        old(self).base.dilation as int, px as int, py as int),
            exists|k: nat| #[trigger] is_width_mask(k, src.width_spec() as int)
                && final(self).mask == pow2(k + 7) - 1,
            final(self).base.width_hr == final(self).mask + 1,
    {
        self.base.create(src);
        let ghost w = src.width_spec() as int;
        let mut mask: u64 = 1;
        let ghost mut k: nat = 1;
        proof { vstd::arithmetic::power2::lemma2_to64(); }
        while mask < self.base.width
            invariant
                k >= 1,
                mask == pow2(k) - 1,
                mask % 2 == 1,
                k == 1 || pow2((k - 1) as nat) - 1 < w,
                self.base.width == w,
                w <= 0x100_0000_0000,
                mask <= 0x200_0000_0000,
            decreases 0x400_0000_0000 - mask,
        {
            proof { vstd::arithmetic::power2::lemma_pow2_unfold(k + 1); }
            let m0 = mask;
            assert((m0 << 1u64) | 1u64 == 2 * m0 + 1) by (bit_vector) requires m0 <= 0x200_0000_0000;
            mask = mask << 1u64;
            mask = mask | 1u64;
            proof { k = k + 1; }
        }
        proof {
            assert(is_width_mask(k, w));
            vstd::arithmetic::power2::lemma_pow2_adds(k, 7);
        }
        let m = mask;
        assert((m << 7u64) | 255u64 == m * 128 + 127) by (bit_vector) requires m % 2 == 1, m <= 0x200_0000_0000;
        self.mask = (mask << 7u64) | 255u64;
        assert(self.mask == pow2(k + 7) - 1);
        self.base.width_hr = (self.mask + 1) as i64;
    }

    pub fn pattern_width(&self) -> (r: i64)
        ensures
            r == self.base.width_hr,
    {
        self.base.width_hr
    }

    pub fn line_width(&self) -> (r: i64)
        ensures
            r == self.base.half_height_hr,
    {
        self.base.half_height_hr
    }

    pub fn width(&self) -> (r: u64)
        ensures
            r == self.base.height,
    {
        self.base.height
    }

    /// The pattern's color at (`x`,`y`) in subpixels, `x` wrapping around
    /// the pattern's width
    pub fn pixel(&self, x: i64, y: i64) -> (c: Rgba8)
        requires
            crate::Pixel::wf(&self.base.pix),
            self.mask <= i64::MAX,
            ({
                let px = (x & (self.mask as i64)) + self.base.dilation_hr;
                let py = y + self.base.offset_y_hr;
                &&& fits_i64(px)
                &&& fits_i64(py)
                &&& 0 <= px && 0 <= py
                &&& px / 256 + 1 < self.base.pix.rbuf.width
                &&& py / 256 + 1 < self.base.pix.rbuf.height
            }),
        ensures
            ({
                let px = (x & (self.mask as i64)) + self.base.dilation_hr;
                let py = y + self.base.offset_y_hr;
                let xl = (px / 256) as usize;
                let yl = (py / 256) as usize;
                let fx = (px % 256) as int;
                let fy = (py % 256) as int;
                let p00 = self.base.pix.source_color((xl, yl));
                let p10 = self.base.pix.source_color(((xl + 1) as usize, yl));
                let p01 = self.base.pix.source_color((xl, (yl + 1) as usize));
                let p11 = self.base.pix.source_color(((xl + 1) as usize, (yl + 1) as usize));
                &&& c.r == bilinear(p00.r as int, p10.r as int, p01.r as int, p11.r as int, fx, fy)
                &&& c.g == bilinear(p00.g as int, p10.g as int, p01.g as int, p11.g as int, fx, fy)
                &&& c.b == bilinear(p00.b as int, p10.b as int, p01.b as int, p11.b as int, fx, fy)
                &&& c.a == bilinear(p00.a as int, p10.a as int, p01.a as int, p11.a as int, fx, fy)
            }),
    {
        self.base.filter.pixel_high_res(&self.base.pix,
                                        (x & self.mask as i64) + self.base.dilation_hr,
                                        y + self.base.offset_y_hr)
    }
}

} // verus!

verus! {

use crate::base::{hline_done, solid_hspan_done};
use crate::{Pixel, Color};
use crate::scan::ScanlineU8;

/// The last pixel of a span, whose length counts in magnitude
pub open spec fn span_last(x: i64, len: i64) -> int {
    x - 1 + crate::fixed::iabs(len as int)
}

/// Render a single Scanline (y-row) without Anti-Aliasing: each span is
/// drawn with `color` at full cover, one after the other
pub fn render_scanline_bin_solid<T: Pixel, C: Color>(sl: &ScanlineU8, ren: &mut RenderingBase<T>,
                                                     color: C)
    requires
        old(ren).wf(),
        forall|k: int| 0 <= k < sl.spans@.len() ==> {
            &&& (#[trigger] sl.spans@[k]).len != i64::MIN
            &&& sl.spans@[k].x != i64::MIN
            &&& fits_i64(span_last(sl.spans@[k].x, sl.spans@[k].len))
        },
    ensures
        exists|st: Seq<RenderingBase<T>>| {
            &&& st.len() == sl.spans@.len() + 1
            &&& st[0] == *old(ren)
            &&& st[st.len() - 1] == *final(ren)
            &&& forall|k: int| 0 <= k < sl.spans@.len() ==> #[trigger] hline_done(&st[k], &st[k + 1],
                sl.spans@[k].x as int, sl.y as int, span_last(sl.spans@[k].x, sl.spans@[k].len),
                color, 255)
        },
{
    let cover_full: u64 = 255;
    let ghost mut st: Seq<RenderingBase<T>> = seq![*ren];
    let n = sl.spans.len();
    let mut i: usize = 0;
    while i < n
        invariant
            0 <= i <= n,
            n == sl.spans@.len(),
            cover_full == 255,
            st.len() == i + 1,
            st[0] == *old(ren),
            st[i as int] == *ren,
            ren.wf(),
            forall|k: int| 0 <= k < sl.spans@.len() ==> {
                &&& (#[trigger] sl.spans@[k]).len != i64::MIN
                &&& sl.spans@[k].x != i64::MIN
                &&& fits_i64(span_last(sl.spans@[k].x, sl.spans@[k].len))
            },
            forall|k: int| 0 <= k < i ==> #[trigger] hline_done(&st[k], &st[k + 1],
                sl.spans@[k].x as int, sl.y as int, span_last(sl.spans@[k].x, sl.spans@[k].len),
                color, 255),
        decreases n - i,
    {
        let span = &sl.spans[i];
        let alen: i64 = if span.len < 0 { -span.len } else { span.len };
        assert(sl.spans@[i as int] == *span);
        ren.blend_hline(span.x, sl.y, span.x - 1 + alen, color, cover_full);
        proof {
            let st0 = st;
            st = st.push(*ren);
            assert forall|k: int| 0 <= k < i + 1 implies #[trigger] hline_done(&st[k], &st[k + 1],
                sl.spans@[k].x as int, sl.y as int, span_last(sl.spans@[k].x, sl.spans@[k].len),
                color, 255) by {
                if k < i {
                    assert(st[k] == st0[k] && st[k + 1] == st0[k + 1]);
                }
            }
        }
        i += 1;
    }
}

} // verus!

verus! {

use crate::base::{clip_run, clip_fits};

/// A span of an anti-aliased scanline can be drawn on an image of `w` by
/// `h` pixels: a positive length selects its covers, else its first cover
/// runs over the magnitude of the length
pub open spec fn aa_span_ok(s: crate::scan::Span, y: i64, w: int, h: int) -> bool {
    if s.len > 0 {
        &&& clip_fits(s.x as int, s.len as int)
        &&& ({
            let (draw, x1, n, off) = clip_run(s.x as int, s.len as int, w - 1);
            0 <= y < h && draw ==> 0 <= n && off + n <= s.covers@.len()
        })
    } else {
        &&& s.covers@.len() > 0
        &&& fits_i64(s.x - s.len)
        &&& fits_i64(s.x - s.len - 1)
    }
}

/// What drawing one span of an anti-aliased scanline does to an image
pub open spec fn aa_span_done<T: Pixel, C: Color>(a: &RenderingBase<T>, b: &RenderingBase<T>,
                                                  s: crate::scan::Span, y: i64, color: C) -> bool {
    if s.len > 0 {
        solid_hspan_done(a, b, s.x as int, y as int, s.len as int, color, s.covers@)
    } else {
        hline_done(a, b, s.x as int, y as int, s.x - s.len - 1, color, s.covers@[0])
    }
}

/// Render a single Scanline (y-row) with Anti Aliasing: each span is drawn
/// with `color`, one after the other
pub fn render_scanline_aa_solid<T: Pixel, C: Color>(sl: &ScanlineU8, ren: &mut RenderingBase<T>,
                                                    color: C)
    requires
        old(ren).wf(),
        forall|k: int| 0 <= k < sl.spans@.len() ==> aa_span_ok(#[trigger] sl.spans@[k], sl.y,
            old(ren).pixf.width_spec() as int, old(ren).pixf.height_spec() as int),
    ensures
        exists|st: Seq<RenderingBase<T>>| {
            &&& st.len() == sl.spans@.len() + 1
            &&& st[0] == *old(ren)
            &&& st[st.len() - 1] == *final(ren)
            &&& forall|k: int| 0 <= k < sl.spans@.len() ==>
                #[trigger] aa_span_done(&st[k], &st[k + 1], sl.spans@[k], sl.y, color)
        },
{
    let y = sl.y;
    let ghost mut st: Seq<RenderingBase<T>> = seq![*ren];
    let n = sl.spans.len();
    let mut i: usize = 0;
    while i < n
        invariant
            0 <= i <= n,
            n == sl.spans@.len(),
            y == sl.y,
            st.len() == i + 1,
            st[0] == *old(ren),
            st[i as int] == *ren,
            ren.wf(),
            ren.pixf.width_spec() == old(ren).pixf.width_spec(),
            ren.pixf.height_spec() == old(ren).pixf.height_spec(),
            forall|k: int| 0 <= k < sl.spans@.len() ==> aa_span_ok(#[trigger] sl.spans@[k], sl.y,
                old(ren).pixf.width_spec() as int, old(ren).pixf.height_spec() as int),
            forall|k: int| 0 <= k < i ==>
                #[trigger] aa_span_done(&st[k], &st[k + 1], sl.spans@[k], sl.y, color),
        decreases n - i,
    {
        let span = &sl.spans[i];
        assert(sl.spans@[i as int] == *span);
        assert(aa_span_ok(*span, sl.y, old(ren).pixf.width_spec() as int, old(ren).pixf.height_spec() as int));
        let x = span.x;
        if span.len > 0 {
            ren.blend_solid_hspan(x, y, span.len, color, span.covers.as_slice());
        } else {
            ren.blend_hline(x, y, x - span.len - 1, color, span.covers[0]);
        }
        proof {
            let st0 = st;
            st = st.push(*ren);
            assert forall|k: int| 0 <= k < i + 1 implies
                #[trigger] aa_span_done(&st[k], &st[k + 1], sl.spans@[k], sl.y, color) by {
                if k < i {
                    assert(st[k] == st0[k] && st[k + 1] == st0[k + 1]);
                }
            }
        }
        i += 1;
    }
}

} // verus!

verus! {

/// Render scanlines to Image
pub trait Render {
    /// The scanline of `data` can be drawn
    spec fn render_ok(&self, data: &RenderData) -> bool;

    /// `after` is this renderer after drawing the scanline of `data`
    spec fn rendered(&self, after: &Self, data: &RenderData) -> bool;

    /// The current color's components
    spec fn current_color(&self) -> (u8, u8, u8, u8);

    /// Render a single scanline to the image
    fn render(&mut self, data: &RenderData)
        requires
            old(self).render_ok(data),
        ensures
            old(self).rendered(final(self), data),
    ;

    /// Set the Color of the Renderer
    fn color<C: Color>(&mut self, color: &C)
        ensures
            final(self).current_color() == color.rgba(),
    ;

    /// Prepare the Renderer
    fn prepare(&self) {
    }
}

impl<T: Pixel> Render for RenderingScanlineAASolid<'_, T> {
    open spec fn render_ok(&self, data: &RenderData) -> bool {
        &&& self.base.wf()
        &&& forall|k: int| 0 <= k < data.sl.spans@.len() ==> aa_span_ok(#[trigger] data.sl.spans@[k],
            data.sl.y, self.base.pixf.width_spec() as int, self.base.pixf.height_spec() as int)
    }

    open spec fn rendered(&self, after: &Self, data: &RenderData) -> bool {
        &&& after.color == self.color
        &&& exists|st: Seq<RenderingBase<T>>| {
            &&& st.len() == data.sl.spans@.len() + 1
            &&& st[0] == *self.base
            &&& st[st.len() - 1] == *after.base
            &&& forall|k: int| 0 <= k < data.sl.spans@.len() ==>
                #[trigger] aa_span_done(&st[k], &st[k + 1], data.sl.spans@[k], data.sl.y, self.color)
        }
    }

    open spec fn current_color(&self) -> (u8, u8, u8, u8) {
        self.color.rgba()
    }

    /// Render a single Scanline Row
    fn render(&mut self, data: &RenderData) {
        let color = self.color;
        render_scanline_aa_solid(&data.sl, self.base, color);
    }

    /// Set the current color
    fn color<C: Color>(&mut self, color: &C) {
        self.color = Rgba8::new(color.red8(), color.green8(), color.blue8(), color.alpha8());
    }
}

impl<T: Pixel> Render for RenderingScanlineBinSolid<'_, T> {
    open spec fn render_ok(&self, data: &RenderData) -> bool {
        &&& self.base.wf()
        &&& forall|k: int| 0 <= k < data.sl.spans@.len() ==> {
            &&& (#[trigger] data.sl.spans@[k]).len != i64::MIN
            &&& data.sl.spans@[k].x != i64::MIN
            &&& fits_i64(span_last(data.sl.spans@[k].x, data.sl.spans@[k].len))
        }
    }

    open spec fn rendered(&self, after: &Self, data: &RenderData) -> bool {
        &&& after.color == self.color
        &&& exists|st: Seq<RenderingBase<T>>| {
            &&& st.len() == data.sl.spans@.len() + 1
            &&& st[0] == *self.base
            &&& st[st.len() - 1] == *after.base
            &&& forall|k: int| 0 <= k < data.sl.spans@.len() ==> #[trigger] hline_done(&st[k], &st[k + 1],
                data.sl.spans@[k].x as int, data.sl.y as int,
                span_last(data.sl.spans@[k].x, data.sl.spans@[k].len), self.color, 255)
        }
    }

    open spec fn current_color(&self) -> (u8, u8, u8, u8) {
        self.color.rgba()
    }

    /// Render a single Scanline Row
    fn render(&mut self, data: &RenderData) {
        let color = self.color;
        render_scanline_bin_solid(&data.sl, self.base, color);
    }

    /// Set the current Color
    fn color<C: Color>(&mut self, color: &C) {
        self.color = Rgba8::new(color.red8(), color.green8(), color.blue8(), color.alpha8());
    }
}

impl<'a, T: crate::Pixel> RenderingScanlineAASolid<'a, T> {
    /// Create a new Renderer from a Rendering Base, drawing in black
    pub fn with_base(base: &'a mut RenderingBase<T>) -> (s: Self)
        ensures
            *s.base == *old(base),
            *final(s.base) == *final(base),
            s.color == (Rgba8 { r: 0, g: 0, b: 0, a: 255 }),
    {
        let color = Rgba8::black();
        Self { base, color }
    }

    pub fn as_bytes(&self) -> (r: &[u8])
        ensures
            r@ == old(self.base).pixf.bytes(),
    {
        self.base.as_bytes()
    }
}

} // verus!
