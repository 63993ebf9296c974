//! Round caps and round joins of the anti-aliased outline renderer

use vstd::prelude::*;
use crate::{Pixel, RenderOutline, in_aux};
use crate::base::{RenderingBase, solid_hspan_done};
use crate::color::Rgba8;
use crate::line_interp::{mr, mr_cross, DistanceInterpolator0, DistanceInterpolator00};
use crate::outline_aa::{RendererOutlineAA, EllipseInterpolator, ellipse_f, lemma_ellipse_step};

verus! {

/// `r` is the floor of the square root of `n`
pub open spec fn is_floor_sqrt(n: int, r: int) -> bool {
    0 <= r && r * r <= n < (r + 1) * (r + 1)
}

/// The floor of the square root of `n`
pub open spec fn floor_sqrt(n: int) -> int {
    choose|r: int| #[trigger] is_floor_sqrt(n, r)
}

/// Largest value whose square root `isqrt` takes
pub const SQRT_LIMIT: i64 = 0x10_0000_0000_0000;

/// The square root `r` of `n` is the only one
pub proof fn lemma_floor_sqrt(n: int, r: int)
    requires
        0 <= r,
        r * r <= n < (r + 1) * (r + 1),
    ensures
        floor_sqrt(n) == r,
{
    assert(is_floor_sqrt(n, r));
    let c = floor_sqrt(n);
    assert(0 <= c && c * c <= n < (c + 1) * (c + 1));
    if c < r {
        assert((c + 1) * (c + 1) <= r * r) by (nonlinear_arith) requires 0 <= c, c + 1 <= r;
    }
    if r < c {
        assert((r + 1) * (r + 1) <= c * c) by (nonlinear_arith) requires 0 <= r, r + 1 <= c;
    }
}

/// The integer square root of `n`: the floor of its real square root, as
/// the floating-point square root truncated gives it for every `n` below
/// 2^52
pub fn isqrt(n: i64) -> (r: i64)
    requires
        0 <= n <= SQRT_LIMIT,
    ensures
        r == floor_sqrt(n as int),
        0 <= r <= 0x400_0000,
{
    let mut lo: i64 = 0;
    let mut hi: i64 = 0x400_0001;
    assert(n < hi * hi) by (nonlinear_arith) requires n <= SQRT_LIMIT, hi == 0x400_0001;
    while hi - lo > 1
        invariant
            0 <= lo < hi <= 0x400_0001,
            lo * lo <= n < hi * hi,
        decreases hi - lo,
    {
        let mid: i64 = lo + (hi - lo) / 2;
        assert(mid * mid <= 0x400_0001 * 0x400_0001) by (nonlinear_arith) requires 0 <= mid <= 0x400_0001;
        if mid * mid <= n {
            lo = mid;
        } else {
            hi = mid;
        }
    }
    proof { lemma_floor_sqrt(n as int, lo as int); }
    lo
}

/// A half disc or a pie slice: `(pie, start, xc, yc, x1, y1, x2, y2)`.
/// A half disc (not `pie`) is centered on (`xc`,`yc`) and lies on the side
/// of the line from there to (`x1`,`y1`) that `start` names; a pie slice is
/// centered on (`xc`,`yc`) between the lines toward (`x1`,`y1`) and
/// (`x2`,`y2`)
pub type DotShape = (bool, bool, i64, i64, i64, i64, i64, i64);

/// Medium resolution distance of the pixel `i` places right of (`x`,`y`)
/// from the line from (`xa`,`ya`) through (`xb`,`yb`)
pub open spec fn dot_dist(xa: int, ya: int, xb: int, yb: int, x: int, y: int, i: int) -> int {
    mr_cross(x * 256, y * 256, xb, yb, mr(xb) - mr(xa), mr(yb) - mr(ya)) + i * ((mr(yb) - mr(ya)) * 16)
}

/// The pixel `i` places right of (`x`,`y`) lies inside `shape`'s sides
pub open spec fn dot_inside(shape: DotShape, x: int, y: int, i: int) -> bool {
    let (pie, start, xc, yc, x1, y1, x2, y2) = shape;
    if pie {
        dot_dist(xc as int, yc as int, x1 as int, y1 as int, x, y, i) <= 0
            && dot_dist(xc as int, yc as int, x2 as int, y2 as int, x, y, i) > 0
    } else {
        let d = dot_dist(xc as int, yc as int, x1 as int, y1 as int, x, y, i);
        if start { d > 0 } else { d <= 0 }
    }
}

/// The coverage of the pixel `i` places right of (`x`,`y`) in `shape`, for
/// a line `w` wide with line profile `p`: the profile at its distance from
/// the center if inside the sides and the width, else none
pub open spec fn dot_cover(shape: DotShape, p: Seq<u8>, w: int, x: int, y: int, i: int) -> u64 {
    let dx = (x + i) * 256 + 128 - shape.2;
    let dy = y * 256 + 128 - shape.3;
    let d = floor_sqrt(dx * dx + dy * dy);
    if dot_inside(shape, x, y, i) && d <= w { p[d + 512] as u64 } else { 0 }
}

/// Image `after` is image `before` after the row of `shape` from column
/// `x1` to `x2` on row `y` is drawn in color `c`
pub open spec fn dot_row_drawn<T: Pixel>(shape: DotShape, p: Seq<u8>, w: int, c: Rgba8, x1: int, y: int, x2: int,
                                         before: RenderingBase<T>, after: RenderingBase<T>) -> bool {
    exists|cv: Seq<u64>| {
        &&& cv.len() == 132
        &&& forall|i: int| 0 <= i <= x2 - x1 ==> #[trigger] cv[i] == dot_cover(shape, p, w, x1, y, i)
        &&& #[trigger] solid_hspan_done(&before, &after, x1, y, x2 - x1 + 1, c, cv)
    }
}

/// The row from column `x1` to `x2` on row `y` is near the center of
/// `shape`, whose points are in range
pub open spec fn dot_row_ok(shape: DotShape, x1: int, y: int, x2: int) -> bool {
    &&& in_aux(shape.2 as int) && in_aux(shape.3 as int)
    &&& in_aux(shape.4 as int) && in_aux(shape.5 as int)
    &&& in_aux(shape.6 as int) && in_aux(shape.7 as int)
    &&& in_aux(x1 * 256 + 128) && in_aux(y * 256 + 128)
    &&& x1 <= x2 < x1 + 132
    &&& -0x10_0000 <= x1 * 256 + 128 - shape.2 <= 0x10_0000
    &&& -0x10_0000 <= y * 256 + 128 - shape.3 <= 0x10_0000
}


/// A distance of a pixel near the center stays far inside the 64-bit range
proof fn lemma_dot_dist_bound(xa: int, ya: int, xb: int, yb: int, x: int, y: int)
    requires
        in_aux(xa), in_aux(ya), in_aux(xb), in_aux(yb), in_aux(x * 256 + 128), in_aux(y * 256 + 128),
    ensures
        -0x1_0000_0000_0000 <= dot_dist(xa, ya, xb, yb, x, y, 0) <= 0x1_0000_0000_0000,
        -0x1000_0000 <= (mr(yb) - mr(ya)) * 16 <= 0x1000_0000,
{
    crate::line_interp::lemma_mr(xa);
    crate::line_interp::lemma_mr(ya);
    crate::line_interp::lemma_mr(xb);
    crate::line_interp::lemma_mr(yb);
    crate::line_interp::lemma_mr(x * 256 + 128);
    crate::line_interp::lemma_mr(y * 256 + 128);
    crate::fixed::lemma_mul_bound(mr(x * 256 + 128) - mr(xb), mr(yb) - mr(ya), 0x80_0000, 0x80_0000);
    crate::fixed::lemma_mul_bound(mr(y * 256 + 128) - mr(yb), mr(xb) - mr(xa), 0x80_0000, 0x80_0000);
}

impl<'a, T: Pixel> RendererOutlineAA<'a, T> {
    /// Draw the row of `shape` from column `xh1` to `xh2` on row `yh`: each
    /// pixel covered by the line profile at its distance from the center,
    /// if inside the sides of the shape and the line width
    #[verifier::rlimit(40)]
    fn dot_hline(&mut self, pie: bool, start: bool, xc: i64, yc: i64, xa: i64, ya: i64, xb: i64, yb: i64,
                 xh1: i64, yh: i64, xh2: i64)
        requires
            old(self).ren.wf(),
            dot_row_ok((pie, start, xc, yc, xa, ya, xb, yb), xh1 as int, yh as int, xh2 as int),
            0 <= old(self).subpixel_width,
            old(self).subpixel_width + 512 < old(self).profile@.len(),
        ensures
            final(self).ren.wf(),
            final(self).color == old(self).color,
            final(self).profile@ == old(self).profile@,
            final(self).subpixel_width == old(self).subpixel_width,
            dot_row_drawn((pie, start, xc, yc, xa, ya, xb, yb), old(self).profile@, old(self).subpixel_width as int,
                old(self).color, xh1 as int, yh as int, xh2 as int, *old(self).ren, *final(self).ren),
    {
        let ghost shape: DotShape = (pie, start, xc, yc, xa, ya, xb, yb);
        let ghost p = self.profile@;
        let w = self.subpixel_width;
        let x: i64 = xh1 * 256;
        let y: i64 = yh * 256;
        let mut dist1: i64;
        let dy1: i64;
        let mut dist2: i64;
        let dy2: i64;
        proof {
            lemma_dot_dist_bound(xc as int, yc as int, xa as int, ya as int, xh1 as int, yh as int);
            lemma_dot_dist_bound(xc as int, yc as int, xb as int, yb as int, xh1 as int, yh as int);
        }
        if pie {
            let di = DistanceInterpolator00::new(xc, yc, xa, ya, xb, yb, x, y);
            dist1 = di.dist1;
            dy1 = di.dy1;
            dist2 = di.dist2;
            dy2 = di.dy2;
        } else {
            let di = DistanceInterpolator0::new(xc, yc, xa, ya, x, y);
            dist1 = di.dist;
            dy1 = di.dy;
            dist2 = 0;
            dy2 = 0;
        }
        let ghost d10 = dist1 as int;
        let ghost d20 = dist2 as int;
        assert(d10 == dot_dist(xc as int, yc as int, xa as int, ya as int, xh1 as int, yh as int, 0));
        assert(pie ==> d20 == dot_dist(xc as int, yc as int, xb as int, yb as int, xh1 as int, yh as int, 0));
        let mut covers: Vec<u64> = vec![0u64; 132];
        let mut i: usize = 0;
        let mut xi: i64 = xh1;
        let mut dx: i64 = x + 128 - xc;
        let dy: i64 = y + 128 - yc;
        loop
            invariant_except_break
                xi <= xh2,
            invariant
                0 <= i <= 132,
                xi == xh1 + i,
                xh1 <= xh2 < xh1 + 132,
                dx == (xh1 + i) * 256 + 128 - xc,
                dy == yh * 256 + 128 - yc,
                -0x10_0000 <= xh1 * 256 + 128 - xc <= 0x10_0000,
                -0x10_0000 <= dy <= 0x10_0000,
                dist1 == d10 + i * dy1,
                dist2 == d20 + i * dy2,
                -0x1_0000_0000_0000 <= d10 <= 0x1_0000_0000_0000,
                -0x1_0000_0000_0000 <= d20 <= 0x1_0000_0000_0000,
                -0x1000_0000 <= dy1 <= 0x1000_0000,
                -0x1000_0000 <= dy2 <= 0x1000_0000,
                d10 == dot_dist(xc as int, yc as int, xa as int, ya as int, xh1 as int, yh as int, 0),
                dy1 == (mr(ya as int) - mr(yc as int)) * 16,
                pie ==> d20 == dot_dist(xc as int, yc as int, xb as int, yb as int, xh1 as int, yh as int, 0),
                pie ==> dy2 == (mr(yb as int) - mr(yc as int)) * 16,
                covers@.len() == 132,
                forall|j: int| 0 <= j < i ==> #[trigger] covers@[j] == dot_cover(shape, p, w as int, xh1 as int, yh as int, j),
                w == self.subpixel_width,
                p == self.profile@,
                0 <= w,
                w + 512 < p.len(),
                shape == (pie, start, xc, yc, xa, ya, xb, yb),
            ensures
                i == xh2 - xh1 + 1,
            decreases xh2 - xi,
        {
            assert(i < 132);
            assert(-0x20_0000 <= dx <= 0x20_0000);
            assert(0 <= dx * dx <= 0x400_0000_0000) by (nonlinear_arith)
                requires -0x20_0000 <= dx <= 0x20_0000;
            assert(0 <= dy * dy <= 0x100_0000_0000) by (nonlinear_arith)
                requires -0x10_0000 <= dy <= 0x10_0000;
            let d = isqrt(dx * dx + dy * dy);
            assert(dist1 == dot_dist(xc as int, yc as int, xa as int, ya as int, xh1 as int, yh as int, i as int)) by (nonlinear_arith)
                requires dist1 == d10 + i * dy1, d10 == dot_dist(xc as int, yc as int, xa as int, ya as int, xh1 as int, yh as int, 0),
                    dy1 == (mr(ya as int) - mr(yc as int)) * 16;
            assert(pie ==> dist2 == dot_dist(xc as int, yc as int, xb as int, yb as int, xh1 as int, yh as int, i as int)) by (nonlinear_arith)
                requires dist2 == d20 + i * dy2, pie ==> d20 == dot_dist(xc as int, yc as int, xb as int, yb as int, xh1 as int, yh as int, 0),
                    pie ==> dy2 == (mr(yb as int) - mr(yc as int)) * 16;
            let inside = if pie { dist1 <= 0 && dist2 > 0 } else if start { dist1 > 0 } else { dist1 <= 0 };
            assert(inside == dot_inside(shape, xh1 as int, yh as int, i as int));
            assert(dx == (xh1 + i) * 256 + 128 - xc);
            let c: u64 = if inside && d <= w { self.cover(d) } else { 0 };
            assert(c == dot_cover(shape, p, w as int, xh1 as int, yh as int, i as int));
            covers.set(i, c);
            proof {
                crate::fixed::lemma_mul_bound(i as int, dy1 as int, 132, 0x1000_0000);
                crate::fixed::lemma_mul_bound(i as int, dy2 as int, 132, 0x1000_0000);
                assert((i + 1) * dy1 == i * dy1 + dy1) by (nonlinear_arith);
                assert((i + 1) * dy2 == i * dy2 + dy2) by (nonlinear_arith);
            }
            i += 1;
            dx += 256;
            dist1 += dy1;
            dist2 += dy2;
            xi += 1;
            if xi > xh2 {
                break;
            }
        }
        let ghost before = *self.ren;
        proof { self.lemma_spans_drawable(); }
        self.blend_solid_hspan(xh1, yh, i as i64, covers.as_slice());
        assert(solid_hspan_done(&before, &*self.ren, xh1 as int, yh as int, xh2 - xh1 + 1, self.color, covers@));
    }
}


/// `n` is ellipse interpolator `e` after one `inc`
pub open spec fn ellipse_next(e: EllipseInterpolator, n: EllipseInterpolator) -> bool {
    &&& (n.dx as int, n.dy as int) == e.next_move()
    &&& n.rx2 == e.rx2
    &&& n.ry2 == e.ry2
    &&& n.two_rx2 == e.two_rx2
    &&& n.two_ry2 == e.two_ry2
    &&& n.inc_x == e.inc_x + n.dx * e.two_ry2
    &&& n.inc_y == e.inc_y + n.dy * e.two_rx2
    &&& n.cur_f == (if n.dx == 1 && n.dy == 1 { e.f_xy() } else if n.dx == 1 { e.f_x() } else { e.f_y() })
}

/// The state of the walk around a round dot: the ellipse interpolator and
/// the offsets of the current row end from the center
pub type DotState = (EllipseInterpolator, i64, i64);

/// `b` is `a` after one step of the walk
pub open spec fn dot_next(a: DotState, b: DotState) -> bool {
    &&& b.1 == a.1 + a.0.dx
    &&& b.2 == a.2 + a.0.dy
    &&& ellipse_next(a.0, b.0)
}

/// The radius in pixels of the dots of a line `w` subpixels wide
pub open spec fn dot_radius(w: i64) -> int {
    let r = (w + 255) / 256;
    if r < 1 { 1 } else { r }
}

/// `ws` are the states of the walk around a dot of radius `r` from its top,
/// one step apart
pub open spec fn dot_walk(r: int, ws: Seq<DotState>) -> bool {
    &&& ws.len() >= 1
    &&& ws[0] == (EllipseInterpolator::at(r, r, 0, 0, 0, 0), 0i64, (-r) as i64)
    &&& forall|k: int| 0 <= k < ws.len() - 1 ==> #[trigger] dot_next(ws[k], ws[k + 1])
}

/// A step of the walk from `a` can be taken and its rows drawn
pub open spec fn dot_pre(a: DotState) -> bool {
    &&& a.0.steppable()
    &&& 0 <= a.1 <= 64
    &&& -65 <= a.2 <= 0
    &&& 0 <= a.0.dx <= 1
    &&& 0 <= a.0.dy <= 1
    &&& a.0.two_rx2 >= 2
    &&& a.0.two_ry2 >= 2
}

/// Every state of the walk around a dot of radius `r` above its middle
/// row allows the next step
pub open spec fn dot_walk_ok(r: int) -> bool {
    forall|ws: Seq<DotState>| #[trigger] dot_walk(r, ws)
        && (forall|k: int| 0 <= k < ws.len() ==> (#[trigger] ws[k]).2 < 0) ==> dot_pre(ws.last())
}

/// Image `after` is image `before` after the step of the walk from `a` to
/// `b` around center pixel (`x`,`y`): where the step leaves the row, the
/// rows at `a`'s offsets above and below the center are drawn
pub open spec fn dot_iter_drawn<T: Pixel>(shape: DotShape, p: Seq<u8>, w: int, c: Rgba8, x: int, y: int,
                                          a: DotState, b: DotState, before: RenderingBase<T>,
                                          after: RenderingBase<T>) -> bool {
    if b.2 != a.2 {
        exists|mid: RenderingBase<T>| {
            &&& #[trigger] dot_row_drawn(shape, p, w, c, x - a.1, y + a.2, x + a.1, before, mid)
            &&& dot_row_drawn(shape, p, w, c, x - a.1, y - a.2, x + a.1, mid, after)
        }
    } else {
        after == before
    }
}

/// Image `after` is image `before` after `shape` is drawn in color `c`
/// with line profile `p` for a line `w` wide: walking the circle of the
/// dot radius from its top to its middle row, each row left is drawn above
/// and below the center, then the middle row
pub open spec fn dot_drawn<T: Pixel>(shape: DotShape, p: Seq<u8>, w: i64, c: Rgba8, before: RenderingBase<T>,
                                     after: RenderingBase<T>) -> bool {
    let x = shape.2 / 256;
    let y = shape.3 / 256;
    exists|ws: Seq<DotState>, imgs: Seq<RenderingBase<T>>| {
        &&& dot_walk(dot_radius(w), ws)
        &&& ws.len() >= 2
        &&& imgs.len() == ws.len()
        &&& imgs[0] == before
        &&& (forall|k: int| 0 <= k < ws.len() - 1 ==> (#[trigger] ws[k]).2 < 0)
        &&& ws.last().2 >= 0
        &&& (forall|k: int| 0 <= k < ws.len() - 1 ==> #[trigger] dot_iter_drawn(shape, p, w as int, c, x, y,
                ws[k], ws[k + 1], imgs[k], imgs[k + 1]))
        &&& #[trigger] dot_row_drawn(shape, p, w as int, c, x - ws.last().1, y + ws.last().2, x + ws.last().1,
                imgs.last(), after)
    }
}

/// The points of a dot are in range, its radius is at most 64 pixels, and
/// every coverage its rows read is in the line profile
pub open spec fn dot_ok(shape: DotShape, w: i64, p: Seq<u8>) -> bool {
    &&& crate::in_coord(shape.2 as int) && crate::in_coord(shape.3 as int)
    &&& in_aux(shape.4 as int) && in_aux(shape.5 as int)
    &&& in_aux(shape.6 as int) && in_aux(shape.7 as int)
    &&& 0 <= w <= 64 * 256
    &&& w + 512 < p.len()
}

impl<'a, T: Pixel> RendererOutlineAA<'a, T> {
    /// Draw `shape`: walk the circle of the dot radius from its top, and
    /// each time the walk leaves a row, draw that row above and below the
    /// center; last the middle row
    #[verifier::rlimit(40)]
    fn dot(&mut self, pie: bool, start: bool, xc: i64, yc: i64, xa: i64, ya: i64, xb: i64, yb: i64)
        requires
            old(self).ren.wf(),
            dot_ok((pie, start, xc, yc, xa, ya, xb, yb), old(self).subpixel_width, old(self).profile@),
        ensures
            final(self).ren.wf(),
            final(self).color == old(self).color,
            final(self).profile@ == old(self).profile@,
            final(self).subpixel_width == old(self).subpixel_width,
            dot_drawn((pie, start, xc, yc, xa, ya, xb, yb), old(self).profile@, old(self).subpixel_width,
                old(self).color, *old(self).ren, *final(self).ren),
    {
        let ghost shape: DotShape = (pie, start, xc, yc, xa, ya, xb, yb);
        let ghost p = self.profile@;
        let ghost c = self.color;
        let ghost w = self.subpixel_width;
        let ghost before = *self.ren;
        let wx: i64 = self.subpixel_width + 255;
        proof { crate::fixed::lemma_shr8(wx); }
        let mut r: i64 = wx >> 8i64;
        if r < 1 {
            r = 1;
        }
        assert(r == dot_radius(w));
        assert(1 <= r <= 64);
        proof { lemma_dot_walk_ok(r as int); }
        proof {
            assert(2 * r * r <= 2 * 65 * 65) by (nonlinear_arith) requires 1 <= r <= 65;
            assert(-(65 * (2 * 65 * 65)) <= -r * (2 * r * r) <= 0) by (nonlinear_arith) requires 1 <= r <= 65;
            assert(2 * r * r >= 2) by (nonlinear_arith) requires 1 <= r;
        }
        let mut ei = EllipseInterpolator::new(r, r);
        let mut dx: i64 = 0;
        let mut dy: i64 = -r;
        let mut dy0: i64 = dy;
        let mut dx0: i64 = dx;
        proof {
            crate::fixed::lemma_shr8(xc);
            crate::fixed::lemma_shr8(yc);
        }
        let x: i64 = xc >> 8i64;
        let y: i64 = yc >> 8i64;
        let ghost mut ws: Seq<DotState> = seq![(ei, dx, dy)];
        let ghost mut imgs: Seq<RenderingBase<T>> = seq![*self.ren];
        loop
            invariant_except_break
                forall|k: int| 0 <= k < ws.len() ==> (#[trigger] ws[k]).2 < 0,
            invariant
                dot_walk(r as int, ws),
                ws.last() == (ei, dx, dy),
                dx0 == dx && dy0 == dy,
                ei.two_rx2 == 2 * r * r && ei.two_ry2 == 2 * r * r,
                2 * r * r >= 2,
                x == xc / 256 && y == yc / 256,
                imgs.len() == ws.len(),
                imgs[0] == before,
                imgs.last() == *self.ren,
                forall|k: int| 0 <= k < ws.len() - 1 ==> #[trigger] dot_iter_drawn(shape, p, w as int, c,
                    x as int, y as int, ws[k], ws[k + 1], imgs[k], imgs[k + 1]),
                self.ren.wf(),
                self.color == c,
                self.profile@ == p,
                self.subpixel_width == w,
                r == dot_radius(w),
                dot_walk_ok(r as int),
                dot_ok(shape, w, p),
                shape == (pie, start, xc, yc, xa, ya, xb, yb),
            ensures
                ws.len() >= 2,
                forall|k: int| 0 <= k < ws.len() - 1 ==> (#[trigger] ws[k]).2 < 0,
                ws.last().2 >= 0,
                0 <= dx <= 65,
                -65 <= dy <= 1,
            decreases (i64::MAX - ei.inc_x) + (i64::MAX - ei.inc_y),
        {
            let ghost a: DotState = (ei, dx, dy);
            let ghost img_a = *self.ren;
            assert(dot_pre(a));
            dx += ei.dx;
            dy += ei.dy;
            if dy != dy0 {
                self.dot_hline(pie, start, xc, yc, xa, ya, xb, yb, x - dx0, y + dy0, x + dx0);
                let ghost mid = *self.ren;
                self.dot_hline(pie, start, xc, yc, xa, ya, xb, yb, x - dx0, y - dy0, x + dx0);
                assert(dot_row_drawn(shape, p, w as int, c, x - a.1, y + a.2, x + a.1, img_a, mid));
            }
            dx0 = dx;
            dy0 = dy;
            let ghost e0 = ei;
            ei.inc();
            proof {
                assert(ei.dx + ei.dy >= 1);
                assert(ei.inc_x + ei.inc_y >= e0.inc_x + e0.inc_y + 2) by (nonlinear_arith)
                    requires ei.inc_x == e0.inc_x + ei.dx * e0.two_ry2, ei.inc_y == e0.inc_y + ei.dy * e0.two_rx2,
                        e0.two_rx2 >= 2, e0.two_ry2 >= 2, 0 <= ei.dx <= 1, 0 <= ei.dy <= 1, ei.dx + ei.dy >= 1;
                let b: DotState = (ei, dx, dy);
                assert(ellipse_next(e0, ei));
                assert(dot_next(a, b));
                assert(dot_iter_drawn(shape, p, w as int, c, x as int, y as int, a, b, img_a, *self.ren));
                let ws0 = ws;
                let imgs0 = imgs;
                ws = ws.push(b);
                imgs = imgs.push(*self.ren);
                assert forall|k: int| 0 <= k < ws.len() - 1 implies #[trigger] dot_next(ws[k], ws[k + 1]) by {
                    if k < ws0.len() - 1 {
                        assert(dot_next(ws0[k], ws0[k + 1]));
                    }
                }
                assert forall|k: int| 0 <= k < ws.len() - 1 implies #[trigger] dot_iter_drawn(shape, p, w as int, c,
                    x as int, y as int, ws[k], ws[k + 1], imgs[k], imgs[k + 1]) by {
                    if k < ws0.len() - 1 {
                        assert(dot_iter_drawn(shape, p, w as int, c, x as int, y as int, ws0[k], ws0[k + 1],
                            imgs0[k], imgs0[k + 1]));
                    } else {
                        assert(ws[k] == a && ws[k + 1] == b);
                        assert(imgs[k] == img_a && imgs[k + 1] == *self.ren);
                    }
                }
                assert forall|k: int| 0 <= k < ws.len() - 1 implies (#[trigger] ws[k]).2 < 0 by {
                    assert(ws0[k].2 < 0);
                }
                assert(dot_walk(r as int, ws));
            }
            if dy >= 0 {
                break;
            }
            proof {
                assert forall|k: int| 0 <= k < ws.len() implies (#[trigger] ws[k]).2 < 0 by {
                    if k < ws.len() - 1 {
                        assert(ws[k].2 < 0);
                    }
                }
            }
        }
        let ghost img_last = *self.ren;
        self.dot_hline(pie, start, xc, yc, xa, ya, xb, yb, x - dx0, y + dy0, x + dx0);
        assert(dot_row_drawn(shape, p, w as int, c, x - ws.last().1, y + ws.last().2, x + ws.last().1,
            img_last, *self.ren));
        assert(dot_drawn(shape, p, w, c, before, *self.ren));
    }

    /// Draw the round cap of a line end centered on (`xc1`,`yc1`): the half
    /// disc on the start side of the line toward (`xc2`,`yc2`) if `start`,
    /// else on its end side
    pub fn semidot(&mut self, start: bool, xc1: i64, yc1: i64, xc2: i64, yc2: i64)
        requires
            old(self).ren.wf(),
            dot_ok((false, start, xc1, yc1, xc2, yc2, 0, 0), old(self).subpixel_width, old(self).profile@),
        ensures
            final(self).ren.wf(),
            final(self).color == old(self).color,
            final(self).profile@ == old(self).profile@,
            final(self).subpixel_width == old(self).subpixel_width,
            dot_drawn((false, start, xc1, yc1, xc2, yc2, 0, 0), old(self).profile@, old(self).subpixel_width,
                old(self).color, *old(self).ren, *final(self).ren),
    {
        self.dot(false, start, xc1, yc1, xc2, yc2, 0, 0);
    }

    /// Draw the round join centered on (`xc`,`yc`): the pie slice between
    /// the lines toward (`x1`,`y1`) and (`x2`,`y2`)
    pub fn pie(&mut self, xc: i64, yc: i64, x1: i64, y1: i64, x2: i64, y2: i64)
        requires
            old(self).ren.wf(),
            dot_ok((true, false, xc, yc, x1, y1, x2, y2), old(self).subpixel_width, old(self).profile@),
        ensures
            final(self).ren.wf(),
            final(self).color == old(self).color,
            final(self).profile@ == old(self).profile@,
            final(self).subpixel_width == old(self).subpixel_width,
            dot_drawn((true, false, xc, yc, x1, y1, x2, y2), old(self).profile@, old(self).subpixel_width,
                old(self).color, *old(self).ren, *final(self).ren),
    {
        self.dot(true, false, xc, yc, x1, y1, x2, y2);
    }
}


/// The point of the circle walk that state `a` stands at: its offsets with
/// the last move added, counted right and down from the top
pub open spec fn dot_point(r: int, a: DotState) -> (int, int) {
    (a.1 + a.0.dx, a.2 + r + a.0.dy)
}

/// State `a` of the walk around a dot of radius `r` is the interpolator at
/// its point, which lies right of the top by at most the radius
pub open spec fn dot_at(r: int, a: DotState) -> bool {
    let (sx, sy) = dot_point(r, a);
    &&& a.0 == EllipseInterpolator::at(r, r, sx, sy, a.0.dx as int, a.0.dy as int)
    &&& 0 <= a.0.dx <= 1
    &&& 0 <= a.0.dy <= 1
    &&& a.0.dx <= sx <= r
    &&& a.0.dy <= sy <= r + 1
}

/// The values of the circle walk near the quadrant stay small
proof fn lemma_circle_values(r: int, sx: int, sy: int)
    requires
        1 <= r <= 64,
        0 <= sx <= r + 1,
        0 <= sy <= r + 1,
    ensures
        1 <= r * r <= 0x1000,
        2 <= 2 * r * r <= 0x2000,
        0 <= 2 * r * r * sx <= 0x10_0000,
        -0x10_0000 <= 2 * r * r * (sy - r) <= 0x10_0000,
        -0x200_0000 <= ellipse_f(r, r, sx, sy) <= 0x400_0000,
{
    assert(1 <= r * r <= 0x1000) by (nonlinear_arith) requires 1 <= r <= 64;
    assert(2 <= 2 * r * r <= 0x2000) by (nonlinear_arith) requires 1 <= r <= 64;
    assert(0 <= 2 * r * r * sx <= 0x10_0000) by (nonlinear_arith) requires 1 <= r <= 64, 0 <= sx <= r + 1;
    assert(-0x10_0000 <= 2 * r * r * (sy - r) <= 0x10_0000) by (nonlinear_arith)
        requires 1 <= r <= 64, 0 <= sy <= r + 1;
    assert(0 <= r * r * sx * sx <= 0x200_0000) by (nonlinear_arith) requires 1 <= r <= 64, 0 <= sx <= r + 1;
    assert(0 <= r * r * (sy - r) * (sy - r) <= 0x200_0000) by (nonlinear_arith)
        requires 1 <= r <= 64, 0 <= sy <= r + 1;
    assert(0 <= r * r * r * r <= 0x100_0000) by (nonlinear_arith) requires 1 <= r <= 64;
}

/// The interpolator at a point near the quadrant can step
proof fn lemma_circle_steppable(r: int, sx: int, sy: int, dx: int, dy: int)
    requires
        1 <= r <= 64,
        0 <= sx <= r,
        0 <= sy <= r,
    ensures
        EllipseInterpolator::at(r, r, sx, sy, dx, dy).steppable(),
{
    lemma_circle_values(r, sx, sy);
}

/// At the right end of the quadrant the walk only moves down
proof fn lemma_circle_right_end(r: int, sy: int, dx: int, dy: int)
    requires
        1 <= r <= 64,
        0 <= sy <= r,
    ensures
        EllipseInterpolator::at(r, r, r, sy, dx, dy).next_move() == (0int, 1int),
{
    lemma_circle_values(r, r, sy);
    let e = EllipseInterpolator::at(r, r, r, sy, dx, dy);
    let f = ellipse_f(r, r, r, sy);
    assert(e.f_x() == r * r * (2 * r + 1) + r * r * (sy - r) * (sy - r)) by (nonlinear_arith)
        requires e.f_x() == f + 2 * r * r * r + r * r,
            f == r * r * r * r + r * r * (sy - r) * (sy - r) - r * r * r * r;
    assert(e.f_y() == r * r * (sy + 1 - r) * (sy + 1 - r)) by (nonlinear_arith)
        requires e.f_y() == f + 2 * r * r * (sy - r) + r * r,
            f == r * r * r * r + r * r * (sy - r) * (sy - r) - r * r * r * r;
    assert(e.f_xy() == e.f_y() + 2 * r * r * r + r * r) by (nonlinear_arith)
        requires e.f_xy() == f + 2 * r * r * r + r * r + 2 * r * r * (sy - r) + r * r,
            e.f_y() == f + 2 * r * r * (sy - r) + r * r;
    assert(e.f_x() > e.f_y()) by (nonlinear_arith)
        requires e.f_x() == r * r * (2 * r + 1) + r * r * (sy - r) * (sy - r),
            e.f_y() == r * r * (sy + 1 - r) * (sy + 1 - r), 1 <= r, 0 <= sy <= r;
    assert(e.f_y() >= 0) by (nonlinear_arith) requires e.f_y() == r * r * (sy + 1 - r) * (sy + 1 - r);
    assert(2 * r * r * r + r * r > 0) by (nonlinear_arith) requires 1 <= r;
}


/// Every state of the walk around a dot of radius `r` that the drawing
/// reaches is the interpolator at its point, right of the top by at most
/// the radius
proof fn lemma_dot_walk_at(r: int, ws: Seq<DotState>, k: int)
    requires
        1 <= r <= 64,
        dot_walk(r, ws),
        0 <= k < ws.len(),
        forall|j: int| 0 <= j < k ==> (#[trigger] ws[j]).2 < 0,
    ensures
        dot_at(r, ws[k]),
    decreases k,
{
    if k > 0 {
        let j = k - 1;
        lemma_dot_walk_at(r, ws, j);
        let a = ws[j];
        let b = ws[j + 1];
        assert(dot_next(a, b));
        assert(a.2 < 0);
        let (sx, sy) = dot_point(r, a);
        lemma_circle_steppable(r, sx, sy, a.0.dx as int, a.0.dy as int);
        lemma_circle_values(r, sx, sy);
        lemma_ellipse_step(r, r, sx, sy, a.0.dx as int, a.0.dy as int, a.0, b.0);
        if sx == r {
            lemma_circle_right_end(r, sy, a.0.dx as int, a.0.dy as int);
        }
        assert(dot_at(r, b));
    }
}

/// The walk around a dot of a radius up to 64 pixels can take every step
/// that drawing the dot asks for
pub proof fn lemma_dot_walk_ok(r: int)
    requires
        1 <= r <= 64,
    ensures
        dot_walk_ok(r),
{
    assert forall|ws: Seq<DotState>| #[trigger] dot_walk(r, ws)
        && (forall|k: int| 0 <= k < ws.len() ==> (#[trigger] ws[k]).2 < 0) implies dot_pre(ws.last()) by {
        let k = ws.len() - 1;
        lemma_dot_walk_at(r, ws, k);
        let a = ws[k];
        assert(a.2 < 0);
        let (sx, sy) = dot_point(r, a);
        lemma_circle_steppable(r, sx, sy, a.0.dx as int, a.0.dy as int);
        lemma_circle_values(r, sx, sy);
    }
}

} // verus!
